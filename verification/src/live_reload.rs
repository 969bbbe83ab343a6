use crate::text::copy_char_range;
use vstd::prelude::*;

verus! {

// ---------------------------------------------------------------------------
// The live-reload channel: a polling HTTP request whose response body carries
// a changed file as "<file name><marker><content>". The transport stays
// outside; this module decides which responses the channel consumes and
// parses the consumed bodies.
// ---------------------------------------------------------------------------

/// Whether `marker` occurs in `body` starting at `i`.
pub open spec fn matches_at(body: Seq<char>, marker: Seq<char>, i: int) -> bool {
    &&& 0 <= i
    &&& i + marker.len() <= body.len()
    &&& forall|j: int| 0 <= j < marker.len() ==> body[i + j] == marker[j]
}

/// The first position at or after `from` where `marker` occurs in `body`.
pub open spec fn first_match_from(body: Seq<char>, marker: Seq<char>, from: int) -> Option<int>
    decreases body.len() - from + 1,
{
    if from < 0 || from + marker.len() > body.len() {
        Option::None
    } else if matches_at(body, marker, from) {
        Some(from)
    } else {
        first_match_from(body, marker, from + 1)
    }
}

/// The first position where `marker` occurs in `body`.
pub open spec fn first_match(body: Seq<char>, marker: Seq<char>) -> Option<int> {
    first_match_from(body, marker, 0)
}

/// A changed file delivered over the live-reload channel.
pub struct LiveFileChange {
    pub file_name: Vec<char>,
    pub content: Vec<char>,
}

/// What becomes of one network response: not the channel's — hand it on to
/// the application; the channel's — consume it, with the parsed change where
/// the body is well formed (an empty or marker-less body carries none).
pub enum LiveReloadOutcome {
    Forward,
    Consumed(Option<LiveFileChange>),
}

fn marker_matches_at(body: &Vec<char>, marker: &Vec<char>, i: usize) -> (r: bool)
    requires
        i + marker@.len() <= body@.len(),
    ensures
        r == matches_at(body@, marker@, i as int),
{
    proof {
        broadcast use vstd::std_specs::vec::axiom_spec_len;

        assert(vstd::std_specs::vec::spec_vec_len(body) == body@.len());
    }
    let mut j: usize = 0;
    while j < marker.len()
        invariant
            i + marker@.len() <= body@.len(),
            body@.len() <= usize::MAX,
            j <= marker@.len(),
            forall|k: int| 0 <= k < j ==> body@[i + k] == marker@[k],
        decreases marker@.len() - j,
    {
        if body[i + j] != marker[j] {
            return false;
        }
        j = j + 1;
    }
    true
}

fn find_marker(body: &Vec<char>, marker: &Vec<char>) -> (r: Option<usize>)
    ensures
        (match r {
            Some(i) => Some(i as int),
            Option::None => Option::<int>::None,
        }) == first_match(body@, marker@),
        r is Some ==> matches_at(body@, marker@, r->Some_0 as int),
{
    if marker.len() > body.len() {
        return None;
    }
    let limit = body.len() - marker.len();
    let mut i: usize = 0;
    while i <= limit
        invariant
            marker@.len() <= body@.len(),
            limit == body@.len() - marker@.len(),
            i <= limit + 1,
            first_match(body@, marker@) == first_match_from(body@, marker@, i as int),
        decreases limit + 1 - i,
    {
        if marker_matches_at(body, marker, i) {
            return Some(i);
        }
        proof {
            broadcast use vstd::std_specs::vec::axiom_spec_len;

            assert(vstd::std_specs::vec::spec_vec_len(body) == body@.len());
            assert(marker@.len() > 0) by {
                if marker@.len() == 0 {
                    assert(matches_at(body@, marker@, i as int));
                }
            }
        }
        i = i + 1;
    }
    None
}

/// Decides one network response of the live-reload channel: a response to a
/// different request is handed on; the channel's own response is consumed,
/// and a non-empty body splits at the first marker into the changed file's
/// name and its new content.
pub fn handle_live_reload_response(
    request_id: u64,
    live_reload_id: u64,
    body: &Vec<char>,
    marker: &Vec<char>,
) -> (r: LiveReloadOutcome)
    ensures
        r is Forward <==> request_id != live_reload_id,
        request_id == live_reload_id ==> {
            let change = r->Consumed_0;
            &&& (change is Some <==> body@.len() > 0 && first_match(body@, marker@) is Some)
            &&& (change is Some ==> {
                let i = first_match(body@, marker@)->Some_0;
                &&& change->Some_0.file_name@ == body@.take(i)
                &&& change->Some_0.content@ == body@.skip(i + marker@.len())
            })
        },
{
    if request_id != live_reload_id {
        return LiveReloadOutcome::Forward;
    }
    if body.len() == 0 {
        return LiveReloadOutcome::Consumed(None);
    }
    match find_marker(body, marker) {
        Option::None => LiveReloadOutcome::Consumed(None),
        Some(i) => {
            let file_name = copy_char_range(body, 0, i);
            let content = copy_char_range(body, i + marker.len(), body.len());
            proof {
                assert(file_name@ =~= body@.take(i as int));
                assert(content@ =~= body@.skip(i as int + marker@.len()));
            }
            LiveReloadOutcome::Consumed(Some(LiveFileChange { file_name, content }))
        },
    }
}

} // verus!
