use crate::cursor_set::{
    carets_spec, cursors_fit, insert_cursor, lemma_selections_wf, normalize_cursors, pos_xform,
    selections_spec, CursorSet, CursorView, Direction,
};
use crate::delta::{apply_ops, lemma_apply_ops_wf, ops_wf, Delta, OpView, Whose};
use crate::generational::{Arena, Id, IdAllocator};
use crate::position::Position;
use crate::position_set::PositionSet;
use crate::protocol::{RemoteRejection, Request, Response};
use crate::range_set::RangeSet;
use crate::size::{Size, SizeView};
use crate::text::{size_fits, text_wf, Text};
use vstd::prelude::*;

verus! {

// ---------------------------------------------------------------------------
// Sessions.
// ---------------------------------------------------------------------------

/// One cursor/selection view onto a document; many sessions may share one
/// document. The derived selections and carets are recomputed after every
/// mutation, never cached across one.
#[derive(Debug)]
pub struct Session {
    cursors: CursorSet,
    selections: RangeSet,
    carets: PositionSet,
    document_id: Id,
}

impl Session {
    pub closed spec fn cursors_view(&self) -> Seq<CursorView> {
        self.cursors@
    }

    pub closed spec fn selections_view(&self) -> Seq<crate::range_set::SpanView> {
        self.selections@
    }

    pub closed spec fn carets_view(&self) -> Seq<SizeView> {
        self.carets@
    }

    pub closed spec fn document_id_spec(&self) -> Id {
        self.document_id
    }

    /// The session's derived caches match its cursors, which all land inside
    /// the given text.
    pub open spec fn wf(&self, t: Seq<Seq<char>>) -> bool {
        &&& cursors_fit(t, self.cursors_view())
        &&& self.selections_view() == selections_spec(self.cursors_view())
        &&& self.carets_view() == carets_spec(self.cursors_view())
    }

    /// The current selections, for rendering and for building edit deltas.
    pub fn selections(&self) -> (r: &RangeSet)
        ensures
            r@ == self.selections_view(),
    {
        &self.selections
    }

    /// The current caret positions.
    pub fn carets(&self) -> (r: &PositionSet)
        ensures
            r@ == self.carets_view(),
    {
        &self.carets
    }

    pub fn document_id(&self) -> (r: Id)
        ensures
            r == self.document_id_spec(),
    {
        self.document_id
    }

    fn update_selections_and_carets(&mut self)
        ensures
            final(self).cursors_view() == old(self).cursors_view(),
            final(self).document_id_spec() == old(self).document_id_spec(),
            final(self).selections_view() == selections_spec(final(self).cursors_view()),
            final(self).carets_view() == carets_spec(final(self).cursors_view()),
    {
        self.selections = self.cursors.selections();
        self.carets = self.cursors.carets();
    }
}

// ---------------------------------------------------------------------------
// Edits and documents.
// ---------------------------------------------------------------------------

/// The model of a stored edit: the cursor snapshot to restore and the delta
/// that undoes the committed change.
pub struct EditView {
    pub cursors: Seq<CursorView>,
    pub delta: Seq<OpView>,
}

/// A stored edit: the delta that undoes a committed change, paired with the
/// cursor state to restore.
#[derive(Debug)]
pub struct Edit {
    pub cursors: CursorSet,
    pub delta: Delta,
}

impl View for Edit {
    type V = EditView;

    open spec fn view(&self) -> EditView {
        EditView { cursors: self.cursors@, delta: self.delta@ }
    }
}

impl DeepView for Edit {
    type V = EditView;

    open spec fn deep_view(&self) -> EditView {
        self@
    }
}

/// The stored edits are applicable in order from the current text: the top
/// undoes the most recent change, and each one below applies to the text the
/// ones above it restore.
pub open spec fn edits_chain_wf(t: Seq<Seq<char>>, edits: Seq<EditView>) -> bool
    decreases edits.len(),
{
    text_wf(t) && (edits.len() == 0 || {
        &&& ops_wf(t, edits.last().delta)
        &&& edits_chain_wf(apply_ops(t, edits.last().delta), edits.drop_last())
    })
}

/// How the outstanding queue relates the server-acknowledged text to the
/// local text: each queued delta applies in order, and together they produce
/// the local text.
pub open spec fn outstanding_chain(
    server: Seq<Seq<char>>,
    outs: Seq<Seq<OpView>>,
    text: Seq<Seq<char>>,
) -> bool {
    if outs.len() == 0 {
        text == server && text_wf(server)
    } else if outs.len() == 1 {
        &&& ops_wf(server, outs[0])
        &&& text == apply_ops(server, outs[0])
    } else {
        &&& outs.len() == 2
        &&& ops_wf(server, outs[0])
        &&& ops_wf(apply_ops(server, outs[0]), outs[1])
        &&& text == apply_ops(apply_ops(server, outs[0]), outs[1])
    }
}

/// The unit of synchronization with the remote peer: one text, a revision
/// counter, undo/redo stacks, and the bounded queue of deltas not yet
/// acknowledged by the peer.
pub struct Document {
    path: String,
    revision: usize,
    text: Text,
    session_ids: Vec<Id>,
    undo_stack: Vec<Edit>,
    redo_stack: Vec<Edit>,
    outstanding_deltas: Vec<Delta>,
    acknowledged_text: Text,
}

impl Document {
    pub closed spec fn path_view(&self) -> Seq<char> {
        self.path@
    }

    pub closed spec fn revision_spec(&self) -> nat {
        self.revision as nat
    }

    pub closed spec fn text_view(&self) -> Seq<Seq<char>> {
        self.text@
    }

    pub closed spec fn session_ids_view(&self) -> Seq<Id> {
        self.session_ids@
    }

    pub closed spec fn undo_view(&self) -> Seq<EditView> {
        self.undo_stack.deep_view()
    }

    pub closed spec fn redo_view(&self) -> Seq<EditView> {
        self.redo_stack.deep_view()
    }

    pub closed spec fn outstanding_view(&self) -> Seq<Seq<OpView>> {
        Seq::new(self.outstanding_deltas@.len(), |i: int| self.outstanding_deltas@[i]@)
    }

    /// The text the remote peer has acknowledged so far; the local text is
    /// this text with the outstanding deltas applied.
    pub closed spec fn server_view(&self) -> Seq<Seq<char>> {
        self.acknowledged_text@
    }

    /// Whether a foreign delta was built against the acknowledged text: the
    /// guard callers test before feeding a notification in.
    pub fn notification_applies(&self, delta: &Delta) -> (r: bool)
        requires
            self.wf(),
        ensures
            r == ops_wf(self.server_view(), delta@),
    {
        proof {
            use_type_invariant(&self.acknowledged_text);
        }
        delta.applies_to(&self.acknowledged_text)
    }

    /// The document's internal invariant. The outstanding queue never holds
    /// more than two deltas, whatever the burst of local edits.
    pub open spec fn wf(&self) -> bool {
        &&& self.text_view().len() >= 1
        &&& self.outstanding_view().len() <= 2
        &&& outstanding_chain(self.server_view(), self.outstanding_view(), self.text_view())
        &&& edits_chain_wf(self.text_view(), self.undo_view())
    }

    pub fn text(&self) -> (r: &Text)
        ensures
            r@ == self.text_view(),
    {
        &self.text
    }

    pub fn revision(&self) -> (r: usize)
        ensures
            r as nat == self.revision_spec(),
    {
        self.revision
    }

    pub fn outstanding_count(&self) -> (r: usize)
        ensures
            r == self.outstanding_view().len(),
    {
        self.outstanding_deltas.len()
    }
}

impl Document {
    /// Queues a locally committed delta for transmission. With nothing
    /// queued, the delta is sent at once; with one in flight, it waits in the
    /// second slot; with two queued, it is composed into the second slot, so
    /// the queue never grows past two whatever the burst of local edits.
    fn schedule_apply_delta_request(
        &mut self,
        delta: Delta,
        Ghost(t_old): Ghost<Seq<Seq<char>>>,
    ) -> (r: Option<Request>)
        requires
            old(self).outstanding_view().len() <= 2,
            outstanding_chain(old(self).server_view(), old(self).outstanding_view(), t_old),
            ops_wf(t_old, delta@),
            old(self).text_view() == apply_ops(t_old, delta@),
        ensures
            final(self).outstanding_view().len() <= 2,
            outstanding_chain(
                final(self).server_view(),
                final(self).outstanding_view(),
                final(self).text_view(),
            ),
            final(self).server_view() == old(self).server_view(),
            final(self).text_view() == old(self).text_view(),
            final(self).path_view() == old(self).path_view(),
            final(self).revision_spec() == old(self).revision_spec(),
            final(self).session_ids_view() == old(self).session_ids_view(),
            final(self).undo_view() == old(self).undo_view(),
            final(self).redo_view() == old(self).redo_view(),
            old(self).outstanding_view().len() == 0 ==> {
                &&& final(self).outstanding_view() == seq![delta@]
                &&& r is Some
                &&& r->Some_0@.path == old(self).path_view()
                &&& r->Some_0@.revision == old(self).revision_spec()
                &&& r->Some_0@.delta == delta@
            },
            old(self).outstanding_view().len() == 1 ==> {
                &&& final(self).outstanding_view() == old(self).outstanding_view().push(delta@)
                &&& r is None
            },
            old(self).outstanding_view().len() == 2 ==> {
                &&& final(self).outstanding_view() == seq![
                    old(self).outstanding_view()[0],
                    crate::laws::compose_ops(old(self).outstanding_view()[1], delta@),
                ]
                &&& r is None
            },
    {
        let ghost pre_outs = self.outstanding_view();
        if self.outstanding_deltas.len() == 2 {
            let ghost t1 = apply_ops(self.server_view(), pre_outs[0]);
            let popped = self.outstanding_deltas.pop();
            match popped {
                Some(second) => {
                    proof {
                        assert(second@ == pre_outs[1]);
                        assert(ops_wf(t1, second@));
                        assert(ops_wf(apply_ops(t1, second@), delta@));
                        assert(exists|w: Seq<Seq<char>>|
                            ops_wf(w, second@) && ops_wf(apply_ops(w, second@), delta@));
                    }
                    let composed = second.compose(delta);
                    self.outstanding_deltas.push(composed);
                    proof {
                        assert(self.outstanding_view() =~= seq![
                            pre_outs[0],
                            crate::laws::compose_ops(pre_outs[1], delta@),
                        ]);
                    }
                    None
                },
                Option::None => vstd::pervasive::unreached(),
            }
        } else if self.outstanding_deltas.len() == 0 {
            let request = Request::ApplyDelta(self.path.clone(), self.revision, delta.clone());
            self.outstanding_deltas.push(delta);
            proof {
                assert(self.outstanding_view() =~= seq![self.outstanding_deltas@[0]@]);
            }
            Some(request)
        } else {
            self.outstanding_deltas.push(delta);
            proof {
                assert(self.outstanding_view() =~= pre_outs.push(delta@));
            }
            None
        }
    }
}

/// After one document changed and every session attached to it was brought to
/// its new text (sessions of other documents untouched), the state invariant
/// holds again.
proof fn lemma_state_wf_after_edit(now: State, pre: State, did: Id)
    requires
        pre.wf(),
        pre.document_valid(did),
        now.arenas_within_allocators(),
        now.document_valid(did),
        now.document_at(did).wf(),
        now.document_at(did).session_ids_view() == pre.document_at(did).session_ids_view(),
        forall|s: Id| #[trigger] now.session_valid(s) <==> pre.session_valid(s),
        forall|s: Id|
            pre.session_valid(s) ==> #[trigger] now.session_at(s).document_id_spec()
                == pre.session_at(s).document_id_spec(),
        forall|s: Id|
            pre.session_valid(s) && pre.session_at(s).document_id_spec() != did
                ==> #[trigger] now.session_at(s) == pre.session_at(s),
        forall|s: Id|
            pre.session_valid(s) && pre.session_at(s).document_id_spec() == did
                ==> #[trigger] now.session_at(s).wf(now.document_at(did).text_view()),
        forall|d: Id| #[trigger] now.document_valid(d) <==> pre.document_valid(d),
        forall|d: Id|
            d != did && pre.document_valid(d) ==> #[trigger] now.document_at(d)
                == pre.document_at(d),
        now.paths_view() == pre.paths_view(),
    ensures
        now.wf(),
{
    assert forall|s: Id| #[trigger] now.session_valid(s) implies {
        &&& now.document_valid(now.session_at(s).document_id_spec())
        &&& now.session_at(s).wf(
            now.document_at(now.session_at(s).document_id_spec()).text_view(),
        )
        &&& exists|k: int|
            0 <= k < now.document_at(
                now.session_at(s).document_id_spec(),
            ).session_ids_view().len() && now.document_at(
                now.session_at(s).document_id_spec(),
            ).session_ids_view()[k] == s
    } by {
        assert(pre.session_valid(s));
        let d = pre.session_at(s).document_id_spec();
        assert(pre.document_valid(d));
        let k = choose|k: int|
            0 <= k < pre.document_at(d).session_ids_view().len() && pre.document_at(
                d,
            ).session_ids_view()[k] == s;
        if d == did {
            assert(now.document_at(did).session_ids_view()[k] == s);
        } else {
            assert(now.document_at(d) == pre.document_at(d));
            assert(now.document_at(d).session_ids_view()[k] == s);
        }
    }
    assert forall|d: Id| #[trigger] now.document_valid(d) implies {
        &&& now.document_at(d).wf()
        &&& forall|k: int|
            0 <= k < now.document_at(d).session_ids_view().len() ==> {
                &&& now.session_valid(#[trigger] now.document_at(d).session_ids_view()[k])
                &&& now.session_at(now.document_at(d).session_ids_view()[k]).document_id_spec()
                    == d
            }
        &&& forall|k1: int, k2: int|
            0 <= k1 < k2 < now.document_at(d).session_ids_view().len() ==> (
            #[trigger] now.document_at(d).session_ids_view()[k1]) != (
            #[trigger] now.document_at(d).session_ids_view()[k2])
    } by {
        assert(pre.document_valid(d));
        assert(now.document_at(d).session_ids_view() == pre.document_at(d).session_ids_view());
        assert forall|k: int| 0 <= k < now.document_at(d).session_ids_view().len() implies {
            &&& now.session_valid(#[trigger] now.document_at(d).session_ids_view()[k])
            &&& now.session_at(now.document_at(d).session_ids_view()[k]).document_id_spec() == d
        } by {
            let s = now.document_at(d).session_ids_view()[k];
            assert(pre.session_valid(s));
            assert(pre.session_at(s).document_id_spec() == d);
        }
    }
}

// ---------------------------------------------------------------------------
// Threading a foreign delta through an edit stack.
// ---------------------------------------------------------------------------

pub proof fn lemma_edits_deep_view(v: &Vec<Edit>)
    ensures
        v.deep_view().len() == v@.len(),
        forall|i: int| 0 <= i < v@.len() ==> #[trigger] v.deep_view()[i] == v@[i]@,
{
}

/// The stack transform: walking from the most recent edit to the oldest, the
/// incoming delta remaps each stored cursor snapshot, each stored delta is
/// replaced by its transform against the incoming delta, and the other half
/// of the transform is threaded on to the next (older) entry. The final
/// threaded delta is the second component.
pub open spec fn stack_xform(edits: Seq<EditView>, d: Seq<OpView>) -> (Seq<EditView>, Seq<
    OpView,
>)
    decreases edits.len(),
{
    if edits.len() == 0 {
        (edits, d)
    } else {
        let e = edits.last();
        let moved = crate::cursor_set::normalize_cursors(
            e.cursors.map_values(
                |c: CursorView|
                    CursorView {
                        head: crate::cursor_set::pos_xform_clamped(c.head, d, Whose::Theirs),
                        anchor: crate::cursor_set::pos_xform_clamped(
                            c.anchor,
                            d,
                            Whose::Theirs,
                        ),
                    },
            ),
        );
        let p = crate::laws::transform_ops(d, e.delta);
        let rest = stack_xform(edits.drop_last(), p.0);
        (rest.0.push(EditView { cursors: moved, delta: p.1 }), rest.1)
    }
}

/// The stack transform keeps an applicable chain applicable: the transformed
/// stack undoes, in order, from the text the incoming delta produces.
pub proof fn lemma_stack_xform_chain(t: Seq<Seq<char>>, edits: Seq<EditView>, d: Seq<OpView>)
    requires
        edits_chain_wf(t, edits),
        ops_wf(t, d),
    ensures
        edits_chain_wf(apply_ops(t, d), stack_xform(edits, d).0),
    decreases edits.len(),
{
    lemma_apply_ops_wf(t, d);
    if edits.len() > 0 {
        let e = edits.last();
        let p = crate::laws::transform_ops(d, e.delta);
        crate::laws::lemma_transform_ops(t, d, e.delta);
        let t_undone = apply_ops(t, e.delta);
        lemma_stack_xform_chain(t_undone, edits.drop_last(), p.0);
        let r = stack_xform(edits, d).0;
        assert(apply_ops(apply_ops(t, d), p.1) == apply_ops(t_undone, p.0));
        assert(edits_chain_wf(apply_ops(t, d), r)) by {
            assert(r.last().delta == p.1);
            assert(r.drop_last() =~= stack_xform(edits.drop_last(), p.0).0);
        }
    }
}

/// Applies the stack transform: total over any stack, whether or not its
/// entries still apply to any text.
fn transform_edit_stack(stack: Vec<Edit>, delta: Delta) -> (r: (Vec<Edit>, Delta))
    ensures
        r.0.deep_view() == stack_xform(stack.deep_view(), delta@).0,
        r.1@ == stack_xform(stack.deep_view(), delta@).1,
    decreases stack@.len(),
{
    let ghost pre = stack.deep_view();
    proof {
        lemma_edits_deep_view(&stack);
    }
    let mut stack = stack;
    let popped = stack.pop();
    match popped {
        Option::None => {
            proof {
                assert(pre.len() == 0);
            }
            (stack, delta)
        },
        Some(e) => {
            proof {
                lemma_edits_deep_view(&stack);
                assert(stack.deep_view() =~= pre.drop_last());
                assert(e@ == pre.last());
            }
            let Edit { mut cursors, delta: edit_delta } = e;
            cursors.apply_delta_clamped(&delta, Whose::Theirs);
            let (new_delta, new_edit_delta) = delta.transform(edit_delta);
            let (mut rest, threaded) = transform_edit_stack(stack, new_delta);
            let ghost rest_pre = rest.deep_view();
            rest.push(Edit { cursors, delta: new_edit_delta });
            proof {
                lemma_edits_deep_view(&rest);
                assert(rest.deep_view() =~= rest_pre.push(
                    EditView {
                        cursors: stack_xform(pre, delta@).0.last().cursors,
                        delta: stack_xform(pre, delta@).0.last().delta,
                    },
                ));
                assert(rest.deep_view() =~= stack_xform(pre, delta@).0);
            }
            (rest, threaded)
        },
    }
}

// ---------------------------------------------------------------------------
// The editor state: all documents and sessions, arena-indexed.
// ---------------------------------------------------------------------------

/// Owns every document and session. Sessions reference their document by id;
/// all mutation goes through these entry points, so the shared undo history
/// and the outstanding queue stay centrally enforced.
pub struct State {
    session_id_allocator: IdAllocator,
    sessions: Arena<Session>,
    document_id_allocator: IdAllocator,
    documents: Arena<Document>,
    document_ids_by_path: Vec<(String, Id)>,
}

impl State {
    pub closed spec fn session_valid(&self, sid: Id) -> bool {
        self.sessions.valid(sid)
    }

    pub closed spec fn session_at(&self, sid: Id) -> Session {
        self.sessions.spec_get(sid)
    }

    pub closed spec fn document_valid(&self, did: Id) -> bool {
        self.documents.valid(did)
    }

    pub closed spec fn document_at(&self, did: Id) -> Document {
        self.documents.spec_get(did)
    }

    pub closed spec fn paths_view(&self) -> Seq<(String, Id)> {
        self.document_ids_by_path@
    }

    /// Whether no further document id can be handed out.
    pub closed spec fn document_id_space_spent(&self) -> bool {
        self.document_id_allocator.next_index_spec() == usize::MAX
    }

    /// Whether no further session id can be handed out.
    pub closed spec fn session_id_space_spent(&self) -> bool {
        self.session_id_allocator.next_index_spec() == usize::MAX
    }

    pub closed spec fn arenas_within_allocators(&self) -> bool {
        &&& self.sessions.slots_view().len() <= self.session_id_allocator.next_index_spec()
        &&& self.documents.slots_view().len() <= self.document_id_allocator.next_index_spec()
    }

    /// The state's invariant: every session points at a live document and its
    /// caches match its cursors over that document's text; every document
    /// meets its own invariant and its attached session ids are live,
    /// distinct, and point back at it.
    pub open spec fn wf(&self) -> bool {
        &&& self.arenas_within_allocators()
        &&& forall|sid: Id|
            #[trigger] self.session_valid(sid) ==> {
                &&& self.document_valid(self.session_at(sid).document_id_spec())
                &&& self.session_at(sid).wf(
                    self.document_at(self.session_at(sid).document_id_spec()).text_view(),
                )
                &&& exists|k: int|
                    0 <= k < self.document_at(
                        self.session_at(sid).document_id_spec(),
                    ).session_ids_view().len() && self.document_at(
                        self.session_at(sid).document_id_spec(),
                    ).session_ids_view()[k] == sid
            }
        &&& forall|did: Id|
            #[trigger] self.document_valid(did) ==> {
                &&& self.document_at(did).wf()
                &&& forall|k: int|
                    0 <= k < self.document_at(did).session_ids_view().len() ==> {
                        &&& self.session_valid(
                            #[trigger] self.document_at(did).session_ids_view()[k],
                        )
                        &&& self.session_at(
                            self.document_at(did).session_ids_view()[k],
                        ).document_id_spec() == did
                    }
                &&& forall|k1: int, k2: int|
                    0 <= k1 < k2 < self.document_at(did).session_ids_view().len() ==> (
                    #[trigger] self.document_at(did).session_ids_view()[k1]) != (
                    #[trigger] self.document_at(did).session_ids_view()[k2])
            }
        &&& forall|k: int|
            0 <= k < self.paths_view().len() ==> self.document_valid(
                (#[trigger] self.paths_view()[k]).1,
            )
    }

    /// Whether a document id is live.
    pub fn has_document(&self, document_id: Id) -> (r: bool)
        ensures
            r == self.document_valid(document_id),
    {
        self.documents.contains(document_id)
    }

    /// Whether a session id is live.
    pub fn has_session(&self, session_id: Id) -> (r: bool)
        ensures
            r == self.session_valid(session_id),
    {
        self.sessions.contains(session_id)
    }

    /// Read-only access to a document, for rendering and inspection.
    pub fn document(&self, document_id: Id) -> (r: &Document)
        requires
            self.document_valid(document_id),
        ensures
            r == self.document_at(document_id),
    {
        self.documents.borrow(document_id)
    }

    /// Read-only access to a session, for rendering and inspection.
    pub fn session(&self, session_id: Id) -> (r: &Session)
        requires
            self.session_valid(session_id),
        ensures
            r == self.session_at(session_id),
    {
        self.sessions.borrow(session_id)
    }

    pub fn new() -> (r: State)
        ensures
            r.wf(),
            forall|sid: Id| !r.session_valid(sid),
            forall|did: Id| !r.document_valid(did),
    {
        State {
            session_id_allocator: IdAllocator::new(),
            sessions: Arena::new(),
            document_id_allocator: IdAllocator::new(),
            documents: Arena::new(),
            document_ids_by_path: Vec::new(),
        }
    }

    /// Creates a document from an initial path, server revision and text.
    /// Returns `None` exactly when the id space is spent.
    pub fn create_document(&mut self, path: String, revision: usize, text: Text) -> (r: Option<
        Id,
    >)
        requires
            old(self).wf(),
            text.wf(),
        ensures
            final(self).wf(),
            r is None <==> old(self).document_id_space_spent(),
            r is Some ==> final(self).paths_view() == old(self).paths_view().push(
                (path, r->Some_0),
            ),
            r is Some ==> {
                &&& final(self).document_valid(r->Some_0)
                &&& final(self).document_at(r->Some_0).text_view() == text@
                &&& final(self).document_at(r->Some_0).revision_spec() == revision as nat
                &&& final(self).document_at(r->Some_0).path_view() == path@
                &&& final(self).document_at(r->Some_0).outstanding_view().len() == 0
                &&& final(self).document_at(r->Some_0).server_view() == text@
                &&& final(self).document_at(r->Some_0).session_ids_view().len() == 0
                &&& final(self).document_at(r->Some_0).undo_view().len() == 0
                &&& final(self).document_at(r->Some_0).redo_view().len() == 0
            },
            forall|sid: Id|
                old(self).session_valid(sid) ==> #[trigger] final(self).session_valid(sid)
                    && final(self).session_at(sid) == old(self).session_at(sid),
            forall|did: Id|
                old(self).document_valid(did) ==> #[trigger] final(self).document_valid(did)
                    && final(self).document_at(did) == old(self).document_at(did),
            r is None ==> *final(self) == *old(self),
    {
        let id_opt = self.document_id_allocator.allocate();
        match id_opt {
            None => None,
            Some(id) => {
                let ghost tv = text@;
                let path_copy = path.clone();
                let acknowledged_text = text.clone();
                let document = Document {
                    path,
                    revision,
                    text,
                    session_ids: Vec::new(),
                    undo_stack: Vec::new(),
                    redo_stack: Vec::new(),
                    outstanding_deltas: Vec::new(),
                    acknowledged_text,
                };
                proof {
                    assert(document.wf()) by {
                        assert(document.undo_view() =~= Seq::<EditView>::empty());
                        assert(document.redo_view() =~= Seq::<EditView>::empty());
                        assert(document.outstanding_view() =~= Seq::<Seq<OpView>>::empty());
                    }
                    assert(!old(self).document_valid(id));
                }
                self.documents.insert(id, document);
                let ghost pre_pairs = self.document_ids_by_path@;
                self.document_ids_by_path.push((path_copy, id));
                proof {
                    assert(forall|k: int|
                        0 <= k < pre_pairs.len() ==> #[trigger] self.document_ids_by_path@[k]
                            == pre_pairs[k]);
                    let pre = *old(self);
                    assert forall|sid: Id| #[trigger] self.session_valid(sid) implies {
                        &&& self.document_valid(self.session_at(sid).document_id_spec())
                        &&& self.session_at(sid).wf(
                            self.document_at(
                                self.session_at(sid).document_id_spec(),
                            ).text_view(),
                        )
                        &&& exists|k: int|
                            0 <= k < self.document_at(
                                self.session_at(sid).document_id_spec(),
                            ).session_ids_view().len() && self.document_at(
                                self.session_at(sid).document_id_spec(),
                            ).session_ids_view()[k] == sid
                    } by {
                        assert(pre.session_valid(sid));
                        let d = pre.session_at(sid).document_id_spec();
                        assert(pre.document_valid(d));
                        assert(d.index != id.index);
                        let k = choose|k: int|
                            0 <= k < pre.document_at(d).session_ids_view().len()
                                && pre.document_at(d).session_ids_view()[k] == sid;
                        assert(self.document_at(d).session_ids_view()[k] == sid);
                    }
                    assert forall|did: Id| #[trigger] self.document_valid(did) implies {
                        &&& self.document_at(did).wf()
                        &&& forall|k: int|
                            0 <= k < self.document_at(did).session_ids_view().len() ==> {
                                &&& self.session_valid(
                                    #[trigger] self.document_at(did).session_ids_view()[k],
                                )
                                &&& self.session_at(
                                    self.document_at(did).session_ids_view()[k],
                                ).document_id_spec() == did
                            }
                        &&& forall|k1: int, k2: int|
                            0 <= k1 < k2 < self.document_at(did).session_ids_view().len()
                                ==> (#[trigger] self.document_at(did).session_ids_view()[k1])
                                != (#[trigger] self.document_at(did).session_ids_view()[k2])
                    } by {
                        if did == id {
                            assert(self.document_at(did).session_ids_view().len() == 0);
                        } else if did.index == id.index {
                            assert(did == id);
                        } else {
                            assert(pre.document_valid(did));
                            assert(self.document_at(did) == pre.document_at(did));
                            assert forall|k: int|
                                0 <= k < self.document_at(did).session_ids_view().len() implies {
                                &&& self.session_valid(
                                    #[trigger] self.document_at(did).session_ids_view()[k],
                                )
                                &&& self.session_at(
                                    self.document_at(did).session_ids_view()[k],
                                ).document_id_spec() == did
                            } by {
                                assert(pre.session_valid(
                                    pre.document_at(did).session_ids_view()[k],
                                ));
                            }
                        }
                    }
                    assert forall|k: int| 0 <= k < self.paths_view().len() implies self
                        .document_valid((#[trigger] self.paths_view()[k]).1) by {
                        if k < pre_pairs.len() {
                            assert(pre.paths_view() == pre_pairs);
                            assert(pre.document_valid(pre.paths_view()[k].1));
                            assert(pre_pairs[k].1.index != id.index);
                        }
                    }
                }
                Some(id)
            },
        }
    }

    /// Creates a session bound to a document; the new session has a single
    /// cursor at the origin. Creating a session never mutates the document
    /// beyond recording the new session id. Returns `None` exactly when the
    /// id space is spent.
    pub fn create_session(&mut self, document_id: Id) -> (r: Option<Id>)
        requires
            old(self).wf(),
            old(self).document_valid(document_id),
        ensures
            final(self).wf(),
            r is None <==> old(self).session_id_space_spent(),
            r is Some ==> {
                &&& final(self).session_valid(r->Some_0)
                &&& final(self).session_at(r->Some_0).document_id_spec() == document_id
                &&& final(self).session_at(r->Some_0).cursors_view() == seq![
                    CursorView {
                        head: crate::size::size_zero(),
                        anchor: crate::size::size_zero(),
                    },
                ]
                &&& final(self).document_valid(document_id)
                &&& final(self).document_at(document_id).text_view() == old(self).document_at(
                    document_id,
                ).text_view()
                &&& final(self).document_at(document_id).revision_spec() == old(self).document_at(
                    document_id,
                ).revision_spec()
                &&& final(self).document_at(document_id).server_view() == old(self).document_at(
                    document_id,
                ).server_view()
                &&& final(self).document_at(document_id).undo_view() == old(self).document_at(
                    document_id,
                ).undo_view()
                &&& final(self).document_at(document_id).redo_view() == old(self).document_at(
                    document_id,
                ).redo_view()
                &&& final(self).document_at(document_id).outstanding_view() == old(
                    self,
                ).document_at(document_id).outstanding_view()
                &&& final(self).document_at(document_id).session_ids_view() == old(
                    self,
                ).document_at(document_id).session_ids_view().push(r->Some_0)
                &&& forall|did: Id|
                    did != document_id && old(self).document_valid(did)
                        ==> #[trigger] final(self).document_at(did) == old(self).document_at(did)
            },
            forall|sid: Id|
                old(self).session_valid(sid) ==> #[trigger] final(self).session_valid(sid)
                    && final(self).session_at(sid) == old(self).session_at(sid),
            r is None ==> *final(self) == *old(self),
    {
        let id_opt = self.session_id_allocator.allocate();
        match id_opt {
            None => None,
            Some(id) => {
                proof {
                    assert(!old(self).session_valid(id));
                }
                let cursors = CursorSet::new();
                let selections = cursors.selections();
                let carets = cursors.carets();
                let session = Session { cursors, selections, carets, document_id };
                let ghost doc_text = self.documents.spec_get(document_id).text_view();
                proof {
                    assert(session.wf(doc_text)) by {
                        assert(cursors_fit(doc_text, session.cursors_view()));
                    }
                }
                self.sessions.insert(id, session);
                let mut document = self.documents.take(document_id);
                let ghost pre_sids = document.session_ids@;
                document.session_ids.push(id);
                proof {
                    assert(forall|k: int|
                        0 <= k < pre_sids.len() ==> #[trigger] document.session_ids@[k]
                            == pre_sids[k]);
                }
                self.documents.put(document_id, document);
                proof {
                    lemma_state_wf_after_session_change(*self, *old(self), id, document_id);
                }
                Some(id)
            },
        }
    }
}

impl State {
    /// The document a path names, if any. Where several documents were
    /// created under one path, the newest wins.
    pub fn document_id_by_path(&self, path: &String) -> (r: Option<Id>)
        requires
            self.wf(),
        ensures
            r == path_lookup(self.paths_view(), path@),
            r is Some ==> self.document_valid(r->Some_0),
    {
        let mut i: usize = self.document_ids_by_path.len();
        proof {
            assert(self.paths_view().take(self.paths_view().len() as int) =~= self.paths_view());
        }
        while i > 0
            invariant
                self.wf(),
                i <= self.paths_view().len(),
                self.paths_view() == self.document_ids_by_path@,
                path_lookup(self.paths_view(), path@) == path_lookup(
                    self.paths_view().take(i as int),
                    path@,
                ),
            decreases i,
        {
            proof {
                assert(self.paths_view().take(i as int).last() == self.paths_view()[i - 1]);
                assert(self.paths_view().take(i as int).drop_last() =~= self.paths_view().take(
                    i as int - 1,
                ));
            }
            let pair = &self.document_ids_by_path[i - 1];
            if pair.0 == *path {
                proof {
                    assert((self.paths_view()[i - 1]).0@ == path@);
                    assert(self.document_valid(self.paths_view()[i - 1].1));
                }
                return Some(pair.1);
            }
            i = i - 1;
        }
        proof {
            assert(self.paths_view().take(0) =~= Seq::<(String, Id)>::empty());
        }
        None
    }

    /// Introduces a new zero-width cursor in a session; existing cursors are
    /// preserved.
    pub fn add_cursor(&mut self, session_id: Id, position: Position)
        requires
            old(self).wf(),
            old(self).session_valid(session_id),
            size_fits(
                position@,
                old(self).document_at(
                    old(self).session_at(session_id).document_id_spec(),
                ).text_view(),
            ),
        ensures
            final(self).wf(),
            final(self).session_valid(session_id),
            final(self).session_at(session_id).cursors_view() == insert_cursor(
                old(self).session_at(session_id).cursors_view(),
                CursorView { head: position@, anchor: position@ },
            ),
            forall|sid: Id|
                sid != session_id && old(self).session_valid(sid)
                    ==> #[trigger] final(self).session_valid(sid) && final(self).session_at(sid)
                    == old(self).session_at(sid),
            forall|did: Id|
                old(self).document_valid(did) ==> #[trigger] final(self).document_valid(did)
                    && final(self).document_at(did) == old(self).document_at(did),
    {
        let ghost pre = *old(self);
        let mut session = self.sessions.take(session_id);
        let ghost did = session.document_id;
        session.cursors.add(position);
        session.update_selections_and_carets();
        proof {
            let t = pre.document_at(did).text_view();
            assert(cursors_fit(t, session.cursors@)) by {
                assert forall|i: int| 0 <= i < session.cursors@.len() implies size_fits(
                    (#[trigger] session.cursors@[i]).head,
                    t,
                ) && size_fits(session.cursors@[i].anchor, t) by {
                    assert(session.cursors@.contains(session.cursors@[i]));
                    let c = session.cursors@[i];
                    if c == (CursorView { head: position@, anchor: position@ }) {
                    } else {
                        assert(pre.session_at(session_id).cursors_view().contains(c));
                        let j = choose|j: int|
                            0 <= j < pre.session_at(session_id).cursors_view().len() && pre
                                .session_at(session_id).cursors_view()[j] == c;
                        assert(size_fits(
                            pre.session_at(session_id).cursors_view()[j].head,
                            t,
                        ));
                    }
                }
            }
        }
        self.sessions.put(session_id, session);
        proof {
            lemma_state_wf_after_session_update(*self, pre, session_id);
        }
    }

    /// Moves every cursor of a session one unit in `direction`, clamped at
    /// the text's edges; without `select` the selections collapse.
    pub fn move_cursors(&mut self, session_id: Id, direction: Direction, select: bool)
        requires
            old(self).wf(),
            old(self).session_valid(session_id),
        ensures
            final(self).wf(),
            final(self).session_valid(session_id),
            final(self).session_at(session_id).cursors_view() == normalize_cursors(
                old(self).session_at(session_id).cursors_view().map_values(
                    |c: CursorView|
                        crate::cursor_set::cursor_moved(
                            old(self).document_at(
                                old(self).session_at(session_id).document_id_spec(),
                            ).text_view(),
                            c,
                            direction,
                            select,
                        ),
                ),
            ),
            forall|sid: Id|
                sid != session_id && old(self).session_valid(sid)
                    ==> #[trigger] final(self).session_valid(sid) && final(self).session_at(sid)
                    == old(self).session_at(sid),
            forall|did: Id|
                old(self).document_valid(did) ==> #[trigger] final(self).document_valid(did)
                    && final(self).document_at(did) == old(self).document_at(did),
    {
        let ghost pre = *old(self);
        let mut session = self.sessions.take(session_id);
        let document = self.documents.borrow(session.document_id);
        session.cursors.moved(document.text(), direction, select);
        session.update_selections_and_carets();
        self.sessions.put(session_id, session);
        proof {
            lemma_state_wf_after_session_update(*self, pre, session_id);
        }
    }

    /// Sets every cursor's head of a session to `position`: collapsing to a
    /// single cursor there, or extending the primary cursor's selection.
    pub fn move_cursors_to(&mut self, session_id: Id, position: Position, select: bool)
        requires
            old(self).wf(),
            old(self).session_valid(session_id),
            old(self).session_at(session_id).cursors_view().len() > 0,
            size_fits(
                position@,
                old(self).document_at(
                    old(self).session_at(session_id).document_id_spec(),
                ).text_view(),
            ),
        ensures
            final(self).wf(),
            final(self).session_valid(session_id),
            !select ==> final(self).session_at(session_id).cursors_view() == seq![
                CursorView { head: position@, anchor: position@ },
            ],
            select ==> final(self).session_at(session_id).cursors_view() == normalize_cursors(
                old(self).session_at(session_id).cursors_view().drop_last().push(
                    CursorView {
                        head: position@,
                        anchor: old(self).session_at(session_id).cursors_view().last().anchor,
                    },
                ),
            ),
            forall|sid: Id|
                sid != session_id && old(self).session_valid(sid)
                    ==> #[trigger] final(self).session_valid(sid) && final(self).session_at(sid)
                    == old(self).session_at(sid),
            forall|did: Id|
                old(self).document_valid(did) ==> #[trigger] final(self).document_valid(did)
                    && final(self).document_at(did) == old(self).document_at(did),
    {
        let ghost pre = *old(self);
        let mut session = self.sessions.take(session_id);
        let ghost did = session.document_id;
        session.cursors.move_to(position, select);
        session.update_selections_and_carets();
        proof {
            let t = pre.document_at(did).text_view();
            let pre_cursors = pre.session_at(session_id).cursors_view();
            assert(cursors_fit(t, session.cursors@)) by {
                if !select {
                } else {
                    let mapped = pre_cursors.drop_last().push(
                        CursorView { head: position@, anchor: pre_cursors.last().anchor },
                    );
                    assert(cursors_fit(t, mapped)) by {
                        assert forall|i: int| 0 <= i < mapped.len() implies size_fits(
                            (#[trigger] mapped[i]).head,
                            t,
                        ) && size_fits(mapped[i].anchor, t) by {
                            if i < mapped.len() - 1 {
                                assert(mapped[i] == pre_cursors[i]);
                                assert(size_fits(pre_cursors[i].head, t));
                            } else {
                                assert(size_fits(
                                    pre_cursors[pre_cursors.len() - 1].anchor,
                                    t,
                                ));
                            }
                        }
                    }
                    crate::cursor_set::lemma_normalize_fits(t, mapped);
                }
            }
        }
        self.sessions.put(session_id, session);
        proof {
            lemma_state_wf_after_session_update(*self, pre, session_id);
        }
    }
}

impl State {
    /// Remaps the cursors of every session attached to `document_id`, except
    /// the acting one, through a foreign delta, and rebuilds their caches.
    fn remap_other_sessions(
        &mut self,
        document_id: Id,
        acting: Option<Id>,
        delta: &Delta,
        Ghost(t_old): Ghost<Seq<Seq<char>>>,
    )
        requires
            old(self).arenas_within_allocators(),
            old(self).document_valid(document_id),
            ops_wf(t_old, delta@),
            crate::text::text_fits_usize(apply_ops(t_old, delta@)),
            forall|k: int|
                0 <= k < old(self).document_at(document_id).session_ids_view().len() ==> {
                    &&& old(self).session_valid(
                        #[trigger] old(self).document_at(document_id).session_ids_view()[k],
                    )
                    &&& old(self).session_at(
                        old(self).document_at(document_id).session_ids_view()[k],
                    ).document_id_spec() == document_id
                },
            forall|k: int|
                0 <= k < old(self).document_at(document_id).session_ids_view().len() && (
                acting is Some ==> old(self).document_at(document_id).session_ids_view()[k]
                    != acting->Some_0) ==> cursors_fit(
                    t_old,
                    old(self).session_at(
                        #[trigger] old(self).document_at(document_id).session_ids_view()[k],
                    ).cursors_view(),
                ),
            forall|k1: int, k2: int|
                0 <= k1 < k2 < old(self).document_at(document_id).session_ids_view().len()
                    ==> (#[trigger] old(self).document_at(document_id).session_ids_view()[k1])
                    != (#[trigger] old(self).document_at(document_id).session_ids_view()[k2]),
            forall|s: Id|
                #[trigger] old(self).session_valid(s) && old(self).session_at(
                    s,
                ).document_id_spec() == document_id ==> exists|k: int|
                    0 <= k < old(self).document_at(document_id).session_ids_view().len() && old(
                        self,
                    ).document_at(document_id).session_ids_view()[k] == s,
        ensures
            final(self).arenas_within_allocators(),
            forall|s: Id| #[trigger] final(self).session_valid(s) <==> old(self).session_valid(s),
            forall|d: Id| #[trigger] final(self).document_valid(d) <==> old(self).document_valid(
                d,
            ),
            forall|d: Id|
                old(self).document_valid(d) ==> #[trigger] final(self).document_at(d) == old(
                    self,
                ).document_at(d),
            final(self).paths_view() == old(self).paths_view(),
            forall|s: Id|
                old(self).session_valid(s) && (acting is Some && s == acting->Some_0
                    || old(self).session_at(s).document_id_spec() != document_id)
                    ==> #[trigger] final(self).session_at(s) == old(self).session_at(s),
            forall|s: Id|
                old(self).session_valid(s) && (acting is Some ==> s != acting->Some_0) && old(
                    self,
                ).session_at(s).document_id_spec() == document_id ==> {
                    &&& (#[trigger] final(self).session_at(s)).document_id_spec() == document_id
                    &&& final(self).session_at(s).cursors_view() == normalize_cursors(
                        old(self).session_at(s).cursors_view().map_values(
                            |c: CursorView|
                                CursorView {
                                    head: pos_xform(c.head, delta@, Whose::Theirs),
                                    anchor: pos_xform(c.anchor, delta@, Whose::Theirs),
                                },
                        ),
                    )
                    &&& final(self).session_at(s).wf(apply_ops(t_old, delta@))
                },
    {
        let ghost pre = *old(self);
        let ghost list = pre.document_at(document_id).session_ids_view();
        let total = self.documents.borrow(document_id).session_ids.len();
        let mut i: usize = 0;
        while i < total
            invariant
                i <= total,
                total == list.len(),
                self.documents == pre.documents,
                self.document_ids_by_path == pre.document_ids_by_path,
                self.session_id_allocator == pre.session_id_allocator,
                self.document_id_allocator == pre.document_id_allocator,
                self.arenas_within_allocators(),
                pre.document_valid(document_id),
                list == pre.document_at(document_id).session_ids_view(),
                ops_wf(t_old, delta@),
                crate::text::text_fits_usize(apply_ops(t_old, delta@)),
                forall|k: int|
                    0 <= k < list.len() ==> {
                        &&& pre.session_valid(#[trigger] list[k])
                        &&& pre.session_at(list[k]).document_id_spec() == document_id
                    },
                forall|k: int|
                    0 <= k < list.len() && (acting is Some ==> list[k] != acting->Some_0)
                        ==> cursors_fit(
                        t_old,
                        pre.session_at(#[trigger] list[k]).cursors_view(),
                    ),
                forall|k1: int, k2: int|
                    0 <= k1 < k2 < list.len() ==> (#[trigger] list[k1]) != (#[trigger] list[k2]),
                forall|s: Id| #[trigger] self.session_valid(s) <==> pre.session_valid(s),
                forall|s: Id|
                    pre.session_valid(s) && (forall|k: int| 0 <= k < i ==> #[trigger] list[k]
                        != s) ==> #[trigger] self.session_at(s) == pre.session_at(s),
                forall|k: int|
                    0 <= k < i && (acting is Some && list[k] == acting->Some_0)
                        ==> #[trigger] self.session_at(list[k]) == pre.session_at(list[k]),
                forall|k: int|
                    0 <= k < i && (acting is Some ==> list[k] != acting->Some_0) ==> {
                        &&& (#[trigger] self.session_at(list[k])).document_id_spec()
                            == document_id
                        &&& self.session_at(list[k]).cursors_view() == normalize_cursors(
                            pre.session_at(list[k]).cursors_view().map_values(
                                |c: CursorView|
                                    CursorView {
                                        head: pos_xform(c.head, delta@, Whose::Theirs),
                                        anchor: pos_xform(c.anchor, delta@, Whose::Theirs),
                                    },
                            ),
                        )
                        &&& self.session_at(list[k]).wf(apply_ops(t_old, delta@))
                    },
            decreases total - i,
        {
            let sid = self.documents.borrow(document_id).session_ids[i];
            proof {
                assert(sid == list[i as int]);
            }
            let is_acting = match acting {
                Some(a) => sid == a,
                Option::None => false,
            };
            if !is_acting {
                let ghost mid = *self;
                proof {
                    assert(pre.session_valid(sid));
                    assert(self.session_valid(sid));
                    assert forall|k: int| 0 <= k < i implies list[k] != sid by {
                        assert(list[k] != list[i as int]);
                    }
                    assert(mid.session_at(sid) == pre.session_at(sid));
                }
                let mut session = self.sessions.take(sid);
                proof {
                    assert(session == pre.session_at(sid));
                }
                session.cursors.apply_delta(delta, Whose::Theirs, Ghost(t_old));
                session.update_selections_and_carets();
                self.sessions.put(sid, session);
                proof {
                    assert forall|s: Id| #[trigger] self.session_valid(s) <==> pre.session_valid(
                        s,
                    ) by {
                        if s == sid {
                            assert(self.session_valid(sid));
                        } else if s.index == sid.index {
                            assert(s.generation != sid.generation);
                            assert(!pre.session_valid(s));
                            assert(!self.session_valid(s));
                        } else {
                            assert(mid.session_valid(s) <==> pre.session_valid(s));
                        }
                    }
                    assert forall|s: Id|
                        s != sid && mid.session_valid(s) implies #[trigger] self.session_at(s)
                        == mid.session_at(s) by {
                        if s.index == sid.index {
                            assert(s.generation != sid.generation);
                            assert(!mid.session_valid(s));
                        }
                    }
                }
            }
            i = i + 1;
        }
        proof {
            assert forall|s: Id|
                pre.session_valid(s) && (acting is Some && s == acting->Some_0
                    || pre.session_at(s).document_id_spec() != document_id)
                    implies #[trigger] self.session_at(s) == pre.session_at(s) by {
                if pre.session_at(s).document_id_spec() != document_id {
                    assert(forall|k: int| 0 <= k < list.len() ==> #[trigger] list[k] != s);
                } else {
                    if exists|k: int| 0 <= k < list.len() && #[trigger] list[k] == s {
                        let k = choose|k: int| 0 <= k < list.len() && #[trigger] list[k] == s;
                        assert(self.session_at(list[k]) == pre.session_at(list[k]));
                    } else {
                        assert(forall|k: int| 0 <= k < list.len() ==> #[trigger] list[k] != s);
                    }
                }
            }
            assert forall|s: Id|
                pre.session_valid(s) && (acting is Some ==> s != acting->Some_0)
                    && pre.session_at(s).document_id_spec() == document_id implies {
                &&& (#[trigger] self.session_at(s)).document_id_spec() == document_id
                &&& self.session_at(s).cursors_view() == normalize_cursors(
                    pre.session_at(s).cursors_view().map_values(
                        |c: CursorView|
                            CursorView {
                                head: pos_xform(c.head, delta@, Whose::Theirs),
                                anchor: pos_xform(c.anchor, delta@, Whose::Theirs),
                            },
                    ),
                )
                &&& self.session_at(s).wf(apply_ops(t_old, delta@))
            } by {
                let k = choose|k: int| 0 <= k < list.len() && #[trigger] list[k] == s;
                assert(list[k] == s);
            }
        }
    }
}

/// The document the path table maps a path to: the most recently recorded
/// entry wins.
pub open spec fn path_lookup(pairs: Seq<(String, Id)>, path: Seq<char>) -> Option<Id>
    decreases pairs.len(),
{
    if pairs.len() == 0 {
        Option::None
    } else if pairs.last().0@ == path {
        Some(pairs.last().1)
    } else {
        path_lookup(pairs.drop_last(), path)
    }
}

/// The outstanding queue after a local commit of `d`: sent at once when the
/// queue was empty, waiting in the second slot behind the in-flight delta, or
/// composed into the waiting slot when both slots were taken.
pub open spec fn queue_after_commit(outs: Seq<Seq<OpView>>, d: Seq<OpView>) -> Seq<Seq<OpView>> {
    if outs.len() == 0 {
        seq![d]
    } else if outs.len() == 1 {
        outs.push(d)
    } else {
        seq![outs[0], crate::laws::compose_ops(outs[1], d)]
    }
}

/// What committing a local delta `d` from `session_id` does to everything but
/// the two history stacks and the acting session's cursors: the document's
/// text becomes the delta's application, the queue follows the transition
/// rules with a request emitted exactly when the queue was empty, the
/// revision, path, acknowledged text and attached-session list stay, every
/// other attached session is remapped as a foreign edit, and nothing else in
/// the state changes.
pub open spec fn local_commit_post(
    pre: State,
    now: State,
    session_id: Id,
    d: Seq<OpView>,
    r: Option<Request>,
) -> bool {
    let did = pre.session_at(session_id).document_id_spec();
    let pre_doc = pre.document_at(did);
    let doc = now.document_at(did);
    &&& now.session_valid(session_id)
    &&& now.session_at(session_id).document_id_spec() == did
    &&& now.document_valid(did)
    &&& doc.text_view() == apply_ops(pre_doc.text_view(), d)
    &&& doc.revision_spec() == pre_doc.revision_spec()
    &&& doc.path_view() == pre_doc.path_view()
    &&& doc.server_view() == pre_doc.server_view()
    &&& doc.session_ids_view() == pre_doc.session_ids_view()
    &&& doc.outstanding_view() == queue_after_commit(pre_doc.outstanding_view(), d)
    &&& (r is Some <==> pre_doc.outstanding_view().len() == 0)
    &&& (r is Some ==> r->Some_0@ == crate::protocol::RequestView {
        path: pre_doc.path_view(),
        revision: pre_doc.revision_spec(),
        delta: d,
    })
    &&& forall|other: Id|
        other != did && pre.document_valid(other) ==> #[trigger] now.document_at(other)
            == pre.document_at(other)
    &&& now.paths_view() == pre.paths_view()
    &&& forall|s: Id| #[trigger] now.session_valid(s) <==> pre.session_valid(s)
    &&& forall|s: Id|
        s != session_id && pre.session_valid(s) && pre.session_at(s).document_id_spec() != did
            ==> #[trigger] now.session_at(s) == pre.session_at(s)
    &&& forall|s: Id|
        s != session_id && pre.session_valid(s) && pre.session_at(s).document_id_spec() == did
            ==> {
            &&& (#[trigger] now.session_at(s)).document_id_spec() == did
            &&& now.session_at(s).cursors_view() == normalize_cursors(
                pre.session_at(s).cursors_view().map_values(
                    |c: CursorView|
                        CursorView {
                            head: pos_xform(c.head, d, Whose::Theirs),
                            anchor: pos_xform(c.anchor, d, Whose::Theirs),
                        },
                ),
            )
        }
}

impl State {
    /// Commits a delta built against the acting session's document text:
    /// pushes the delta's inverse (with the acting session's cursor snapshot)
    /// onto the undo stack, applies the delta to the text, remaps the acting
    /// session's cursors as its own edit and every other attached session's
    /// as a foreign one, and queues the delta for the peer. The redo stack is
    /// deliberately left as it is.
    fn commit_local_delta(&mut self, session_id: Id, delta: Delta) -> (r: Option<Request>)
        requires
            old(self).wf(),
            old(self).session_valid(session_id),
            ops_wf(
                old(self).document_at(
                    old(self).session_at(session_id).document_id_spec(),
                ).text_view(),
                delta@,
            ),
        ensures
            final(self).wf(),
            local_commit_post(*old(self), *final(self), session_id, delta@, r),
            ({
                let did = old(self).session_at(session_id).document_id_spec();
                let t_old = old(self).document_at(did).text_view();
                &&& final(self).document_at(did).undo_view() == old(self).document_at(
                    did,
                ).undo_view().push(
                    EditView {
                        cursors: old(self).session_at(session_id).cursors_view(),
                        delta: crate::laws::invert_ops(t_old, delta@),
                    },
                )
                &&& final(self).document_at(did).redo_view() == old(self).document_at(
                    did,
                ).redo_view()
                &&& final(self).session_at(session_id).cursors_view() == normalize_cursors(
                    old(self).session_at(session_id).cursors_view().map_values(
                        |c: CursorView|
                            CursorView {
                                head: pos_xform(c.head, delta@, Whose::Ours),
                                anchor: pos_xform(c.anchor, delta@, Whose::Ours),
                            },
                    ),
                )
            }),
    {
        let ghost pre = *old(self);
        let did = self.sessions.borrow(session_id).document_id();
        let snapshot = self.sessions.borrow(session_id).cursors.clone();
        let mut document = self.documents.take(did);
        let ghost t_old = document.text@;
        let ghost pre_doc = pre.document_at(did);
        let inverse = delta.invert(document.text());
        let ghost pre_undo = document.undo_stack.deep_view();
        document.undo_stack.push(Edit { cursors: snapshot, delta: inverse });
        proof {
            lemma_edits_deep_view(&document.undo_stack);
            assert(document.undo_stack.deep_view() =~= pre_undo.push(
                EditView {
                    cursors: pre.session_at(session_id).cursors_view(),
                    delta: crate::laws::invert_ops(t_old, delta@),
                },
            ));
        }
        document.text.apply_delta(&delta);
        let ghost t_new = document.text@;
        proof {
            document.text.lemma_fits_usize();
            assert(edits_chain_wf(t_new, document.undo_stack.deep_view())) by {
                assert(document.undo_stack.deep_view().last().delta == crate::laws::invert_ops(
                    t_old,
                    delta@,
                ));
                assert(document.undo_stack.deep_view().drop_last() =~= pre_undo);
            }
        }
        let request = document.schedule_apply_delta_request(delta.clone(), Ghost(t_old));
        proof {
            assert(document.wf());
        }
        self.documents.put(did, document);
        let ghost mid = *self;
        let mut session = self.sessions.take(session_id);
        proof {
            assert(session == pre.session_at(session_id));
        }
        session.cursors.apply_delta(&delta, Whose::Ours, Ghost(t_old));
        session.update_selections_and_carets();
        self.sessions.put(session_id, session);
        proof {
            assert forall|s: Id| #[trigger] self.session_valid(s) <==> pre.session_valid(s) by {
                if s == session_id {
                    assert(self.session_valid(session_id));
                } else if s.index == session_id.index {
                    assert(s.generation != session_id.generation);
                    assert(!pre.session_valid(s));
                    assert(!self.session_valid(s));
                } else {
                    assert(mid.session_valid(s) <==> pre.session_valid(s));
                }
            }
            assert forall|s: Id|
                s != session_id && pre.session_valid(s) implies #[trigger] self.session_at(s)
                == pre.session_at(s) by {
                if s.index == session_id.index {
                    assert(!pre.session_valid(s));
                }
            }
            assert forall|d: Id| #[trigger] self.document_valid(d) <==> pre.document_valid(
                d,
            ) by {
                if d != did && d.index == did.index {
                    assert(d.generation != did.generation);
                    assert(!pre.document_valid(d));
                    assert(!self.document_valid(d));
                }
            }
        }
        self.remap_other_sessions(did, Some(session_id), &delta, Ghost(t_old));
        proof {
            lemma_state_wf_after_edit(*self, pre, did);
            assert(local_commit_post(pre, *self, session_id, delta@, request)) by {
                assert(self.document_at(did).outstanding_view() == queue_after_commit(
                    pre_doc.outstanding_view(),
                    delta@,
                ));
                if request is Some {
                    assert(request->Some_0@ == crate::protocol::RequestView {
                        path: pre_doc.path_view(),
                        revision: pre_doc.revision_spec(),
                        delta: delta@,
                    });
                }
                assert forall|other: Id|
                    other != did && pre.document_valid(other) implies #[trigger] self.document_at(
                    other,
                ) == pre.document_at(other) by {
                    if other.index == did.index {
                        assert(!pre.document_valid(other));
                    }
                }
            }
        }
        request
    }
}

impl State {
    /// Undoes the most recent edit of the acting session's document: pops the
    /// undo stack, pushes its inverse (with the acting session's current
    /// cursors) onto the redo stack, applies the popped delta, restores the
    /// stored cursor snapshot (clamped into the restored text), remaps every
    /// other attached session as a foreign edit, and queues the delta for the
    /// peer. With an empty undo stack nothing changes.
    pub fn undo(&mut self, session_id: Id) -> (r: Option<Request>)
        requires
            old(self).wf(),
            old(self).session_valid(session_id),
        ensures
            final(self).wf(),
            ({
                let did = old(self).session_at(session_id).document_id_spec();
                let t_old = old(self).document_at(did).text_view();
                let undo = old(self).document_at(did).undo_view();
                &&& (undo.len() == 0 ==> *final(self) == *old(self) && r is None)
                &&& (undo.len() > 0 ==> {
                    let e = undo.last();
                    &&& local_commit_post(*old(self), *final(self), session_id, e.delta, r)
                    &&& final(self).document_at(did).undo_view() == undo.drop_last()
                    &&& final(self).document_at(did).redo_view() == old(self).document_at(
                        did,
                    ).redo_view().push(
                        EditView {
                            cursors: old(self).session_at(session_id).cursors_view(),
                            delta: crate::laws::invert_ops(t_old, e.delta),
                        },
                    )
                    &&& final(self).session_at(session_id).cursors_view() == normalize_cursors(
                        e.cursors.map_values(
                            |c: CursorView|
                                CursorView {
                                    head: crate::cursor_set::clamp_pos(
                                        apply_ops(t_old, e.delta),
                                        c.head,
                                    ),
                                    anchor: crate::cursor_set::clamp_pos(
                                        apply_ops(t_old, e.delta),
                                        c.anchor,
                                    ),
                                },
                        ),
                    )
                })
            }),
    {
        let ghost pre = *old(self);
        let did = self.sessions.borrow(session_id).document_id();
        if self.documents.borrow(did).undo_stack.len() == 0 {
            proof {
                lemma_edits_deep_view(&pre.document_at(did).undo_stack);
                assert(pre.document_at(did).undo_view().len() == 0);
            }
            return None;
        }
        let snapshot = self.sessions.borrow(session_id).cursors.clone();
        let mut document = self.documents.take(did);
        let ghost t_old = document.text@;
        let ghost pre_undo = document.undo_stack.deep_view();
        proof {
            lemma_edits_deep_view(&document.undo_stack);
        }
        let popped = document.undo_stack.pop();
        let edit = match popped {
            Some(e) => e,
            Option::None => vstd::pervasive::unreached(),
        };
        let Edit { cursors: restored, delta: edit_delta } = edit;
        proof {
            lemma_edits_deep_view(&document.undo_stack);
            assert(document.undo_stack.deep_view() =~= pre_undo.drop_last());
            assert(ops_wf(t_old, edit_delta@));
        }
        let inverse = edit_delta.invert(document.text());
        document.redo_stack.push(Edit { cursors: snapshot, delta: inverse });
        proof {
            lemma_edits_deep_view(&document.redo_stack);
            assert(document.redo_stack.deep_view() =~= pre.document_at(did).redo_view().push(
                EditView {
                    cursors: pre.session_at(session_id).cursors_view(),
                    delta: crate::laws::invert_ops(t_old, edit_delta@),
                },
            ));
        }
        document.text.apply_delta(&edit_delta);
        proof {
            document.text.lemma_fits_usize();
        }
        let request = document.schedule_apply_delta_request(edit_delta.clone(), Ghost(t_old));
        proof {
            assert(document.wf());
        }
        self.documents.put(did, document);
        let ghost mid = *self;
        let mut session = self.sessions.take(session_id);
        session.cursors = restored;
        session.cursors.clamped_to(self.documents.borrow(did).text());
        session.update_selections_and_carets();
        self.sessions.put(session_id, session);
        proof {
            assert forall|s: Id| #[trigger] self.session_valid(s) <==> pre.session_valid(s) by {
                if s == session_id {
                    assert(self.session_valid(session_id));
                } else if s.index == session_id.index {
                    assert(s.generation != session_id.generation);
                    assert(!pre.session_valid(s));
                    assert(!self.session_valid(s));
                } else {
                    assert(mid.session_valid(s) <==> pre.session_valid(s));
                }
            }
            assert forall|s: Id|
                s != session_id && pre.session_valid(s) implies #[trigger] self.session_at(s)
                == pre.session_at(s) by {
                if s.index == session_id.index {
                    assert(!pre.session_valid(s));
                }
            }
            assert forall|d: Id| #[trigger] self.document_valid(d) <==> pre.document_valid(
                d,
            ) by {
                if d != did && d.index == did.index {
                    assert(d.generation != did.generation);
                    assert(!pre.document_valid(d));
                    assert(!self.document_valid(d));
                }
            }
        }
        self.remap_other_sessions(did, Some(session_id), &edit_delta, Ghost(t_old));
        proof {
            lemma_state_wf_after_edit(*self, pre, did);
            assert(local_commit_post(pre, *self, session_id, edit_delta@, request)) by {
                assert(self.document_at(did).outstanding_view() == queue_after_commit(
                    pre.document_at(did).outstanding_view(),
                    edit_delta@,
                ));
                if request is Some {
                    assert(request->Some_0@ == crate::protocol::RequestView {
                        path: pre.document_at(did).path_view(),
                        revision: pre.document_at(did).revision_spec(),
                        delta: edit_delta@,
                    });
                }
                assert forall|other: Id|
                    other != did && pre.document_valid(other) implies #[trigger] self.document_at(
                    other,
                ) == pre.document_at(other) by {
                    if other.index == did.index {
                        assert(!pre.document_valid(other));
                    }
                }
            }
        }
        request
    }

    /// Redoes the most recently undone edit: symmetric to `undo`, swapping
    /// the stacks. A stale top entry — possible only because a fresh local
    /// edit after an undo deliberately leaves the redo stack in place — no
    /// longer applies to the text; it is left untouched and nothing changes.
    pub fn redo(&mut self, session_id: Id) -> (r: Option<Request>)
        requires
            old(self).wf(),
            old(self).session_valid(session_id),
        ensures
            final(self).wf(),
            ({
                let did = old(self).session_at(session_id).document_id_spec();
                let t_old = old(self).document_at(did).text_view();
                let redo = old(self).document_at(did).redo_view();
                &&& ((redo.len() == 0 || !ops_wf(t_old, redo.last().delta)) ==> *final(self)
                    == *old(self) && r is None)
                &&& ((redo.len() > 0 && ops_wf(t_old, redo.last().delta)) ==> {
                    let e = redo.last();
                    &&& local_commit_post(*old(self), *final(self), session_id, e.delta, r)
                    &&& final(self).document_at(did).redo_view() == redo.drop_last()
                    &&& final(self).document_at(did).undo_view() == old(self).document_at(
                        did,
                    ).undo_view().push(
                        EditView {
                            cursors: old(self).session_at(session_id).cursors_view(),
                            delta: crate::laws::invert_ops(t_old, e.delta),
                        },
                    )
                    &&& final(self).session_at(session_id).cursors_view() == normalize_cursors(
                        e.cursors.map_values(
                            |c: CursorView|
                                CursorView {
                                    head: crate::cursor_set::clamp_pos(
                                        apply_ops(t_old, e.delta),
                                        c.head,
                                    ),
                                    anchor: crate::cursor_set::clamp_pos(
                                        apply_ops(t_old, e.delta),
                                        c.anchor,
                                    ),
                                },
                        ),
                    )
                })
            }),
    {
        let ghost pre = *old(self);
        let did = self.sessions.borrow(session_id).document_id();
        let applicable = {
            let document = self.documents.borrow(did);
            proof {
                lemma_edits_deep_view(&document.redo_stack);
            }
            let len = document.redo_stack.len();
            if len == 0 {
                false
            } else {
                document.redo_stack[len - 1].delta.applies_to(&document.text)
            }
        };
        if !applicable {
            return None;
        }
        let snapshot = self.sessions.borrow(session_id).cursors.clone();
        let mut document = self.documents.take(did);
        let ghost t_old = document.text@;
        let ghost pre_redo = document.redo_stack.deep_view();
        let ghost pre_undo = document.undo_stack.deep_view();
        proof {
            lemma_edits_deep_view(&document.redo_stack);
        }
        let popped = document.redo_stack.pop();
        let edit = match popped {
            Some(e) => e,
            Option::None => vstd::pervasive::unreached(),
        };
        let Edit { cursors: restored, delta: edit_delta } = edit;
        proof {
            lemma_edits_deep_view(&document.redo_stack);
            assert(document.redo_stack.deep_view() =~= pre_redo.drop_last());
            assert(ops_wf(t_old, edit_delta@));
        }
        let inverse = edit_delta.invert(document.text());
        document.undo_stack.push(Edit { cursors: snapshot, delta: inverse });
        proof {
            lemma_edits_deep_view(&document.undo_stack);
            assert(document.undo_stack.deep_view() =~= pre_undo.push(
                EditView {
                    cursors: pre.session_at(session_id).cursors_view(),
                    delta: crate::laws::invert_ops(t_old, edit_delta@),
                },
            ));
        }
        document.text.apply_delta(&edit_delta);
        proof {
            document.text.lemma_fits_usize();
            assert(edits_chain_wf(document.text@, document.undo_stack.deep_view())) by {
                assert(document.undo_stack.deep_view().last().delta == crate::laws::invert_ops(
                    t_old,
                    edit_delta@,
                ));
                assert(document.undo_stack.deep_view().drop_last() =~= pre_undo);
            }
        }
        let request = document.schedule_apply_delta_request(edit_delta.clone(), Ghost(t_old));
        proof {
            assert(document.wf());
        }
        self.documents.put(did, document);
        let ghost mid = *self;
        let mut session = self.sessions.take(session_id);
        session.cursors = restored;
        session.cursors.clamped_to(self.documents.borrow(did).text());
        session.update_selections_and_carets();
        self.sessions.put(session_id, session);
        proof {
            assert forall|s: Id| #[trigger] self.session_valid(s) <==> pre.session_valid(s) by {
                if s == session_id {
                    assert(self.session_valid(session_id));
                } else if s.index == session_id.index {
                    assert(s.generation != session_id.generation);
                    assert(!pre.session_valid(s));
                    assert(!self.session_valid(s));
                } else {
                    assert(mid.session_valid(s) <==> pre.session_valid(s));
                }
            }
            assert forall|s: Id|
                s != session_id && pre.session_valid(s) implies #[trigger] self.session_at(s)
                == pre.session_at(s) by {
                if s.index == session_id.index {
                    assert(!pre.session_valid(s));
                }
            }
            assert forall|d: Id| #[trigger] self.document_valid(d) <==> pre.document_valid(
                d,
            ) by {
                if d != did && d.index == did.index {
                    assert(d.generation != did.generation);
                    assert(!pre.document_valid(d));
                    assert(!self.document_valid(d));
                }
            }
        }
        self.remap_other_sessions(did, Some(session_id), &edit_delta, Ghost(t_old));
        proof {
            lemma_state_wf_after_edit(*self, pre, did);
            assert(local_commit_post(pre, *self, session_id, edit_delta@, request)) by {
                assert(self.document_at(did).outstanding_view() == queue_after_commit(
                    pre.document_at(did).outstanding_view(),
                    edit_delta@,
                ));
                if request is Some {
                    assert(request->Some_0@ == crate::protocol::RequestView {
                        path: pre.document_at(did).path_view(),
                        revision: pre.document_at(did).revision_spec(),
                        delta: edit_delta@,
                    });
                }
                assert forall|other: Id|
                    other != did && pre.document_valid(other) implies #[trigger] self.document_at(
                    other,
                ) == pre.document_at(other) by {
                    if other.index == did.index {
                        assert(!pre.document_valid(other));
                    }
                }
            }
        }
        request
    }
}

impl State {
    /// Handles the peer's answer to the oldest in-flight request. On success
    /// the front of the queue is acknowledged: the revision advances, and if
    /// a coalesced delta is waiting it is sent at the new revision. A
    /// rejection is surfaced unchanged: this core does not retry, and the
    /// caller is expected to resynchronize from a fresh snapshot. A response
    /// that correlates to no pending request is a precondition violation.
    pub fn handle_response(&mut self, document_id: Id, response: Response) -> (r: Result<
        Option<Request>,
        RemoteRejection,
    >)
        requires
            old(self).wf(),
            old(self).document_valid(document_id),
            old(self).document_at(document_id).outstanding_view().len() >= 1,
            old(self).document_at(document_id).revision_spec() < usize::MAX,
        ensures
            final(self).wf(),
            r is Ok <==> response->ApplyDelta_0 is Ok,
            r is Err ==> r->Err_0 == response->ApplyDelta_0->Err_0,
            r is Err ==> *final(self) == *old(self),
            r is Ok ==> {
                let pre_doc = old(self).document_at(document_id);
                let doc = final(self).document_at(document_id);
                &&& final(self).document_valid(document_id)
                &&& doc.revision_spec() == pre_doc.revision_spec() + 1
                &&& doc.text_view() == pre_doc.text_view()
                &&& doc.outstanding_view() == pre_doc.outstanding_view().drop_first()
                &&& doc.undo_view() == pre_doc.undo_view()
                &&& doc.redo_view() == pre_doc.redo_view()
                &&& (pre_doc.outstanding_view().len() == 1 ==> r->Ok_0 is None)
                &&& (pre_doc.outstanding_view().len() == 2 ==> {
                    &&& r->Ok_0 is Some
                    &&& r->Ok_0->Some_0@.path == pre_doc.path_view()
                    &&& r->Ok_0->Some_0@.revision == pre_doc.revision_spec() + 1
                    &&& r->Ok_0->Some_0@.delta == pre_doc.outstanding_view()[1]
                })
                &&& forall|s: Id|
                    old(self).session_valid(s) ==> #[trigger] final(self).session_at(s) == old(
                        self,
                    ).session_at(s)
            },
    {
        let ghost pre = *old(self);
        match response {
            Response::ApplyDelta(result) => match result {
                Ok(()) => {
                    let mut document = self.documents.take(document_id);
                    let ghost pre_outs = document.outstanding_view();
                    let front = document.outstanding_deltas.remove(0);
                    proof {
                        assert(front@ == pre_outs[0]);
                        assert(document.outstanding_view() =~= pre_outs.drop_first());
                        use_type_invariant(&document.acknowledged_text);
                    }
                    document.acknowledged_text.apply_delta(&front);
                    document.revision = document.revision + 1;
                    let next = if document.outstanding_deltas.len() > 0 {
                        Some(
                            Request::ApplyDelta(
                                document.path.clone(),
                                document.revision,
                                document.outstanding_deltas[0].clone(),
                            ),
                        )
                    } else {
                        None
                    };
                    proof {
                        assert(document.wf());
                    }
                    self.documents.put(document_id, document);
                    proof {
                        assert forall|d: Id| #[trigger] self.document_valid(d)
                            <==> pre.document_valid(d) by {
                            if d != document_id && d.index == document_id.index {
                                assert(d.generation != document_id.generation);
                                assert(!pre.document_valid(d));
                                assert(!self.document_valid(d));
                            }
                        }
                        lemma_state_wf_after_edit(*self, pre, document_id);
                    }
                    Ok(next)
                },
                Err(rejection) => Err(rejection),
            },
        }
    }

    /// Handles a foreign delta the peer accepted from another client. The
    /// delta, built against the peer's acknowledged text, is transformed
    /// against every still-outstanding local delta, oldest first, and each of
    /// those is replaced by its own transform so a later acknowledgment still
    /// lines up. The result is applied to the text, the revision advances,
    /// both history stacks are threaded through it, and every attached
    /// session's cursors are remapped as a foreign edit.
    pub fn handle_notification(&mut self, document_id: Id, delta: Delta)
        requires
            old(self).wf(),
            old(self).document_valid(document_id),
            ops_wf(old(self).document_at(document_id).server_view(), delta@),
            old(self).document_at(document_id).revision_spec() < usize::MAX,
        ensures
            final(self).wf(),
            ({
                let pre_doc = old(self).document_at(document_id);
                let outs = pre_doc.outstanding_view();
                let d_final = if outs.len() == 0 {
                    delta@
                } else if outs.len() == 1 {
                    crate::laws::transform_ops(delta@, outs[0]).0
                } else {
                    crate::laws::transform_ops(
                        crate::laws::transform_ops(delta@, outs[0]).0,
                        outs[1],
                    ).0
                };
                let doc = final(self).document_at(document_id);
                &&& final(self).document_valid(document_id)
                &&& doc.text_view() == apply_ops(pre_doc.text_view(), d_final)
                &&& doc.revision_spec() == pre_doc.revision_spec() + 1
                &&& doc.undo_view() == stack_xform(pre_doc.undo_view(), d_final).0
                &&& doc.redo_view() == stack_xform(pre_doc.redo_view(), d_final).0
                &&& (outs.len() == 0 ==> doc.outstanding_view() == Seq::<Seq<OpView>>::empty())
                &&& (outs.len() == 1 ==> doc.outstanding_view() == seq![
                    crate::laws::transform_ops(delta@, outs[0]).1,
                ])
                &&& (outs.len() == 2 ==> doc.outstanding_view() == seq![
                    crate::laws::transform_ops(delta@, outs[0]).1,
                    crate::laws::transform_ops(
                        crate::laws::transform_ops(delta@, outs[0]).0,
                        outs[1],
                    ).1,
                ])
                &&& forall|s: Id|
                    old(self).session_valid(s) && old(self).session_at(s).document_id_spec()
                        == document_id ==> (#[trigger] final(self).session_at(
                        s,
                    )).cursors_view() == normalize_cursors(
                        old(self).session_at(s).cursors_view().map_values(
                            |c: CursorView|
                                CursorView {
                                    head: pos_xform(c.head, d_final, Whose::Theirs),
                                    anchor: pos_xform(c.anchor, d_final, Whose::Theirs),
                                },
                        ),
                    )
            }),
    {
        let ghost pre = *old(self);
        let mut document = self.documents.take(document_id);
        let ghost server = document.acknowledged_text@;
        let ghost t_old = document.text@;
        let ghost pre_outs = document.outstanding_view();
        proof {
            use_type_invariant(&document.acknowledged_text);
        }
        document.acknowledged_text.apply_delta(&delta);
        let final_delta: Delta;
        if document.outstanding_deltas.len() == 0 {
            final_delta = delta;
            proof {
                assert(ops_wf(t_old, final_delta@));
            }
        } else if document.outstanding_deltas.len() == 1 {
            let o0 = document.outstanding_deltas.remove(0);
            proof {
                assert(o0@ == pre_outs[0]);
                crate::laws::lemma_transform_ops(server, delta@, o0@);
            }
            let (d1, o0p) = delta.transform(o0);
            document.outstanding_deltas.push(o0p);
            final_delta = d1;
            proof {
                assert(document.outstanding_view() =~= seq![
                    crate::laws::transform_ops(delta@, pre_outs[0]).1,
                ]);
                assert(ops_wf(t_old, final_delta@));
            }
        } else {
            let o0 = document.outstanding_deltas.remove(0);
            let o1 = document.outstanding_deltas.remove(0);
            proof {
                assert(o0@ == pre_outs[0]);
                assert(o1@ == pre_outs[1]);
                crate::laws::lemma_transform_ops(server, delta@, o0@);
            }
            let (d1, o0p) = delta.transform(o0);
            proof {
                crate::laws::lemma_transform_ops(apply_ops(server, pre_outs[0]), d1@, o1@);
            }
            let (d2, o1p) = d1.transform(o1);
            document.outstanding_deltas.push(o0p);
            document.outstanding_deltas.push(o1p);
            final_delta = d2;
            proof {
                assert(document.outstanding_view() =~= seq![
                    crate::laws::transform_ops(delta@, pre_outs[0]).1,
                    crate::laws::transform_ops(
                        crate::laws::transform_ops(delta@, pre_outs[0]).0,
                        pre_outs[1],
                    ).1,
                ]);
                assert(ops_wf(t_old, final_delta@));
            }
        }
        let ghost d_final = final_delta@;
        // Thread the incoming delta through both history stacks.
        let mut undo_stack: Vec<Edit> = Vec::new();
        core::mem::swap(&mut undo_stack, &mut document.undo_stack);
        let (new_undo, _threaded_undo) = transform_edit_stack(undo_stack, final_delta.clone());
        document.undo_stack = new_undo;
        let mut redo_stack: Vec<Edit> = Vec::new();
        core::mem::swap(&mut redo_stack, &mut document.redo_stack);
        let (new_redo, _threaded_redo) = transform_edit_stack(redo_stack, final_delta.clone());
        document.redo_stack = new_redo;
        proof {
            lemma_stack_xform_chain(t_old, pre.document_at(document_id).undo_view(), d_final);
        }
        document.text.apply_delta(&final_delta);
        document.revision = document.revision + 1;
        proof {
            document.text.lemma_fits_usize();
            lemma_apply_ops_wf(server, delta@);
            // The new server text, the replaced queue and the new local text
            // line up: each transform pair converges by the diamond property.
            assert(document.wf()) by {
                if pre_outs.len() == 0 {
                } else if pre_outs.len() == 1 {
                    crate::laws::lemma_transform_ops(server, delta@, pre_outs[0]);
                } else {
                    crate::laws::lemma_transform_ops(server, delta@, pre_outs[0]);
                    crate::laws::lemma_transform_ops(
                        apply_ops(server, pre_outs[0]),
                        crate::laws::transform_ops(delta@, pre_outs[0]).0,
                        pre_outs[1],
                    );
                }
            }
        }
        self.documents.put(document_id, document);
        proof {
            assert forall|d: Id| #[trigger] self.document_valid(d) <==> pre.document_valid(
                d,
            ) by {
                if d != document_id && d.index == document_id.index {
                    assert(d.generation != document_id.generation);
                    assert(!pre.document_valid(d));
                    assert(!self.document_valid(d));
                }
            }
        }
        proof {
            assert(self.sessions == pre.sessions);
            assert(self.document_at(document_id).session_ids_view() == pre.document_at(
                document_id,
            ).session_ids_view());
            let list = pre.document_at(document_id).session_ids_view();
            assert forall|k: int| 0 <= k < list.len() implies {
                &&& self.session_valid(#[trigger] list[k])
                &&& self.session_at(list[k]).document_id_spec() == document_id
            } by {
                assert(pre.document_valid(document_id));
                assert(pre.session_valid(list[k]));
            }
            assert forall|s: Id|
                #[trigger] self.session_valid(s) && self.session_at(s).document_id_spec()
                    == document_id implies exists|k: int|
                0 <= k < list.len() && list[k] == s by {
                assert(pre.session_valid(s));
            }
        }
        self.remap_other_sessions(document_id, Option::None, &final_delta, Ghost(t_old));
        proof {
            lemma_state_wf_after_edit(*self, pre, document_id);
        }
    }
}

// ---------------------------------------------------------------------------
// Building edit deltas from selections and carets.
// ---------------------------------------------------------------------------

/// The delta that removes the selected stretches: a retain for each excluded
/// span and a delete for each included one, empty measures dropped.
pub open spec fn delta_zero_of(spans: Seq<crate::range_set::SpanView>) -> Seq<OpView>
    decreases spans.len(),
{
    if spans.len() == 0 {
        Seq::empty()
    } else {
        let rest = delta_zero_of(spans.drop_first());
        let sp = spans[0];
        if sp.len == crate::size::size_zero() {
            rest
        } else if sp.is_included {
            seq![OpView::Delete(sp.len)] + rest
        } else {
            seq![OpView::Retain(sp.len)] + rest
        }
    }
}

/// A tracking position advanced by a displacement, or lost once the
/// arithmetic would pass the machine bound: a tracking position past every
/// span lies in no selection, so losing it reads as "not contained".
pub open spec fn track_add(track: Option<SizeView>, d: SizeView) -> Option<SizeView> {
    match track {
        Some(q) => {
            let s = crate::size::size_add(q, d);
            if s.line <= usize::MAX && s.column <= usize::MAX {
                Some(s)
            } else {
                Option::None
            }
        },
        Option::None => Option::None,
    }
}

/// The delta that puts `ins` at each caret: a retain up to each caret, then
/// the inserted text wherever the caret does not sit strictly inside a
/// selection. The tracking position used for that test is shifted past text
/// already inserted, as the edit will push later carets along.
pub open spec fn insert_ops_of(
    prev: SizeView,
    track: Option<SizeView>,
    carets: Seq<SizeView>,
    sels: Seq<crate::range_set::SpanView>,
    ins: Seq<Seq<char>>,
) -> Seq<OpView>
    decreases carets.len(),
{
    if carets.len() == 0 {
        Seq::empty()
    } else {
        let c = carets[0];
        let d = crate::size::size_sub(c, prev);
        let head = if d == crate::size::size_zero() {
            Seq::<OpView>::empty()
        } else {
            seq![OpView::Retain(d)]
        };
        let t1 = track_add(track, d);
        let contained = match t1 {
            Some(q) => crate::range_set::spans_contain(crate::size::size_zero(), sels, q),
            Option::None => false,
        };
        if contained {
            head + insert_ops_of(c, t1, carets.drop_first(), sels, ins)
        } else {
            let mid = if ins == crate::text::empty_text() {
                Seq::<OpView>::empty()
            } else {
                seq![OpView::Insert(ins)]
            };
            let t2 = track_add(t1, crate::text::text_len_of(ins));
            head + mid + insert_ops_of(c, t2, carets.drop_first(), sels, ins)
        }
    }
}

/// The delta that removes one unit before each caret: within a line, the
/// character before the caret; at a line start, the line break joining it to
/// the line above. A caret strictly inside a selection, or at the origin,
/// removes nothing.
pub open spec fn backspace_ops_of(
    prev: SizeView,
    carets: Seq<SizeView>,
    sels: Seq<crate::range_set::SpanView>,
    t: Seq<Seq<char>>,
) -> Seq<OpView>
    decreases carets.len(),
{
    if carets.len() == 0 {
        Seq::empty()
    } else {
        let c = carets[0];
        let d = crate::size::size_sub(c, prev);
        let rest = backspace_ops_of(c, carets.drop_first(), sels, t);
        if crate::range_set::spans_contain(crate::size::size_zero(), sels, c) {
            (if d == crate::size::size_zero() {
                Seq::<OpView>::empty()
            } else {
                seq![OpView::Retain(d)]
            }) + rest
        } else if c.column == 0 && c.line != 0 {
            let mid = SizeView { line: (c.line - 1) as nat, column: t[c.line - 1].len() };
            let keep = crate::size::size_sub(mid, prev);
            (if keep == crate::size::size_zero() {
                Seq::<OpView>::empty()
            } else {
                seq![OpView::Retain(keep)]
            }) + seq![OpView::Delete(SizeView { line: 1, column: 0 })] + rest
        } else if c.column > 0 {
            let mid = SizeView { line: c.line, column: (c.column - 1) as nat };
            let keep = crate::size::size_sub(mid, prev);
            (if keep == crate::size::size_zero() {
                Seq::<OpView>::empty()
            } else {
                seq![OpView::Retain(keep)]
            }) + seq![OpView::Delete(SizeView { line: 0, column: 1 })] + rest
        } else {
            rest
        }
    }
}

fn track_next(track: Option<Position>, d: Size) -> (r: Option<Position>)
    ensures
        (match r {
            Some(p) => Some(p@),
            Option::None => Option::<SizeView>::None,
        }) == track_add(
            match track {
                Some(p) => Some(p@),
                Option::None => Option::<SizeView>::None,
            },
            d@,
        ),
{
    match track {
        Option::None => None,
        Some(q) => {
            if d.line == 0 {
                if q.column <= usize::MAX - d.column {
                    Some(Position { line: q.line, column: q.column + d.column })
                } else {
                    None
                }
            } else {
                if q.line <= usize::MAX - d.line {
                    Some(Position { line: q.line + d.line, column: d.column })
                } else {
                    None
                }
            }
        },
    }
}

/// The delta that removes the selected stretches of the text the spans cover.
fn build_selection_delta(
    selections: &RangeSet,
    Ghost(t): Ghost<Seq<Seq<char>>>,
) -> (r: Delta)
    requires
        text_wf(t),
        crate::range_set::spans_wf(t, selections@),
    ensures
        r@ == crate::delta::strip_trailing_retains(delta_zero_of(selections@)),
        ops_wf(t, r@),
{
    let ghost sv = selections@;
    let spans = selections.spans();
    let mut builder = crate::delta::Builder::new();
    let ghost mut rem = t;
    let mut i: usize = 0;
    proof {
        crate::range_set::lemma_spans_deep_view(spans);
        assert(sv.skip(0) =~= sv);
        assert(builder@ + delta_zero_of(sv) =~= delta_zero_of(sv));
        assert(crate::delta::ops_remaining(t, builder@) == t);
        assert(ops_wf(t, builder@));
    }
    while i < spans.len()
        invariant
            i <= spans@.len(),
            sv == spans.deep_view(),
            sv.len() == spans@.len(),
            forall|j: int| 0 <= j < sv.len() ==> #[trigger] sv[j] == spans@[j]@,
            text_wf(t),
            ops_wf(t, builder@),
            crate::delta::ops_remaining(t, builder@) == rem,
            crate::range_set::spans_wf(rem, sv.skip(i as int)),
            builder@ + delta_zero_of(sv.skip(i as int)) == delta_zero_of(sv),
        decreases spans@.len() - i,
    {
        proof {
            assert(sv.skip(i as int)[0] == sv[i as int]);
            assert(sv.skip(i as int).drop_first() =~= sv.skip(i as int + 1));
        }
        let sp = spans[i];
        let ghost pre_b = builder@;
        if sp.is_included {
            builder.delete(sp.len);
        } else {
            builder.retain(sp.len);
        }
        proof {
            assert(crate::text::size_fits(sp@.len, rem));
            if sp@.len == crate::size::size_zero() {
                assert(crate::text::text_skip(rem, crate::size::size_zero()) =~~= rem);
                assert(builder@ == pre_b);
            } else {
                let op = if sp@.is_included {
                    OpView::Delete(sp@.len)
                } else {
                    OpView::Retain(sp@.len)
                };
                crate::delta::lemma_ops_wf_snoc(t, pre_b, op);
                assert(builder@ == pre_b.push(op));
                assert(builder@ + delta_zero_of(sv.skip(i as int + 1)) =~= pre_b + (seq![op]
                    + delta_zero_of(sv.skip(i as int + 1))));
                rem = crate::text::text_skip(rem, sp@.len);
            }
        }
        i = i + 1;
    }
    proof {
        assert(sv.skip(i as int) =~= Seq::<crate::range_set::SpanView>::empty());
        assert(builder@ + Seq::<OpView>::empty() =~= builder@);
        assert(builder@ == delta_zero_of(sv));
        crate::delta::lemma_strip_trailing_wf(t, builder@);
    }
    builder.build()
}

/// The delta that puts `ins` at each caret outside a selection.
fn build_insert_delta(
    carets: &PositionSet,
    selections: &RangeSet,
    ins: &Text,
    Ghost(t): Ghost<Seq<Seq<char>>>,
) -> (r: Delta)
    requires
        text_wf(t),
        ins.wf(),
        forall|k: int|
            0 <= k < carets@.len() ==> crate::text::size_fits(#[trigger] carets@[k], t),
    ensures
        r@ == crate::delta::strip_trailing_retains(
            insert_ops_of(
                crate::size::size_zero(),
                Some(crate::size::size_zero()),
                carets@,
                selections@,
                ins@,
            ),
        ),
        ops_wf(t, r@),
{
    let ghost cv = carets@;
    let ghost sv = selections@;
    let total = carets.len();
    let mut builder = crate::delta::Builder::new();
    let mut prev = Position::origin();
    let mut track: Option<Position> = Some(Position::origin());
    let mut i: usize = 0;
    proof {
        use_type_invariant(carets);
        assert(cv.skip(0) =~= cv);
        assert(builder@ + insert_ops_of(
            crate::size::size_zero(),
            Some(crate::size::size_zero()),
            cv,
            sv,
            ins@,
        ) =~= insert_ops_of(
            crate::size::size_zero(),
            Some(crate::size::size_zero()),
            cv,
            sv,
            ins@,
        ));
        assert(crate::delta::ops_remaining(t, builder@) == t);
        assert(crate::text::text_skip(t, crate::size::size_zero()) =~~= t);
    }
    while i < total
        invariant
            i <= cv.len(),
            total == cv.len(),
            cv == carets@,
            sv == selections@,
            ins.wf(),
            text_wf(t),
            crate::position_set::positions_sorted(cv),
            forall|k: int|
                0 <= k < cv.len() ==> crate::text::size_fits(#[trigger] cv[k], t),
            prev@ == if i == 0 {
                crate::size::size_zero()
            } else {
                cv[i - 1]
            },
            crate::text::size_fits(prev@, t),
            ops_wf(t, builder@),
            crate::delta::ops_remaining(t, builder@) == crate::text::text_skip(t, prev@),
            builder@ + insert_ops_of(
                prev@,
                match track {
                    Some(p) => Some(p@),
                    Option::None => Option::<SizeView>::None,
                },
                cv.skip(i as int),
                sv,
                ins@,
            ) == insert_ops_of(
                crate::size::size_zero(),
                Some(crate::size::size_zero()),
                cv,
                sv,
                ins@,
            ),
        decreases cv.len() - i,
    {
        proof {
            assert(cv.skip(i as int)[0] == cv[i as int]);
            assert(cv.skip(i as int).drop_first() =~= cv.skip(i as int + 1));
            if i > 0 {
                assert(crate::size::size_lt(cv[i - 1], cv[i as int]));
            }
        }
        let cur = carets.get(i);
        let d = cur.distance_from(prev);
        let ghost pre_b = builder@;
        builder.retain(d);
        proof {
            crate::text::lemma_text_split(t, prev@, cur@);
            if d@ == crate::size::size_zero() {
                assert(crate::text::text_skip(crate::text::text_skip(t, prev@), d@)
                    =~~= crate::text::text_skip(t, prev@));
                assert(crate::text::text_skip(t, cur@) == crate::text::text_skip(t, prev@));
            } else {
                crate::delta::lemma_ops_wf_snoc(t, pre_b, OpView::Retain(d@));
            }
            assert(crate::delta::ops_remaining(t, builder@) == crate::text::text_skip(t, cur@));
        }
        let ghost tv0: Option<SizeView> = match track {
            Some(p) => Some(p@),
            Option::None => Option::<SizeView>::None,
        };
        let ghost tv1 = track_add(tv0, d@);
        let track1 = track_next(track, d);
        proof {
            assert((match track1 {
                Some(p) => Some(p@),
                Option::None => Option::<SizeView>::None,
            }) == tv1);
        }
        let contained = match track1 {
            Some(q) => selections.contains_position(q),
            Option::None => false,
        };
        proof {
            assert(contained == (match tv1 {
                Some(q) => crate::range_set::spans_contain(crate::size::size_zero(), sv, q),
                Option::None => false,
            }));
        }
        let ghost head: Seq<OpView> = if d@ == crate::size::size_zero() {
            Seq::<OpView>::empty()
        } else {
            seq![OpView::Retain(d@)]
        };
        proof {
            assert(builder@ == pre_b + head);
        }
        if !contained {
            let ghost pre_ins = builder@;
            builder.insert(ins.clone());
            proof {
                if ins@ == crate::text::empty_text() {
                } else {
                    crate::delta::lemma_ops_wf_snoc(t, pre_ins, OpView::Insert(ins@));
                }
                let mid: Seq<OpView> = if ins@ == crate::text::empty_text() {
                    Seq::<OpView>::empty()
                } else {
                    seq![OpView::Insert(ins@)]
                };
                assert(builder@ =~= pre_b + (head + mid));
            }
            track = track_next(track1, ins.len());
            proof {
                let tv2 = track_add(tv1, crate::text::text_len_of(ins@));
                assert((match track {
                    Some(p) => Some(p@),
                    Option::None => Option::<SizeView>::None,
                }) == tv2);
                let mid: Seq<OpView> = if ins@ == crate::text::empty_text() {
                    Seq::<OpView>::empty()
                } else {
                    seq![OpView::Insert(ins@)]
                };
                let tail = insert_ops_of(cur@, tv2, cv.skip(i as int + 1), sv, ins@);
                assert(insert_ops_of(prev@, tv0, cv.skip(i as int), sv, ins@) == head + mid
                    + tail);
                assert(pre_b + (head + mid) + tail =~= pre_b + (head + mid + tail));
            }
        } else {
            track = track1;
            proof {
                let tail = insert_ops_of(cur@, tv1, cv.skip(i as int + 1), sv, ins@);
                assert(insert_ops_of(prev@, tv0, cv.skip(i as int), sv, ins@) == head + tail);
                assert(pre_b + head + tail =~= pre_b + (head + tail));
            }
        }
        prev = cur;
        i = i + 1;
    }
    proof {
        assert(cv.skip(i as int) =~= Seq::<SizeView>::empty());
        assert(builder@ + Seq::<OpView>::empty() =~= builder@);
        crate::delta::lemma_strip_trailing_wf(t, builder@);
    }
    builder.build()
}

/// The delta that removes one unit before each caret outside a selection.
#[verifier::rlimit(100)]
#[verifier::spinoff_prover]
fn build_backspace_delta(
    carets: &PositionSet,
    selections: &RangeSet,
    text: &Text,
) -> (r: Delta)
    requires
        text.wf(),
        forall|k: int|
            0 <= k < carets@.len() ==> crate::text::size_fits(#[trigger] carets@[k], text@),
    ensures
        r@ == crate::delta::strip_trailing_retains(
            backspace_ops_of(crate::size::size_zero(), carets@, selections@, text@),
        ),
        ops_wf(text@, r@),
{
    let ghost t = text@;
    let ghost cv = carets@;
    let ghost sv = selections@;
    let total = carets.len();
    let mut builder = crate::delta::Builder::new();
    let mut prev = Position::origin();
    let mut i: usize = 0;
    proof {
        use_type_invariant(carets);
        assert(cv.skip(0) =~= cv);
        assert(builder@ + backspace_ops_of(crate::size::size_zero(), cv, sv, t)
            =~= backspace_ops_of(crate::size::size_zero(), cv, sv, t));
        assert(crate::delta::ops_remaining(t, builder@) == t);
        assert(crate::text::text_skip(t, crate::size::size_zero()) =~~= t);
    }
    while i < total
        invariant
            i <= cv.len(),
            total == cv.len(),
            cv == carets@,
            sv == selections@,
            t == text@,
            text_wf(t),
            crate::position_set::positions_sorted(cv),
            forall|k: int|
                0 <= k < cv.len() ==> crate::text::size_fits(#[trigger] cv[k], t),
            prev@ == if i == 0 {
                crate::size::size_zero()
            } else {
                cv[i - 1]
            },
            crate::text::size_fits(prev@, t),
            ops_wf(t, builder@),
            crate::delta::ops_remaining(t, builder@) == crate::text::text_skip(t, prev@),
            builder@ + backspace_ops_of(prev@, cv.skip(i as int), sv, t) == backspace_ops_of(
                crate::size::size_zero(),
                cv,
                sv,
                t,
            ),
        decreases cv.len() - i,
    {
        proof {
            assert(cv.skip(i as int)[0] == cv[i as int]);
            assert(cv.skip(i as int).drop_first() =~= cv.skip(i as int + 1));
            if i > 0 {
                assert(crate::size::size_lt(cv[i - 1], cv[i as int]));
            }
        }
        let cur = carets.get(i);
        let ghost pre_b = builder@;
        let ghost tail = backspace_ops_of(cur@, cv.skip(i as int + 1), sv, t);
        let contained = selections.contains_position(cur);
        if contained {
            let d = cur.distance_from(prev);
            builder.retain(d);
            proof {
                crate::text::lemma_text_split(t, prev@, cur@);
                if d@ == crate::size::size_zero() {
                    assert(crate::text::text_skip(crate::text::text_skip(t, prev@), d@)
                        =~~= crate::text::text_skip(t, prev@));
                    assert(builder@ + tail =~= pre_b + (Seq::<OpView>::empty() + tail));
                } else {
                    crate::delta::lemma_ops_wf_snoc(t, pre_b, OpView::Retain(d@));
                    assert(builder@ + tail =~= pre_b + (seq![OpView::Retain(d@)] + tail));
                }
                assert(crate::delta::ops_remaining(t, builder@) == crate::text::text_skip(
                    t,
                    cur@,
                ));
            }
        } else if cur.column == 0 && cur.line != 0 {
            let mid = Position { line: cur.line - 1, column: text.line_len(cur.line - 1) };
            proof {
                assert(crate::text::size_fits(mid@, t));
                assert(crate::size::size_le(prev@, mid@));
            }
            let keep = mid.distance_from(prev);
            builder.retain(keep);
            proof {
                crate::text::lemma_text_split(t, prev@, mid@);
                if keep@ == crate::size::size_zero() {
                    assert(crate::text::text_skip(crate::text::text_skip(t, prev@), keep@)
                        =~~= crate::text::text_skip(t, prev@));
                    assert(crate::text::text_skip(t, mid@) == crate::text::text_skip(t, prev@));
                } else {
                    crate::delta::lemma_ops_wf_snoc(t, pre_b, OpView::Retain(keep@));
                }
                assert(crate::delta::ops_remaining(t, builder@) == crate::text::text_skip(
                    t,
                    mid@,
                ));
            }
            let ghost mid_b = builder@;
            builder.delete(Size { line: 1, column: 0 });
            proof {
                let brk = SizeView { line: 1, column: 0 };
                assert(crate::text::size_fits(brk, crate::text::text_skip(t, mid@))) by {
                    assert(crate::text::text_skip(t, mid@).len() == t.len() - mid@.line);
                    assert(crate::text::text_skip(t, mid@)[1] == t[cur@.line as int]);
                }
                crate::delta::lemma_ops_wf_snoc(t, mid_b, OpView::Delete(brk));
                assert(crate::size::size_add(mid@, brk) == cur@);
                crate::text::lemma_text_split(t, mid@, cur@);
                assert(crate::size::size_sub(cur@, mid@) == brk);
                assert(crate::delta::ops_remaining(t, builder@) == crate::text::text_skip(
                    t,
                    cur@,
                ));
                let keepv: Seq<OpView> = if keep@ == crate::size::size_zero() {
                    Seq::<OpView>::empty()
                } else {
                    seq![OpView::Retain(keep@)]
                };
                assert(builder@ =~= pre_b + (keepv + seq![OpView::Delete(brk)]));
                assert(backspace_ops_of(prev@, cv.skip(i as int), sv, t) == keepv + seq![
                    OpView::Delete(brk),
                ] + tail);
                assert(builder@ + tail =~= pre_b + (keepv + seq![OpView::Delete(brk)] + tail));
            }
        } else if cur.column > 0 {
            let mid = Position { line: cur.line, column: cur.column - 1 };
            proof {
                assert(crate::text::size_fits(mid@, t));
                assert(crate::size::size_le(prev@, mid@));
            }
            let keep = mid.distance_from(prev);
            builder.retain(keep);
            proof {
                crate::text::lemma_text_split(t, prev@, mid@);
                if keep@ == crate::size::size_zero() {
                    assert(crate::text::text_skip(crate::text::text_skip(t, prev@), keep@)
                        =~~= crate::text::text_skip(t, prev@));
                    assert(crate::text::text_skip(t, mid@) == crate::text::text_skip(t, prev@));
                } else {
                    crate::delta::lemma_ops_wf_snoc(t, pre_b, OpView::Retain(keep@));
                }
                assert(crate::delta::ops_remaining(t, builder@) == crate::text::text_skip(
                    t,
                    mid@,
                ));
            }
            let ghost mid_b = builder@;
            builder.delete(Size { line: 0, column: 1 });
            proof {
                let one = SizeView { line: 0, column: 1 };
                assert(crate::text::size_fits(one, crate::text::text_skip(t, mid@))) by {
                    assert(crate::text::text_skip(t, mid@)[0] == t[cur@.line as int].skip(
                        mid@.column as int,
                    ));
                }
                crate::delta::lemma_ops_wf_snoc(t, mid_b, OpView::Delete(one));
                assert(crate::size::size_add(mid@, one) == cur@);
                crate::text::lemma_text_split(t, mid@, cur@);
                assert(crate::size::size_sub(cur@, mid@) == one);
                assert(crate::delta::ops_remaining(t, builder@) == crate::text::text_skip(
                    t,
                    cur@,
                ));
                let keepv: Seq<OpView> = if keep@ == crate::size::size_zero() {
                    Seq::<OpView>::empty()
                } else {
                    seq![OpView::Retain(keep@)]
                };
                assert(builder@ =~= pre_b + (keepv + seq![OpView::Delete(one)]));
                assert(backspace_ops_of(prev@, cv.skip(i as int), sv, t) == keepv + seq![
                    OpView::Delete(one),
                ] + tail);
                assert(builder@ + tail =~= pre_b + (keepv + seq![OpView::Delete(one)] + tail));
            }
        } else {
            proof {
                assert(cur@ == crate::size::size_zero());
                assert(prev@ == crate::size::size_zero());
                assert(crate::text::text_skip(t, cur@) == crate::text::text_skip(t, prev@));
            }
        }
        prev = cur;
        i = i + 1;
    }
    proof {
        assert(cv.skip(i as int) =~= Seq::<SizeView>::empty());
        assert(builder@ + Seq::<OpView>::empty() =~= builder@);
        crate::delta::lemma_strip_trailing_wf(t, builder@);
    }
    builder.build()
}

impl State {
    /// Replaces each selection of the acting session with `text`, and inserts
    /// `text` at each caret outside a selection: the selections are deleted,
    /// the insertion delta is transformed over the deletion, the two are
    /// composed, and the result is committed as a local edit (undo recorded,
    /// all sessions remapped, the delta queued for the peer).
    pub fn insert_text(&mut self, session_id: Id, text: Text) -> (r: Option<Request>)
        requires
            old(self).wf(),
            old(self).session_valid(session_id),
            text.wf(),
        ensures
            final(self).wf(),
            final(self).session_valid(session_id),
            ({
                let did = old(self).session_at(session_id).document_id_spec();
                let t_old = old(self).document_at(did).text_view();
                let session = old(self).session_at(session_id);
                let d0 = crate::delta::strip_trailing_retains(
                    delta_zero_of(session.selections_view()),
                );
                let d1 = crate::delta::strip_trailing_retains(
                    insert_ops_of(
                        crate::size::size_zero(),
                        Some(crate::size::size_zero()),
                        session.carets_view(),
                        session.selections_view(),
                        text@,
                    ),
                );
                let d = crate::laws::compose_ops(d0, crate::laws::transform_ops(d0, d1).1);
                &&& local_commit_post(*old(self), *final(self), session_id, d, r)
                &&& final(self).document_at(did).undo_view() == old(self).document_at(
                    did,
                ).undo_view().push(
                    EditView {
                        cursors: session.cursors_view(),
                        delta: crate::laws::invert_ops(t_old, d),
                    },
                )
                &&& final(self).document_at(did).redo_view() == old(self).document_at(
                    did,
                ).redo_view()
                &&& final(self).session_at(session_id).cursors_view() == normalize_cursors(
                    session.cursors_view().map_values(
                        |c: CursorView|
                            CursorView {
                                head: pos_xform(c.head, d, Whose::Ours),
                                anchor: pos_xform(c.anchor, d, Whose::Ours),
                            },
                    ),
                )
            }),
    {
        let ghost pre = *old(self);
        let (delta_zero, delta_one) = {
            let session = self.sessions.borrow(session_id);
            let document = self.documents.borrow(session.document_id);
            let ghost t_old = document.text@;
            proof {
                use_type_invariant(&session.cursors);
                crate::cursor_set::lemma_selections_wf(t_old, session.cursors@);
                crate::cursor_set::lemma_carets_spec(session.cursors@);
                assert forall|k: int| 0 <= k < session.carets@.len() implies
                    crate::text::size_fits(#[trigger] session.carets@[k], t_old) by {
                    assert(session.carets@.contains(session.carets@[k]));
                    let j = choose|j: int|
                        0 <= j < session.cursors@.len() && (#[trigger] session.cursors@[
                            j
                        ]).head == session.carets@[k];
                    assert(crate::text::size_fits(session.cursors@[j].head, t_old));
                }
            }
            let d0 = build_selection_delta(session.selections(), Ghost(t_old));
            let d1 = build_insert_delta(
                session.carets(),
                session.selections(),
                &text,
                Ghost(t_old),
            );
            (d0, d1)
        };
        let ghost did = pre.session_at(session_id).document_id_spec();
        let ghost t_old = pre.document_at(did).text_view();
        let (_own_after, theirs_after) = delta_zero.clone().transform(delta_one);
        proof {
            assert(ops_wf(apply_ops(t_old, delta_zero@), theirs_after@));
            assert(exists|w: Seq<Seq<char>>|
                ops_wf(w, delta_zero@) && ops_wf(apply_ops(w, delta_zero@), theirs_after@));
        }
        let delta = delta_zero.compose(theirs_after);
        self.commit_local_delta(session_id, delta)
    }

    /// Removes each selection of the acting session, and one unit before each
    /// caret outside a selection (the character before it, or the line break
    /// joining its line to the one above), committed as a local edit.
    pub fn insert_backspace(&mut self, session_id: Id) -> (r: Option<Request>)
        requires
            old(self).wf(),
            old(self).session_valid(session_id),
        ensures
            final(self).wf(),
            final(self).session_valid(session_id),
            ({
                let did = old(self).session_at(session_id).document_id_spec();
                let t_old = old(self).document_at(did).text_view();
                let session = old(self).session_at(session_id);
                let d0 = crate::delta::strip_trailing_retains(
                    delta_zero_of(session.selections_view()),
                );
                let d1 = crate::delta::strip_trailing_retains(
                    backspace_ops_of(
                        crate::size::size_zero(),
                        session.carets_view(),
                        session.selections_view(),
                        t_old,
                    ),
                );
                let d = crate::laws::compose_ops(d0, crate::laws::transform_ops(d0, d1).1);
                &&& local_commit_post(*old(self), *final(self), session_id, d, r)
                &&& final(self).document_at(did).undo_view() == old(self).document_at(
                    did,
                ).undo_view().push(
                    EditView {
                        cursors: session.cursors_view(),
                        delta: crate::laws::invert_ops(t_old, d),
                    },
                )
                &&& final(self).document_at(did).redo_view() == old(self).document_at(
                    did,
                ).redo_view()
                &&& final(self).session_at(session_id).cursors_view() == normalize_cursors(
                    session.cursors_view().map_values(
                        |c: CursorView|
                            CursorView {
                                head: pos_xform(c.head, d, Whose::Ours),
                                anchor: pos_xform(c.anchor, d, Whose::Ours),
                            },
                    ),
                )
            }),
    {
        let ghost pre = *old(self);
        let (delta_zero, delta_one) = {
            let session = self.sessions.borrow(session_id);
            let document = self.documents.borrow(session.document_id);
            let ghost t_old = document.text@;
            proof {
                use_type_invariant(&session.cursors);
                crate::cursor_set::lemma_selections_wf(t_old, session.cursors@);
                crate::cursor_set::lemma_carets_spec(session.cursors@);
                assert forall|k: int| 0 <= k < session.carets@.len() implies
                    crate::text::size_fits(#[trigger] session.carets@[k], t_old) by {
                    assert(session.carets@.contains(session.carets@[k]));
                    let j = choose|j: int|
                        0 <= j < session.cursors@.len() && (#[trigger] session.cursors@[
                            j
                        ]).head == session.carets@[k];
                    assert(crate::text::size_fits(session.cursors@[j].head, t_old));
                }
            }
            let d0 = build_selection_delta(session.selections(), Ghost(t_old));
            let d1 = build_backspace_delta(session.carets(), session.selections(), document.text());
            (d0, d1)
        };
        let ghost did = pre.session_at(session_id).document_id_spec();
        let ghost t_old = pre.document_at(did).text_view();
        let (_own_after, theirs_after) = delta_zero.clone().transform(delta_one);
        proof {
            assert(ops_wf(apply_ops(t_old, delta_zero@), theirs_after@));
            assert(exists|w: Seq<Seq<char>>|
                ops_wf(w, delta_zero@) && ops_wf(apply_ops(w, delta_zero@), theirs_after@));
        }
        let delta = delta_zero.compose(theirs_after);
        self.commit_local_delta(session_id, delta)
    }
}

/// After replacing one session with one that still fits its document's text,
/// the state invariant holds again.
proof fn lemma_state_wf_after_session_update(now: State, pre: State, sid: Id)
    requires
        pre.wf(),
        pre.session_valid(sid),
        now.arenas_within_allocators(),
        now.session_valid(sid),
        now.session_at(sid).document_id_spec() == pre.session_at(sid).document_id_spec(),
        now.session_at(sid).wf(
            pre.document_at(pre.session_at(sid).document_id_spec()).text_view(),
        ),
        forall|s: Id|
            s != sid ==> (#[trigger] now.session_valid(s) <==> pre.session_valid(s)),
        forall|s: Id|
            s != sid && pre.session_valid(s) ==> #[trigger] now.session_at(s) == pre.session_at(
                s,
            ),
        forall|d: Id| #[trigger] now.document_valid(d) <==> pre.document_valid(d),
        forall|d: Id|
            pre.document_valid(d) ==> #[trigger] now.document_at(d) == pre.document_at(d),
        now.paths_view() == pre.paths_view(),
    ensures
        now.wf(),
{
    assert forall|s: Id| #[trigger] now.session_valid(s) implies {
        &&& now.document_valid(now.session_at(s).document_id_spec())
        &&& now.session_at(s).wf(
            now.document_at(now.session_at(s).document_id_spec()).text_view(),
        )
        &&& exists|k: int|
            0 <= k < now.document_at(
                now.session_at(s).document_id_spec(),
            ).session_ids_view().len() && now.document_at(
                now.session_at(s).document_id_spec(),
            ).session_ids_view()[k] == s
    } by {
        let d = if s == sid {
            pre.session_at(sid).document_id_spec()
        } else {
            pre.session_at(s).document_id_spec()
        };
        assert(pre.session_valid(s));
        assert(pre.document_valid(d));
        assert(now.document_at(d) == pre.document_at(d));
        let k = choose|k: int|
            0 <= k < pre.document_at(d).session_ids_view().len() && pre.document_at(
                d,
            ).session_ids_view()[k] == s;
        assert(now.document_at(d).session_ids_view()[k] == s);
    }
    assert forall|d: Id| #[trigger] now.document_valid(d) implies {
        &&& now.document_at(d).wf()
        &&& forall|k: int|
            0 <= k < now.document_at(d).session_ids_view().len() ==> {
                &&& now.session_valid(#[trigger] now.document_at(d).session_ids_view()[k])
                &&& now.session_at(now.document_at(d).session_ids_view()[k]).document_id_spec()
                    == d
            }
        &&& forall|k1: int, k2: int|
            0 <= k1 < k2 < now.document_at(d).session_ids_view().len() ==> (
            #[trigger] now.document_at(d).session_ids_view()[k1]) != (
            #[trigger] now.document_at(d).session_ids_view()[k2])
    } by {
        assert(pre.document_valid(d));
        assert(now.document_at(d) == pre.document_at(d));
        assert forall|k: int| 0 <= k < now.document_at(d).session_ids_view().len() implies {
            &&& now.session_valid(#[trigger] now.document_at(d).session_ids_view()[k])
            &&& now.session_at(now.document_at(d).session_ids_view()[k]).document_id_spec() == d
        } by {
            let s = now.document_at(d).session_ids_view()[k];
            assert(pre.session_valid(s));
            if s == sid {
                assert(pre.session_at(sid).document_id_spec() == d);
            }
        }
    }
}

/// After inserting a fresh session and appending its id to its document, the
/// state invariant holds again.
proof fn lemma_state_wf_after_session_change(
    now: State,
    pre: State,
    new_sid: Id,
    did: Id,
)
    requires
        pre.wf(),
        pre.document_valid(did),
        !pre.session_valid(new_sid),
        now.arenas_within_allocators(),
        now.session_valid(new_sid),
        now.session_at(new_sid).document_id_spec() == did,
        now.session_at(new_sid).wf(pre.document_at(did).text_view()),
        // sessions: everything else as before
        forall|sid: Id|
            sid != new_sid ==> (#[trigger] now.session_valid(sid) <==> pre.session_valid(sid)),
        forall|sid: Id|
            sid != new_sid && pre.session_valid(sid) ==> #[trigger] now.session_at(sid)
                == pre.session_at(sid),
        // documents: did has the id appended, everything else as before
        forall|d: Id| #[trigger] now.document_valid(d) <==> pre.document_valid(d),
        forall|d: Id|
            d != did && pre.document_valid(d) ==> #[trigger] now.document_at(d)
                == pre.document_at(d),
        now.document_at(did).session_ids_view() == pre.document_at(
            did,
        ).session_ids_view().push(new_sid),
        now.document_at(did).text_view() == pre.document_at(did).text_view(),
        now.document_at(did).wf(),
        now.paths_view() == pre.paths_view(),
    ensures
        now.wf(),
{
    assert forall|sid: Id| #[trigger] now.session_valid(sid) implies {
        &&& now.document_valid(now.session_at(sid).document_id_spec())
        &&& now.session_at(sid).wf(
            now.document_at(now.session_at(sid).document_id_spec()).text_view(),
        )
        &&& exists|k: int|
            0 <= k < now.document_at(
                now.session_at(sid).document_id_spec(),
            ).session_ids_view().len() && now.document_at(
                now.session_at(sid).document_id_spec(),
            ).session_ids_view()[k] == sid
    } by {
        if sid == new_sid {
            let list = now.document_at(did).session_ids_view();
            assert(list[list.len() - 1] == new_sid);
        } else {
            assert(pre.session_valid(sid));
            let d = pre.session_at(sid).document_id_spec();
            let k = choose|k: int|
                0 <= k < pre.document_at(d).session_ids_view().len() && pre.document_at(
                    d,
                ).session_ids_view()[k] == sid;
            if d == did {
                assert(now.document_at(did).session_ids_view()[k] == sid);
            } else {
                assert(now.document_at(d) == pre.document_at(d));
                assert(now.document_at(d).session_ids_view()[k] == sid);
            }
        }
    }
    assert forall|d: Id| #[trigger] now.document_valid(d) implies {
        &&& now.document_at(d).wf()
        &&& forall|k: int|
            0 <= k < now.document_at(d).session_ids_view().len() ==> {
                &&& now.session_valid(#[trigger] now.document_at(d).session_ids_view()[k])
                &&& now.session_at(now.document_at(d).session_ids_view()[k]).document_id_spec()
                    == d
            }
        &&& forall|k1: int, k2: int|
            0 <= k1 < k2 < now.document_at(d).session_ids_view().len() ==> (
            #[trigger] now.document_at(d).session_ids_view()[k1]) != (
            #[trigger] now.document_at(d).session_ids_view()[k2])
    } by {
        assert(pre.document_valid(d));
        if d == did {
            let pre_list = pre.document_at(did).session_ids_view();
            let list = now.document_at(did).session_ids_view();
            assert(forall|k: int| 0 <= k < pre_list.len() ==> #[trigger] list[k] == pre_list[k]);
            assert(list[list.len() - 1] == new_sid);
            assert forall|k: int| 0 <= k < list.len() implies {
                &&& now.session_valid(#[trigger] list[k])
                &&& now.session_at(list[k]).document_id_spec() == did
            } by {
                if k < pre_list.len() {
                    assert(pre.session_valid(pre_list[k]));
                    assert(pre_list[k] != new_sid);
                }
            }
            assert forall|k1: int, k2: int| 0 <= k1 < k2 < list.len() implies (#[trigger] list[
                k1
            ]) != (#[trigger] list[k2]) by {
                if k2 < pre_list.len() {
                } else {
                    assert(list[k2] == new_sid);
                    assert(pre.session_valid(pre_list[k1]));
                    assert(pre_list[k1] != new_sid);
                }
            }
        } else {
            assert(now.document_at(d) == pre.document_at(d));
            assert forall|k: int| 0 <= k < now.document_at(d).session_ids_view().len() implies {
                &&& now.session_valid(#[trigger] now.document_at(d).session_ids_view()[k])
                &&& now.session_at(
                    now.document_at(d).session_ids_view()[k],
                ).document_id_spec() == d
            } by {
                let sid = now.document_at(d).session_ids_view()[k];
                assert(pre.session_valid(sid));
                assert(sid != new_sid);
            }
        }
    }
}

} // verus!
