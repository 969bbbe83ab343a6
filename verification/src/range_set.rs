use crate::position::Position;
use crate::size::{size_add, size_le, size_lt, size_sub, size_zero, Size, SizeView};
use crate::text::{lemma_text_split, size_fits, text_skip, text_wf};
use vstd::prelude::*;

verus! {

// ---------------------------------------------------------------------------
// Intervals: selections as pairs of positions over one text.
// ---------------------------------------------------------------------------

/// The model of a selection interval: a start and an end position, as
/// displacements from the origin.
pub struct IntervalView {
    pub start: SizeView,
    pub end: SizeView,
}

/// A selection interval over the text: `start` at or before `end`.
#[derive(Clone, Copy, PartialEq, Eq, Structural, Debug)]
pub struct Interval {
    pub start: Position,
    pub end: Position,
}

impl View for Interval {
    type V = IntervalView;

    open spec fn view(&self) -> IntervalView {
        IntervalView { start: self.start@, end: self.end@ }
    }
}

impl DeepView for Interval {
    type V = IntervalView;

    open spec fn deep_view(&self) -> IntervalView {
        self@
    }
}

pub open spec fn size_max(a: SizeView, b: SizeView) -> SizeView {
    if size_le(a, b) {
        b
    } else {
        a
    }
}

/// Intervals that follow each other: each starts at or after `prev`, ends at
/// or after it starts.
pub open spec fn intervals_chain(prev: SizeView, ivs: Seq<IntervalView>) -> bool
    decreases ivs.len(),
{
    ivs.len() == 0 || {
        &&& size_le(prev, ivs[0].start)
        &&& size_le(ivs[0].start, ivs[0].end)
        &&& intervals_chain(ivs[0].end, ivs.drop_first())
    }
}

/// All interval ends land inside `t`.
pub open spec fn intervals_fit(t: Seq<Seq<char>>, ivs: Seq<IntervalView>) -> bool {
    forall|i: int|
        0 <= i < ivs.len() ==> size_fits(#[trigger] ivs[i].start, t) && size_fits(ivs[i].end, t)
}

/// The sweep that merges overlapping or touching intervals, starting from a
/// current interval `cur`; the input intervals are ordered by start.
pub open spec fn merge_from(cur: IntervalView, ivs: Seq<IntervalView>) -> Seq<IntervalView>
    decreases ivs.len(),
{
    if ivs.len() == 0 {
        seq![cur]
    } else if size_le(ivs[0].start, cur.end) {
        merge_from(
            IntervalView { start: cur.start, end: size_max(cur.end, ivs[0].end) },
            ivs.drop_first(),
        )
    } else {
        seq![cur] + merge_from(ivs[0], ivs.drop_first())
    }
}

/// Merged intervals of a start-ordered sequence.
pub open spec fn merge_intervals(ivs: Seq<IntervalView>) -> Seq<IntervalView> {
    if ivs.len() == 0 {
        Seq::empty()
    } else {
        merge_from(ivs[0], ivs.drop_first())
    }
}

/// Intervals ordered by start, each well formed.
pub open spec fn intervals_start_sorted(ivs: Seq<IntervalView>) -> bool {
    &&& forall|i: int| 0 <= i < ivs.len() ==> size_le((#[trigger] ivs[i]).start, ivs[i].end)
    &&& forall|i: int, j: int|
        0 <= i < j < ivs.len() ==> size_le((#[trigger] ivs[i]).start, (#[trigger] ivs[j]).start)
}

/// The merge of start-ordered, fitting intervals yields a chain of fitting
/// intervals.
pub proof fn lemma_merge_from(
    t: Seq<Seq<char>>,
    cur: IntervalView,
    ivs: Seq<IntervalView>,
)
    requires
        intervals_start_sorted(ivs),
        intervals_fit(t, ivs),
        size_le(cur.start, cur.end),
        size_fits(cur.start, t),
        size_fits(cur.end, t),
        forall|i: int| 0 <= i < ivs.len() ==> size_le(cur.start, (#[trigger] ivs[i]).start),
    ensures
        intervals_chain(cur.start, merge_from(cur, ivs)),
        intervals_fit(t, merge_from(cur, ivs)),
        merge_from(cur, ivs).len() >= 1,
        merge_from(cur, ivs)[0].start == cur.start,
    decreases ivs.len(),
{
    if ivs.len() == 0 {
        assert(merge_from(cur, ivs) == seq![cur]);
        assert(intervals_chain(cur.end, Seq::<IntervalView>::empty()));
        assert(intervals_chain(cur.start, seq![cur])) by {
            assert(seq![cur].drop_first() =~= Seq::<IntervalView>::empty());
        }
        assert(intervals_fit(t, seq![cur]));
    } else {
        let rest = ivs.drop_first();
        assert(forall|i: int| 0 <= i < rest.len() ==> #[trigger] rest[i] == ivs[i + 1]);
        assert(intervals_start_sorted(rest));
        assert(intervals_fit(t, rest));
        if size_le(ivs[0].start, cur.end) {
            let joined = IntervalView { start: cur.start, end: size_max(cur.end, ivs[0].end) };
            lemma_merge_from(t, joined, rest);
        } else {
            lemma_merge_from(t, ivs[0], rest);
            let tail = merge_from(ivs[0], rest);
            let r = seq![cur] + tail;
            assert(r[0] == cur);
            assert(r.drop_first() =~= tail);
            assert(size_lt(cur.end, ivs[0].start));
            assert(intervals_chain(cur.end, tail)) by {
                assert(size_le(cur.end, tail[0].start));
            }
            assert(intervals_chain(cur.start, r));
            assert forall|i: int| 0 <= i < r.len() implies size_fits(
                (#[trigger] r[i]).start,
                t,
            ) && size_fits(r[i].end, t) by {
                if i > 0 {
                    assert(r[i] == tail[i - 1]);
                }
            }
        }
    }
}

// ---------------------------------------------------------------------------
// Spans: the whole text cut into excluded and included stretches.
// ---------------------------------------------------------------------------

/// The model of a span: a measure of text and whether it lies inside a
/// selection.
pub struct SpanView {
    pub len: SizeView,
    pub is_included: bool,
}

/// A stretch of text: its measure, and whether it is part of a selection.
#[derive(Clone, Copy, PartialEq, Eq, Structural, Debug)]
pub struct Span {
    pub len: Size,
    pub is_included: bool,
}

impl View for Span {
    type V = SpanView;

    open spec fn view(&self) -> SpanView {
        SpanView { len: self.len@, is_included: self.is_included }
    }
}

impl DeepView for Span {
    type V = SpanView;

    open spec fn deep_view(&self) -> SpanView {
        self@
    }
}

/// The spans that an interval chain cuts the text into, walking from `prev`:
/// an excluded gap up to each interval's start, then the included interval.
pub open spec fn spans_of(prev: SizeView, ivs: Seq<IntervalView>) -> Seq<SpanView>
    decreases ivs.len(),
{
    if ivs.len() == 0 {
        Seq::empty()
    } else {
        seq![
            SpanView { len: size_sub(ivs[0].start, prev), is_included: false },
            SpanView { len: size_sub(ivs[0].end, ivs[0].start), is_included: true },
        ] + spans_of(ivs[0].end, ivs.drop_first())
    }
}

/// Whether the spans can be cut, in order, out of the text `t`.
pub open spec fn spans_wf(t: Seq<Seq<char>>, spans: Seq<SpanView>) -> bool
    decreases spans.len(),
{
    text_wf(t) && (spans.len() == 0 || {
        &&& size_fits(spans[0].len, t)
        &&& spans_wf(text_skip(t, spans[0].len), spans.drop_first())
    })
}

/// The spans of a fitting interval chain can be cut out of the text.
#[verifier::rlimit(100)]
#[verifier::spinoff_prover]
pub proof fn lemma_spans_of_wf(t: Seq<Seq<char>>, prev: SizeView, ivs: Seq<IntervalView>)
    requires
        text_wf(t),
        size_fits(prev, t),
        intervals_chain(prev, ivs),
        intervals_fit(t, ivs),
    ensures
        spans_wf(text_skip(t, prev), spans_of(prev, ivs)),
    decreases ivs.len(),
{
    crate::text::lemma_text_take_skip(t, prev);
    if ivs.len() > 0 {
        let s = ivs[0].start;
        let e = ivs[0].end;
        let rest = ivs.drop_first();
        assert(forall|i: int| 0 <= i < rest.len() ==> #[trigger] rest[i] == ivs[i + 1]);
        lemma_text_split(t, prev, s);
        lemma_text_split(t, s, e);
        lemma_spans_of_wf(t, e, rest);
        let spans = spans_of(prev, ivs);
        let tail = spans_of(e, rest);
        assert(spans[0] == SpanView { len: size_sub(s, prev), is_included: false });
        assert(spans[1] == SpanView { len: size_sub(e, s), is_included: true });
        assert(spans.drop_first()[0] == spans[1]);
        assert(spans.drop_first().drop_first() =~= tail);
        assert(text_skip(text_skip(t, prev), size_sub(s, prev)) == text_skip(t, s));
        assert(text_skip(text_skip(t, s), size_sub(e, s)) == text_skip(t, e));
        crate::text::lemma_text_take_skip(t, s);
        crate::text::lemma_text_take_skip(t, e);
        assert(spans_wf(text_skip(t, e), tail));
        assert(spans_wf(text_skip(t, s), spans.drop_first())) by {
            assert(spans.drop_first()[0].len == size_sub(e, s));
            assert(size_fits(size_sub(e, s), text_skip(t, s)));
        }
        assert(spans_wf(text_skip(t, prev), spans)) by {
            assert(spans[0].len == size_sub(s, prev));
            assert(size_fits(size_sub(s, prev), text_skip(t, prev)));
        }
    }
}

// ---------------------------------------------------------------------------
// The executable range set.
// ---------------------------------------------------------------------------

/// Whether walking the spans from `acc` keeps every reached position within
/// machine bounds.
pub open spec fn spans_bounded(acc: SizeView, spans: Seq<SpanView>) -> bool
    decreases spans.len(),
{
    spans.len() == 0 || {
        let next = size_add(acc, spans[0].len);
        &&& next.line <= usize::MAX
        &&& next.column <= usize::MAX
        &&& spans_bounded(next, spans.drop_first())
    }
}

/// Whether `p` lies strictly inside an included span, walking from `acc`.
pub open spec fn spans_contain(acc: SizeView, spans: Seq<SpanView>, p: SizeView) -> bool
    decreases spans.len(),
{
    spans.len() > 0 && {
        let next = size_add(acc, spans[0].len);
        (spans[0].is_included && size_lt(acc, p) && size_lt(p, next)) || spans_contain(
            next,
            spans.drop_first(),
            p,
        )
    }
}

/// The position reached after walking all spans from `acc`.
pub open spec fn spans_end(acc: SizeView, spans: Seq<SpanView>) -> SizeView
    decreases spans.len(),
{
    if spans.len() == 0 {
        acc
    } else {
        spans_end(size_add(acc, spans[0].len), spans.drop_first())
    }
}

pub proof fn lemma_spans_bounded_concat(acc: SizeView, s1: Seq<SpanView>, s2: Seq<SpanView>)
    ensures
        spans_bounded(acc, s1 + s2) == (spans_bounded(acc, s1) && spans_bounded(
            spans_end(acc, s1),
            s2,
        )),
    decreases s1.len(),
{
    if s1.len() == 0 {
        assert(s1 + s2 =~= s2);
    } else {
        let next = size_add(acc, s1[0].len);
        assert((s1 + s2)[0] == s1[0]);
        assert((s1 + s2).drop_first() =~= s1.drop_first() + s2);
        lemma_spans_bounded_concat(next, s1.drop_first(), s2);
    }
}

/// An ordered set of non-overlapping spans covering the selected stretches of
/// a document, derived from a cursor set. Excluded and included stretches
/// alternate; anything after the last span is excluded.
#[derive(Debug)]
pub struct RangeSet {
    spans: Vec<Span>,
}

impl View for RangeSet {
    type V = Seq<SpanView>;

    closed spec fn view(&self) -> Seq<SpanView> {
        self.spans.deep_view()
    }
}

pub proof fn lemma_spans_deep_view(v: &Vec<Span>)
    ensures
        v.deep_view().len() == v@.len(),
        forall|i: int| 0 <= i < v@.len() ==> #[trigger] v.deep_view()[i] == v@[i]@,
{
}

impl RangeSet {
    #[verifier::type_invariant]
    pub open spec fn type_inv(&self) -> bool {
        spans_bounded(size_zero(), self@)
    }

    pub fn new() -> (r: RangeSet)
        ensures
            r@ == Seq::<SpanView>::empty(),
    {
        let r = RangeSet { spans: Vec::new() };
        proof {
            assert(r@ =~= Seq::<SpanView>::empty());
        }
        r
    }

    /// The spans, in document order.
    pub fn spans(&self) -> (r: &Vec<Span>)
        ensures
            r.deep_view() == self@,
            spans_bounded(size_zero(), self@),
    {
        proof {
            use_type_invariant(&*self);
        }
        &self.spans
    }

    /// The range set that a chain of merged selection intervals cuts the
    /// document into.
    pub fn from_merged_intervals(intervals: &Vec<Interval>) -> (r: RangeSet)
        requires
            intervals_chain(size_zero(), intervals.deep_view()),
        ensures
            r@ == spans_of(size_zero(), intervals.deep_view()),
    {
        let ghost ivs = intervals.deep_view();
        let mut spans: Vec<Span> = Vec::new();
        let mut prev = Position::origin();
        let mut i: usize = 0;
        proof {
            assert(forall|j: int|
                0 <= j < intervals@.len() ==> #[trigger] intervals.deep_view()[j] == intervals@[
                    j
                ]@);
            assert(ivs.skip(0) =~= ivs);
            assert(spans.deep_view() =~= Seq::<SpanView>::empty());
            assert(spans.deep_view() + spans_of(size_zero(), ivs) =~= spans_of(size_zero(), ivs));
        }
        while i < intervals.len()
            invariant
                i <= intervals@.len(),
                ivs == intervals.deep_view(),
                ivs.len() == intervals@.len(),
                forall|j: int| 0 <= j < ivs.len() ==> #[trigger] ivs[j] == intervals@[j]@,
                intervals_chain(prev@, ivs.skip(i as int)),
                prev@ == if i == 0 {
                    size_zero()
                } else {
                    ivs[i - 1].end
                },
                spans.deep_view() + spans_of(prev@, ivs.skip(i as int)) == spans_of(
                    size_zero(),
                    ivs,
                ),
                spans_bounded(size_zero(), spans.deep_view()),
                spans_end(size_zero(), spans.deep_view()) == prev@,
            decreases intervals@.len() - i,
        {
            proof {
                assert(ivs.skip(i as int)[0] == ivs[i as int]);
                assert(ivs.skip(i as int).drop_first() =~= ivs.skip(i as int + 1));
            }
            let iv = intervals[i];
            let gap = iv.start.distance_from(prev);
            let len = iv.end.distance_from(iv.start);
            let ghost prev_dv = spans.deep_view();
            spans.push(Span { len: gap, is_included: false });
            spans.push(Span { len, is_included: true });
            proof {
                lemma_spans_deep_view(&spans);
                assert(spans.deep_view() =~= prev_dv + seq![
                    SpanView { len: gap@, is_included: false },
                    SpanView { len: len@, is_included: true },
                ]);
                crate::size::lemma_size_add_sub(prev@, iv.start@);
                crate::size::lemma_size_add_sub(iv.start@, iv.end@);
                assert(spans.deep_view() + spans_of(iv.end@, ivs.skip(i as int + 1)) =~= prev_dv
                    + spans_of(prev@, ivs.skip(i as int)));
                let two = seq![
                    SpanView { len: gap@, is_included: false },
                    SpanView { len: len@, is_included: true },
                ];
                assert(two.drop_first() =~= seq![SpanView { len: len@, is_included: true }]);
                assert(seq![SpanView { len: len@, is_included: true }].drop_first() =~= Seq::<
                    SpanView,
                >::empty());
                assert(size_add(prev@, gap@) == iv.start@);
                assert(size_add(iv.start@, len@) == iv.end@);
                assert(spans_bounded(iv.end@, Seq::<SpanView>::empty()));
                assert(spans_bounded(iv.start@, two.drop_first()));
                assert(spans_bounded(prev@, two));
                assert(spans_end(prev@, two) == iv.end@) by {
                    assert(two[0].len == gap@);
                    assert(two.drop_first()[0].len == len@);
                    assert(two.drop_first().drop_first() =~= Seq::<SpanView>::empty());
                    assert(spans_end(iv.end@, two.drop_first().drop_first()) == iv.end@);
                    assert(spans_end(iv.start@, two.drop_first()) == iv.end@);
                }
                lemma_spans_bounded_concat(size_zero(), prev_dv, two);
                lemma_spans_end_concat(size_zero(), prev_dv, two);
            }
            prev = iv.end;
            i = i + 1;
        }
        proof {
            assert(ivs.skip(i as int) =~= Seq::<IntervalView>::empty());
            assert(spans.deep_view() + spans_of(prev@, ivs.skip(i as int)) =~= spans.deep_view());
            assert(spans.deep_view() == spans_of(size_zero(), ivs));
        }
        RangeSet { spans }
    }

    /// Whether `p` lies strictly inside a selected stretch.
    pub fn contains_position(&self, p: Position) -> (r: bool)
        ensures
            r == spans_contain(size_zero(), self@, p@),
    {
        proof {
            use_type_invariant(&*self);
            lemma_spans_deep_view(&self.spans);
        }
        let mut acc = Position::origin();
        let mut i: usize = 0;
        proof {
            assert(self@.skip(0) =~= self@);
        }
        while i < self.spans.len()
            invariant
                i <= self.spans@.len(),
                self@ == self.spans.deep_view(),
                self@.len() == self.spans@.len(),
                forall|j: int| 0 <= j < self@.len() ==> #[trigger] self@[j] == self.spans@[j]@,
                spans_bounded(acc@, self@.skip(i as int)),
                spans_contain(size_zero(), self@, p@) == spans_contain(
                    acc@,
                    self@.skip(i as int),
                    p@,
                ),
            decreases self.spans@.len() - i,
        {
            proof {
                assert(self@.skip(i as int)[0] == self@[i as int]);
                assert(self@.skip(i as int).drop_first() =~= self@.skip(i as int + 1));
            }
            let span = self.spans[i];
            proof {
                assert(spans_bounded(acc@, self@.skip(i as int)));
                let nxt = size_add(acc@, self@.skip(i as int)[0].len);
                assert(nxt.line <= usize::MAX && nxt.column <= usize::MAX);
            }
            let next = acc.advanced_by(span.len);
            if span.is_included && acc.lt(&p) && p.lt(&next) {
                return true;
            }
            acc = next;
            i = i + 1;
        }
        proof {
            assert(self@.skip(i as int) =~= Seq::<SpanView>::empty());
        }
        false
    }
}

pub proof fn lemma_spans_end_concat(acc: SizeView, s1: Seq<SpanView>, s2: Seq<SpanView>)
    ensures
        spans_end(acc, s1 + s2) == spans_end(spans_end(acc, s1), s2),
    decreases s1.len(),
{
    if s1.len() == 0 {
        assert(s1 + s2 =~= s2);
    } else {
        assert((s1 + s2)[0] == s1[0]);
        assert((s1 + s2).drop_first() =~= s1.drop_first() + s2);
        lemma_spans_end_concat(size_add(acc, s1[0].len), s1.drop_first(), s2);
    }
}

} // verus!
