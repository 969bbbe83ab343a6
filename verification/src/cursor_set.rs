use crate::delta::{apply_ops, lemma_apply_ops_wf, ops_wf, Delta, OpView, Operation, Whose};
use crate::position::Position;
use crate::position_set::{insert_position, positions_sorted, PositionSet};
use crate::range_set::{
    intervals_chain, intervals_fit, intervals_start_sorted, lemma_merge_from, lemma_spans_of_wf,
    merge_from, merge_intervals, spans_of, spans_wf, Interval, IntervalView, RangeSet,
};
use crate::size::{size_add, size_le, size_lt, size_sub, size_zero, Size, SizeView};
use crate::text::{
    lemma_fits_usize_cat, lemma_text_cat, lemma_text_cat_cut, lemma_text_split,
    lemma_text_take_skip, size_fits, text_cat, text_fits_usize, text_len_of, text_skip, text_take,
    text_wf, Text,
};
use vstd::prelude::*;

verus! {

// ---------------------------------------------------------------------------
// Remapping a position through a delta.
// ---------------------------------------------------------------------------

/// Where a position of the base text lands in the text a script produces.
/// A position strictly inside a retained stretch stays put; one inside a
/// deleted stretch is clamped to the point of deletion. At an insertion, a
/// position of the session that authored the edit (`Ours`) lands after the
/// inserted text; a foreign position (`Theirs`) stays before it.
pub open spec fn pos_xform(p: SizeView, ops: Seq<OpView>, whose: Whose) -> SizeView
    decreases ops.len(),
{
    if ops.len() == 0 {
        p
    } else {
        match ops[0] {
            OpView::Retain(n) => if size_lt(p, n) {
                p
            } else {
                size_add(n, pos_xform(size_sub(p, n), ops.drop_first(), whose))
            },
            OpView::Insert(s) => if p == size_zero() && whose == Whose::Theirs {
                size_zero()
            } else {
                size_add(text_len_of(s), pos_xform(p, ops.drop_first(), whose))
            },
            OpView::Delete(n) => if size_lt(p, n) {
                size_zero()
            } else {
                pos_xform(size_sub(p, n), ops.drop_first(), whose)
            },
        }
    }
}

/// A remapped position lands inside the produced text.
pub proof fn lemma_pos_xform_fits(
    t: Seq<Seq<char>>,
    p: SizeView,
    ops: Seq<OpView>,
    whose: Whose,
)
    requires
        ops_wf(t, ops),
        size_fits(p, t),
    ensures
        size_fits(pos_xform(p, ops, whose), apply_ops(t, ops)),
    decreases ops.len(),
{
    lemma_apply_ops_wf(t, ops);
    if ops.len() > 0 {
        let rest = ops.drop_first();
        match ops[0] {
            OpView::Retain(n) => {
                let tk = text_take(t, n);
                let sk = text_skip(t, n);
                let arest = apply_ops(sk, rest);
                lemma_text_take_skip(t, n);
                lemma_apply_ops_wf(sk, rest);
                lemma_text_cat(tk, arest);
                if size_lt(p, n) {
                    assert(size_fits(p, text_cat(tk, arest))) by {
                        if p.line < n.line {
                            assert(text_cat(tk, arest)[p.line as int] == tk[p.line as int]);
                            assert(tk[p.line as int] == t[p.line as int]);
                        } else {
                            assert(text_cat(tk, arest)[p.line as int].len() >= tk[
                                p.line as int
                            ].len());
                        }
                    }
                } else {
                    lemma_text_split(t, n, p);
                    lemma_pos_xform_fits(sk, size_sub(p, n), rest, whose);
                    lemma_text_cat_cut(tk, arest, pos_xform(size_sub(p, n), rest, whose));
                }
            },
            OpView::Insert(s) => {
                let arest = apply_ops(t, rest);
                lemma_apply_ops_wf(t, rest);
                lemma_text_cat(s, arest);
                if p == size_zero() && whose == Whose::Theirs {
                } else {
                    lemma_pos_xform_fits(t, p, rest, whose);
                    lemma_text_cat_cut(s, arest, pos_xform(p, rest, whose));
                }
            },
            OpView::Delete(n) => {
                let sk = text_skip(t, n);
                lemma_text_take_skip(t, n);
                if size_lt(p, n) {
                } else {
                    lemma_text_split(t, n, p);
                    lemma_pos_xform_fits(sk, size_sub(p, n), rest, whose);
                }
            },
        }
    }
}

/// The position `n` advanced by a further relative position `x`.
fn position_after(n: Size, x: Position) -> (r: Position)
    requires
        size_add(n@, x@).line <= usize::MAX,
        size_add(n@, x@).column <= usize::MAX,
    ensures
        r@ == size_add(n@, x@),
{
    if x.line == 0 {
        Position { line: n.line, column: n.column + x.column }
    } else {
        Position { line: n.line + x.line, column: x.column }
    }
}

fn xform_rec(
    p: Position,
    operations: &Vec<Operation>,
    i: usize,
    whose: Whose,
    Ghost(t): Ghost<Seq<Seq<char>>>,
) -> (r: Position)
    requires
        i <= operations@.len(),
        ops_wf(t, operations.deep_view().skip(i as int)),
        size_fits(p@, t),
        text_fits_usize(apply_ops(t, operations.deep_view().skip(i as int))),
    ensures
        r@ == pos_xform(p@, operations.deep_view().skip(i as int), whose),
        size_fits(r@, apply_ops(t, operations.deep_view().skip(i as int))),
    decreases operations@.len() - i,
{
    let ghost ops = operations.deep_view().skip(i as int);
    proof {
        lemma_pos_xform_fits(t, p@, ops, whose);
        lemma_apply_ops_wf(t, ops);
    }
    if i == operations.len() {
        p
    } else {
        assert(ops[0] == operations.deep_view()[i as int]);
        assert(ops.drop_first() =~= operations.deep_view().skip(i as int + 1));
        let ghost rest = ops.drop_first();
        match &operations[i] {
            Operation::Retain(n) => {
                let ghost tk = text_take(t, n@);
                let ghost sk = text_skip(t, n@);
                let ghost arest = apply_ops(sk, rest);
                proof {
                    lemma_text_take_skip(t, n@);
                    lemma_apply_ops_wf(sk, rest);
                    lemma_text_cat(tk, arest);
                    lemma_fits_usize_cat(tk, arest);
                }
                let inside = p.line < n.line || (p.line == n.line && p.column < n.column);
                if inside {
                    p
                } else {
                    proof {
                        lemma_text_split(t, n@, p@);
                        lemma_pos_xform_fits(sk, size_sub(p@, n@), rest, whose);
                        lemma_text_cat_cut(tk, arest, pos_xform(size_sub(p@, n@), rest, whose));
                    }
                    let p2 = if p.line == n.line {
                        Position { line: 0, column: p.column - n.column }
                    } else {
                        Position { line: p.line - n.line, column: p.column }
                    };
                    let x = xform_rec(p2, operations, i + 1, whose, Ghost(sk));
                    position_after(*n, x)
                }
            },
            Operation::Insert(s) => {
                let ghost arest = apply_ops(t, rest);
                proof {
                    lemma_apply_ops_wf(t, rest);
                    lemma_text_cat(s@, arest);
                    lemma_fits_usize_cat(s@, arest);
                }
                if p.line == 0 && p.column == 0 && whose == Whose::Theirs {
                    Position::origin()
                } else {
                    proof {
                        lemma_pos_xform_fits(t, p@, rest, whose);
                        lemma_text_cat_cut(s@, arest, pos_xform(p@, rest, whose));
                    }
                    let measure = s.len();
                    let x = xform_rec(p, operations, i + 1, whose, Ghost(t));
                    position_after(measure, x)
                }
            },
            Operation::Delete(n) => {
                let ghost sk = text_skip(t, n@);
                proof {
                    lemma_text_take_skip(t, n@);
                }
                let inside = p.line < n.line || (p.line == n.line && p.column < n.column);
                if inside {
                    Position::origin()
                } else {
                    proof {
                        lemma_text_split(t, n@, p@);
                    }
                    let p2 = if p.line == n.line {
                        Position { line: 0, column: p.column - n.column }
                    } else {
                        Position { line: p.line - n.line, column: p.column }
                    };
                    xform_rec(p2, operations, i + 1, whose, Ghost(sk))
                }
            },
        }
    }
}

/// Where a position of the delta's base text lands in the text the delta
/// produces.
pub fn transform_position(
    p: Position,
    delta: &Delta,
    whose: Whose,
    Ghost(base): Ghost<Seq<Seq<char>>>,
) -> (r: Position)
    requires
        ops_wf(base, delta@),
        size_fits(p@, base),
        text_fits_usize(apply_ops(base, delta@)),
    ensures
        r@ == pos_xform(p@, delta@, whose),
        size_fits(r@, apply_ops(base, delta@)),
{
    let ops = delta.operations();
    assert(ops.deep_view().skip(0) =~= delta@);
    xform_rec(p, ops, 0, whose, Ghost(base))
}

// ---------------------------------------------------------------------------
// Cursors.
// ---------------------------------------------------------------------------

/// The model of a cursor: its head (the caret) and its anchor; when the two
/// differ, the stretch between them is a selection.
pub struct CursorView {
    pub head: SizeView,
    pub anchor: SizeView,
}

/// A cursor: a head (the caret) and an anchor; when they differ, the stretch
/// between them is a selection.
#[derive(Clone, Copy, PartialEq, Eq, Structural, Debug)]
pub struct Cursor {
    pub head: Position,
    pub anchor: Position,
}

impl View for Cursor {
    type V = CursorView;

    open spec fn view(&self) -> CursorView {
        CursorView { head: self.head@, anchor: self.anchor@ }
    }
}

impl DeepView for Cursor {
    type V = CursorView;

    open spec fn deep_view(&self) -> CursorView {
        self@
    }
}

/// The earlier of a cursor's two positions.
pub open spec fn cursor_start(c: CursorView) -> SizeView {
    if size_le(c.anchor, c.head) {
        c.anchor
    } else {
        c.head
    }
}

/// The later of a cursor's two positions.
pub open spec fn cursor_end(c: CursorView) -> SizeView {
    if size_le(c.anchor, c.head) {
        c.head
    } else {
        c.anchor
    }
}

/// The total order that keeps a cursor set sorted: by start, then end, then
/// head.
pub open spec fn cursor_lt(a: CursorView, b: CursorView) -> bool {
    ||| size_lt(cursor_start(a), cursor_start(b))
    ||| (cursor_start(a) == cursor_start(b) && size_lt(cursor_end(a), cursor_end(b)))
    ||| (cursor_start(a) == cursor_start(b) && cursor_end(a) == cursor_end(b) && size_lt(
        a.head,
        b.head,
    ))
}

pub open spec fn cursors_sorted(s: Seq<CursorView>) -> bool {
    forall|i: int, j: int| 0 <= i < j < s.len() ==> cursor_lt(#[trigger] s[i], #[trigger] s[j])
}

/// All cursor positions land inside `t`.
pub open spec fn cursors_fit(t: Seq<Seq<char>>, s: Seq<CursorView>) -> bool {
    forall|i: int|
        0 <= i < s.len() ==> size_fits((#[trigger] s[i]).head, t) && size_fits(s[i].anchor, t)
}

/// Insertion of a cursor into a strictly ascending sequence; an exact
/// duplicate is dropped.
pub open spec fn insert_cursor(s: Seq<CursorView>, c: CursorView) -> Seq<CursorView>
    decreases s.len(),
{
    if s.len() == 0 {
        seq![c]
    } else if c == s[0] {
        s
    } else if cursor_lt(c, s[0]) {
        seq![c] + s
    } else {
        seq![s[0]] + insert_cursor(s.drop_first(), c)
    }
}

/// The sorted, deduplicated form of any cursor sequence.
pub open spec fn normalize_cursors(s: Seq<CursorView>) -> Seq<CursorView>
    decreases s.len(),
{
    if s.len() == 0 {
        Seq::empty()
    } else {
        insert_cursor(normalize_cursors(s.drop_last()), s.last())
    }
}

pub proof fn lemma_insert_cursor(s: Seq<CursorView>, c: CursorView)
    requires
        cursors_sorted(s),
    ensures
        cursors_sorted(insert_cursor(s, c)),
        insert_cursor(s, c).contains(c),
        forall|q: CursorView| insert_cursor(s, c).contains(q) <==> (s.contains(q) || q == c),
    decreases s.len(),
{
    let r = insert_cursor(s, c);
    if s.len() == 0 {
        assert(r[0] == c);
        assert forall|q: CursorView| (s.contains(q) || q == c) implies r.contains(q) by {
            assert(r[0] == c);
        }
    } else if c == s[0] {
        assert(r.contains(c)) by {
            assert(r[0] == c);
        }
        assert forall|q: CursorView| (s.contains(q) || q == c) implies r.contains(q) by {
            if q == c {
                assert(r[0] == c);
            }
        }
    } else if cursor_lt(c, s[0]) {
        assert(r == seq![c] + s);
        assert(r[0] == c);
        assert(r.contains(c)) by {
            assert(r[0] == c);
        }
        assert forall|i: int, j: int| 0 <= i < j < r.len() implies cursor_lt(r[i], r[j]) by {
            if i > 0 {
                assert(r[i] == s[i - 1]);
                assert(r[j] == s[j - 1]);
            } else {
                assert(r[j] == s[j - 1]);
                if j > 1 {
                    assert(cursor_lt(s[0], s[j - 1]));
                }
            }
        }
        assert forall|q: CursorView| r.contains(q) implies (s.contains(q) || q == c) by {
            let i = choose|i: int| 0 <= i < r.len() && r[i] == q;
            if i > 0 {
                assert(s[i - 1] == q);
            }
        }
        assert forall|q: CursorView| (s.contains(q) || q == c) implies r.contains(q) by {
            if s.contains(q) {
                let i = choose|i: int| 0 <= i < s.len() && s[i] == q;
                assert(r[i + 1] == q);
            } else {
                assert(r[0] == q);
            }
        }
    } else {
        let rest = insert_cursor(s.drop_first(), c);
        assert(cursors_sorted(s.drop_first())) by {
            assert(forall|i: int|
                0 <= i < s.drop_first().len() ==> #[trigger] s.drop_first()[i] == s[i + 1]);
        }
        lemma_insert_cursor(s.drop_first(), c);
        assert(r == seq![s[0]] + rest);
        assert(cursor_lt(s[0], c)) by {
            lemma_cursor_order_total(c, s[0]);
        }
        assert(r.contains(c)) by {
            assert(rest.contains(c));
            let k = choose|k: int| 0 <= k < rest.len() && rest[k] == c;
            assert(r[k + 1] == c);
        }
        assert forall|i: int, j: int| 0 <= i < j < r.len() implies cursor_lt(r[i], r[j]) by {
            if i > 0 {
                assert(r[i] == rest[i - 1]);
                assert(r[j] == rest[j - 1]);
            } else {
                assert(r[j] == rest[j - 1]);
                assert(rest.contains(rest[j - 1]));
                assert(s.drop_first().contains(rest[j - 1]) || rest[j - 1] == c);
                if s.drop_first().contains(rest[j - 1]) {
                    let k = choose|k: int|
                        0 <= k < s.drop_first().len() && s.drop_first()[k] == rest[j - 1];
                    assert(s[k + 1] == rest[j - 1]);
                    assert(cursor_lt(s[0], s[k + 1]));
                }
            }
        }
        assert forall|q: CursorView| r.contains(q) implies (s.contains(q) || q == c) by {
            let i = choose|i: int| 0 <= i < r.len() && r[i] == q;
            if i == 0 {
                assert(s[0] == q);
            } else {
                assert(rest[i - 1] == q);
                assert(rest.contains(q));
                if s.drop_first().contains(q) {
                    let k = choose|k: int|
                        0 <= k < s.drop_first().len() && s.drop_first()[k] == q;
                    assert(s[k + 1] == q);
                }
            }
        }
        assert forall|q: CursorView| (s.contains(q) || q == c) implies r.contains(q) by {
            if s.contains(q) && q != c {
                let i = choose|i: int| 0 <= i < s.len() && s[i] == q;
                if i == 0 {
                    assert(r[0] == q);
                } else {
                    assert(s.drop_first()[i - 1] == q);
                    assert(s.drop_first().contains(q));
                    assert(rest.contains(q));
                    let k = choose|k: int| 0 <= k < rest.len() && rest[k] == q;
                    assert(r[k + 1] == q);
                }
            } else {
                assert(rest.contains(c));
                let k = choose|k: int| 0 <= k < rest.len() && rest[k] == c;
                assert(r[k + 1] == c);
            }
        }
    }
}

/// Distinct cursors are ordered one way or the other.
pub proof fn lemma_cursor_order_total(a: CursorView, b: CursorView)
    requires
        a != b,
        !cursor_lt(a, b),
    ensures
        cursor_lt(b, a),
{
    if cursor_start(a) == cursor_start(b) && cursor_end(a) == cursor_end(b) && a.head == b.head {
        assert(a.anchor == b.anchor) by {
            if size_le(a.anchor, a.head) && size_le(b.anchor, b.head) {
            } else if !size_le(a.anchor, a.head) && !size_le(b.anchor, b.head) {
            } else {
            }
        }
    }
}

/// Everything a normalized cursor sequence holds fits wherever the original
/// cursors fit.
pub proof fn lemma_normalize_fits(t: Seq<Seq<char>>, s: Seq<CursorView>)
    requires
        cursors_fit(t, s),
    ensures
        cursors_fit(t, normalize_cursors(s)),
{
    lemma_normalize_cursors(s);
    let ns = normalize_cursors(s);
    assert forall|i: int| 0 <= i < ns.len() implies size_fits((#[trigger] ns[i]).head, t)
        && size_fits(ns[i].anchor, t) by {
        assert(ns.contains(ns[i]));
        assert(s.contains(ns[i]));
        let j = choose|j: int| 0 <= j < s.len() && s[j] == ns[i];
        assert(size_fits(s[j].head, t));
    }
}

pub proof fn lemma_normalize_cursors(s: Seq<CursorView>)
    ensures
        cursors_sorted(normalize_cursors(s)),
        forall|q: CursorView| normalize_cursors(s).contains(q) <==> s.contains(q),
    decreases s.len(),
{
    if s.len() > 0 {
        lemma_normalize_cursors(s.drop_last());
        lemma_insert_cursor(normalize_cursors(s.drop_last()), s.last());
        assert forall|q: CursorView| normalize_cursors(s).contains(q) implies s.contains(q) by {
            if s.drop_last().contains(q) {
                let i = choose|i: int| 0 <= i < s.drop_last().len() && s.drop_last()[i] == q;
                assert(s[i] == q);
            } else {
                assert(s[s.len() - 1] == q);
            }
        }
        assert forall|q: CursorView| s.contains(q) implies normalize_cursors(s).contains(q) by {
            let i = choose|i: int| 0 <= i < s.len() && s[i] == q;
            if i < s.len() - 1 {
                assert(s.drop_last()[i] == q);
                assert(s.drop_last().contains(q));
                assert(normalize_cursors(s.drop_last()).contains(q));
            } else {
                assert(q == s.last());
            }
        }
    }
}

pub proof fn lemma_cursors_deep_view(v: &Vec<Cursor>)
    ensures
        v.deep_view().len() == v@.len(),
        forall|i: int| 0 <= i < v@.len() ==> #[trigger] v.deep_view()[i] == v@[i]@,
{
}

fn cursor_lt_exec(a: &Cursor, b: &Cursor) -> (r: bool)
    ensures
        r == cursor_lt(a@, b@),
{
    let sa = a.anchor.min(a.head);
    let ea = a.anchor.max(a.head);
    let sb = b.anchor.min(b.head);
    let eb = b.anchor.max(b.head);
    sa.lt(&sb) || (sa == sb && ea.lt(&eb)) || (sa == sb && ea == eb && a.head.lt(&b.head))
}

/// A copy of `cursors[from..to]`.
fn copy_cursors_range(cursors: &Vec<Cursor>, from: usize, to: usize) -> (r: Vec<Cursor>)
    requires
        from <= to <= cursors@.len(),
    ensures
        r.deep_view() == cursors.deep_view().subrange(from as int, to as int),
        r@.len() == to - from,
{
    let mut out: Vec<Cursor> = Vec::new();
    let mut i: usize = from;
    while i < to
        invariant
            from <= i <= to <= cursors@.len(),
            out@.len() == i - from,
            forall|j: int| 0 <= j < i - from ==> (#[trigger] out@[j])@ == cursors@[from + j]@,
        decreases to - i,
    {
        let ghost prev_v = out@;
        out.push(cursors[i]);
        i = i + 1;
        proof {
            assert(forall|j: int| 0 <= j < prev_v.len() ==> #[trigger] out@[j] == prev_v[j]);
        }
    }
    proof {
        lemma_cursors_deep_view(cursors);
        lemma_cursors_deep_view(&out);
        assert(out.deep_view() =~= cursors.deep_view().subrange(from as int, to as int));
    }
    out
}

/// Unfolding `insert_cursor` along a sorted prefix entirely below `c`.
proof fn lemma_cursor_insert_append(s: Seq<CursorView>, c: CursorView, i: int)
    requires
        cursors_sorted(s),
        0 <= i == s.len(),
        forall|j: int| 0 <= j < i ==> cursor_lt(#[trigger] s[j], c),
    ensures
        insert_cursor(s, c) == s + seq![c],
    decreases s.len(),
{
    if s.len() == 0 {
        assert(insert_cursor(s, c) =~= s + seq![c]);
    } else {
        assert(cursor_lt(s[0], c));
        assert(c != s[0] && !cursor_lt(c, s[0])) by {
            if c == s[0] || cursor_lt(c, s[0]) {
                lemma_cursor_order_irrefl(s[0], c);
            }
        }
        assert(forall|j: int|
            0 <= j < s.drop_first().len() ==> #[trigger] s.drop_first()[j] == s[j + 1]);
        lemma_cursor_insert_append(s.drop_first(), c, i - 1);
        assert(insert_cursor(s, c) =~= s + seq![c]);
    }
}

/// Unfolding `insert_cursor` when `c` already stands at index `i`.
proof fn lemma_cursor_insert_found(s: Seq<CursorView>, c: CursorView, i: int)
    requires
        cursors_sorted(s),
        0 <= i < s.len(),
        s[i] == c,
        forall|j: int| 0 <= j < i ==> cursor_lt(#[trigger] s[j], c),
    ensures
        insert_cursor(s, c) == s,
    decreases i,
{
    if i == 0 {
    } else {
        assert(cursor_lt(s[0], c));
        assert(c != s[0] && !cursor_lt(c, s[0])) by {
            if c == s[0] || cursor_lt(c, s[0]) {
                lemma_cursor_order_irrefl(s[0], c);
            }
        }
        assert(forall|j: int|
            0 <= j < s.drop_first().len() ==> #[trigger] s.drop_first()[j] == s[j + 1]);
        lemma_cursor_insert_found(s.drop_first(), c, i - 1);
        assert(insert_cursor(s, c) =~= s);
    }
}

/// Unfolding `insert_cursor` when `c` belongs just before index `i`.
proof fn lemma_cursor_insert_middle(s: Seq<CursorView>, c: CursorView, i: int)
    requires
        cursors_sorted(s),
        0 <= i < s.len(),
        cursor_lt(c, s[i]),
        s[i] != c,
        forall|j: int| 0 <= j < i ==> cursor_lt(#[trigger] s[j], c),
    ensures
        insert_cursor(s, c) == s.take(i) + seq![c] + s.skip(i),
    decreases i,
{
    if i == 0 {
        assert(c != s[0]) by {
            if c == s[0] {
                lemma_cursor_order_irrefl(c, s[0]);
            }
        }
        assert(insert_cursor(s, c) =~= s.take(0) + seq![c] + s.skip(0));
    } else {
        assert(cursor_lt(s[0], c));
        assert(c != s[0] && !cursor_lt(c, s[0])) by {
            if c == s[0] || cursor_lt(c, s[0]) {
                lemma_cursor_order_irrefl(s[0], c);
            }
        }
        assert(forall|j: int|
            0 <= j < s.drop_first().len() ==> #[trigger] s.drop_first()[j] == s[j + 1]);
        lemma_cursor_insert_middle(s.drop_first(), c, i - 1);
        assert(s.drop_first().take(i - 1) =~= s.take(i).drop_first());
        assert(s.drop_first().skip(i - 1) =~= s.skip(i));
        assert(insert_cursor(s, c) =~= s.take(i) + seq![c] + s.skip(i));
    }
}

/// The cursor order is irreflexive and asymmetric.
proof fn lemma_cursor_order_irrefl(a: CursorView, b: CursorView)
    requires
        cursor_lt(a, b),
    ensures
        a != b,
        !cursor_lt(b, a),
{
}

/// A new vector with `c` inserted into sorted `cursors`.
fn insert_cursor_exec(cursors: &Vec<Cursor>, c: Cursor) -> (r: Vec<Cursor>)
    requires
        cursors_sorted(cursors.deep_view()),
    ensures
        r.deep_view() == insert_cursor(cursors.deep_view(), c@),
{
    let ghost pre = cursors.deep_view();
    proof {
        lemma_cursors_deep_view(cursors);
    }
    let mut i: usize = 0;
    while i < cursors.len() && cursor_lt_exec(&cursors[i], &c)
        invariant
            i <= cursors@.len(),
            pre == cursors.deep_view(),
            pre.len() == cursors@.len(),
            forall|j: int| 0 <= j < pre.len() ==> #[trigger] pre[j] == cursors@[j]@,
            cursors_sorted(pre),
            forall|j: int| 0 <= j < i ==> cursor_lt(#[trigger] pre[j], c@),
        decreases cursors@.len() - i,
    {
        i = i + 1;
    }
    if i < cursors.len() && cursors[i] == c {
        proof {
            lemma_cursor_insert_found(pre, c@, i as int);
        }
        return copy_cursors_range(cursors, 0, cursors.len());
    }
    let mut out = copy_cursors_range(cursors, 0, i);
    let ghost first = out.deep_view();
    let ghost first_v = out@;
    out.push(c);
    proof {
        lemma_cursors_deep_view(&out);
        assert(forall|j: int| 0 <= j < first_v.len() ==> #[trigger] out@[j] == first_v[j]);
        assert(out.deep_view() =~= first.push(c@));
    }
    let ghost mid = out.deep_view();
    let ghost mid_v = out@;
    let mut rest = copy_cursors_range(cursors, i, cursors.len());
    let ghost rest_dv = rest.deep_view();
    let ghost rest_v = rest@;
    out.append(&mut rest);
    proof {
        lemma_cursors_deep_view(&out);
        assert(out@ == mid_v + rest_v);
        assert(forall|j: int| 0 <= j < mid_v.len() ==> #[trigger] out@[j] == mid_v[j]);
        assert(forall|j: int|
            mid_v.len() <= j < out@.len() ==> #[trigger] out@[j] == rest_v[j - mid_v.len()]);
        assert(out.deep_view() =~= mid + rest_dv);
        assert(pre.subrange(0, i as int) =~= pre.take(i as int));
        assert(pre.subrange(i as int, pre.len() as int) =~= pre.skip(i as int));
        if i < pre.len() {
            assert(!cursor_lt(pre[i as int], c@));
            assert(pre[i as int] != c@);
            lemma_cursor_order_total(pre[i as int], c@);
            lemma_cursor_insert_middle(pre, c@, i as int);
            assert(out.deep_view() =~= pre.take(i as int) + seq![c@] + pre.skip(i as int));
        } else {
            lemma_cursor_insert_append(pre, c@, i as int);
            assert(out.deep_view() =~= pre + seq![c@]);
        }
    }
    out
}

/// The sorted, deduplicated vector of the given cursors.
fn normalize_cursors_exec(input: &Vec<Cursor>) -> (r: Vec<Cursor>)
    ensures
        r.deep_view() == normalize_cursors(input.deep_view()),
        cursors_sorted(r.deep_view()),
{
    let ghost full = input.deep_view();
    proof {
        lemma_cursors_deep_view(input);
        lemma_normalize_cursors(full);
    }
    let mut out: Vec<Cursor> = Vec::new();
    proof {
        assert(out.deep_view() =~= Seq::<CursorView>::empty());
        assert(full.take(0) =~= Seq::<CursorView>::empty());
    }
    let mut i: usize = 0;
    while i < input.len()
        invariant
            i <= input@.len(),
            full == input.deep_view(),
            full.len() == input@.len(),
            forall|j: int| 0 <= j < full.len() ==> #[trigger] full[j] == input@[j]@,
            out.deep_view() == normalize_cursors(full.take(i as int)),
            cursors_sorted(out.deep_view()),
        decreases input@.len() - i,
    {
        proof {
            lemma_normalize_cursors(full.take(i as int));
            assert(full.take(i as int + 1).drop_last() =~= full.take(i as int));
            assert(full.take(i as int + 1).last() == full[i as int]);
        }
        let next = insert_cursor_exec(&out, input[i]);
        proof {
            lemma_insert_cursor(out.deep_view(), full[i as int]);
        }
        out = next;
        i = i + 1;
    }
    proof {
        assert(full.take(i as int) =~= full);
    }
    out
}

// ---------------------------------------------------------------------------
// The cursor set.
// ---------------------------------------------------------------------------

/// A direction of cursor movement.
#[derive(Clone, Copy, PartialEq, Eq, Structural, Debug)]
pub enum Direction {
    Left,
    Right,
    Up,
    Down,
}

/// Where a head lands when moved one unit in a direction. Movement past the
/// edges of the text is clamped silently.
pub open spec fn head_moved(t: Seq<Seq<char>>, p: SizeView, direction: Direction) -> SizeView {
    match direction {
        Direction::Left => if p.column > 0 {
            SizeView { line: p.line, column: (p.column - 1) as nat }
        } else if p.line > 0 {
            SizeView { line: (p.line - 1) as nat, column: t[p.line - 1].len() }
        } else {
            p
        },
        Direction::Right => if p.column < t[p.line as int].len() {
            SizeView { line: p.line, column: p.column + 1 }
        } else if p.line + 1 < t.len() {
            SizeView { line: p.line + 1, column: 0 }
        } else {
            p
        },
        Direction::Up => if p.line > 0 {
            SizeView {
                line: (p.line - 1) as nat,
                column: if p.column <= t[p.line - 1].len() {
                    p.column
                } else {
                    t[p.line - 1].len()
                },
            }
        } else {
            p
        },
        Direction::Down => if p.line + 1 < t.len() {
            SizeView {
                line: p.line + 1,
                column: if p.column <= t[p.line as int + 1].len() {
                    p.column
                } else {
                    t[p.line as int + 1].len()
                },
            }
        } else {
            p
        },
    }
}

/// A moved cursor: the head moves one unit; without `select` the anchor
/// collapses onto the head.
pub open spec fn cursor_moved(
    t: Seq<Seq<char>>,
    c: CursorView,
    direction: Direction,
    select: bool,
) -> CursorView {
    let h = head_moved(t, c.head, direction);
    CursorView { head: h, anchor: if select { c.anchor } else { h } }
}

fn head_moved_exec(text: &Text, p: Position, direction: Direction) -> (r: Position)
    requires
        text.wf(),
        size_fits(p@, text@),
    ensures
        r@ == head_moved(text@, p@, direction),
        size_fits(r@, text@),
{
    match direction {
        Direction::Left => {
            if p.column > 0 {
                Position { line: p.line, column: p.column - 1 }
            } else if p.line > 0 {
                Position { line: p.line - 1, column: text.line_len(p.line - 1) }
            } else {
                p
            }
        },
        Direction::Right => {
            if p.column < text.line_len(p.line) {
                Position { line: p.line, column: p.column + 1 }
            } else if p.line < text.line_count() - 1 {
                Position { line: p.line + 1, column: 0 }
            } else {
                p
            }
        },
        Direction::Up => {
            if p.line > 0 {
                let limit = text.line_len(p.line - 1);
                Position {
                    line: p.line - 1,
                    column: if p.column <= limit {
                        p.column
                    } else {
                        limit
                    },
                }
            } else {
                p
            }
        },
        Direction::Down => {
            if p.line < text.line_count() - 1 {
                let limit = text.line_len(p.line + 1);
                Position {
                    line: p.line + 1,
                    column: if p.column <= limit {
                        p.column
                    } else {
                        limit
                    },
                }
            } else {
                p
            }
        },
    }
}

/// An ordered set of cursors: strictly ascending by (start, end, head), so
/// deduplicated. A session holds one cursor set over its document.
#[derive(Debug)]
pub struct CursorSet {
    cursors: Vec<Cursor>,
}

impl View for CursorSet {
    type V = Seq<CursorView>;

    closed spec fn view(&self) -> Seq<CursorView> {
        self.cursors.deep_view()
    }
}

impl Clone for CursorSet {
    fn clone(&self) -> (r: CursorSet)
        ensures
            r@ == self@,
    {
        proof {
            use_type_invariant(self);
        }
        CursorSet { cursors: copy_cursors_range(&self.cursors, 0, self.cursors.len()) }
    }
}

impl CursorSet {
    #[verifier::type_invariant]
    pub open spec fn type_inv(&self) -> bool {
        cursors_sorted(self@)
    }

    pub open spec fn wf(&self) -> bool {
        cursors_sorted(self@)
    }

    /// A single zero-width cursor at the origin.
    pub fn new() -> (r: CursorSet)
        ensures
            r@ == seq![CursorView { head: size_zero(), anchor: size_zero() }],
    {
        let mut cursors: Vec<Cursor> = Vec::new();
        cursors.push(Cursor { head: Position::origin(), anchor: Position::origin() });
        let r = CursorSet { cursors };
        proof {
            assert(r@ =~= seq![CursorView { head: size_zero(), anchor: size_zero() }]);
        }
        r
    }

    pub fn cursor_count(&self) -> (r: usize)
        ensures
            r == self@.len(),
    {
        self.cursors.len()
    }

    pub fn get(&self, i: usize) -> (r: Cursor)
        requires
            i < self@.len(),
        ensures
            r@ == self@[i as int],
    {
        proof {
            lemma_cursors_deep_view(&self.cursors);
        }
        self.cursors[i]
    }

    /// Introduces a new zero-width cursor; existing cursors are preserved.
    pub fn add(&mut self, position: Position)
        ensures
            final(self)@ == insert_cursor(
                old(self)@,
                CursorView { head: position@, anchor: position@ },
            ),
            forall|q: CursorView|
                final(self)@.contains(q) <==> (old(self)@.contains(q) || q == CursorView {
                    head: position@,
                    anchor: position@,
                }),
    {
        proof {
            use_type_invariant(&*self);
            lemma_insert_cursor(self@, CursorView { head: position@, anchor: position@ });
        }
        let cursors = insert_cursor_exec(
            &self.cursors,
            Cursor { head: position, anchor: position },
        );
        *self = CursorSet { cursors };
    }

    /// Moves every cursor's head one unit in `direction`, clamped at the
    /// text's edges; without `select`, anchors collapse onto the heads.
    pub fn moved(&mut self, text: &Text, direction: Direction, select: bool)
        requires
            text.wf(),
            cursors_fit(text@, old(self)@),
        ensures
            final(self)@ == normalize_cursors(
                old(self)@.map_values(|c: CursorView| cursor_moved(text@, c, direction, select)),
            ),
            cursors_fit(text@, final(self)@),
    {
        proof {
            use_type_invariant(&*self);
            lemma_cursors_deep_view(&self.cursors);
        }
        let ghost pre = self@;
        let ghost mapped = pre.map_values(
            |c: CursorView| cursor_moved(text@, c, direction, select),
        );
        let mut moved: Vec<Cursor> = Vec::new();
        let mut i: usize = 0;
        while i < self.cursors.len()
            invariant
                i <= self.cursors@.len(),
                pre == self@,
                pre == self.cursors.deep_view(),
                pre.len() == self.cursors@.len(),
                forall|j: int| 0 <= j < pre.len() ==> #[trigger] pre[j] == self.cursors@[j]@,
                text.wf(),
                cursors_fit(text@, pre),
                mapped == pre.map_values(
                    |c: CursorView| cursor_moved(text@, c, direction, select),
                ),
                moved@.len() == i,
                forall|j: int| 0 <= j < i ==> (#[trigger] moved@[j])@ == mapped[j],
            decreases self.cursors@.len() - i,
        {
            let c = self.cursors[i];
            proof {
                assert(c@ == pre[i as int]);
                assert(size_fits(pre[i as int].head, text@));
            }
            let h = head_moved_exec(text, c.head, direction);
            let a = if select {
                c.anchor
            } else {
                h
            };
            let ghost prev_v = moved@;
            moved.push(Cursor { head: h, anchor: a });
            i = i + 1;
            proof {
                assert(forall|j: int|
                    0 <= j < prev_v.len() ==> #[trigger] moved@[j] == prev_v[j]);
            }
        }
        proof {
            lemma_cursors_deep_view(&moved);
            assert(moved.deep_view() =~= mapped);
            assert forall|j: int| 0 <= j < mapped.len() implies size_fits(
                (#[trigger] mapped[j]).head,
                text@,
            ) && size_fits(mapped[j].anchor, text@) by {
                assert(mapped[j] == cursor_moved(text@, pre[j], direction, select));
            }
            lemma_normalize_fits(text@, mapped);
        }
        let cursors = normalize_cursors_exec(&moved);
        *self = CursorSet { cursors };
    }

    /// Sets every cursor's head to `position`. Without `select`, the set
    /// collapses to a single cursor there; with it, the primary (last)
    /// cursor's head moves and its anchor stays.
    pub fn move_to(&mut self, position: Position, select: bool)
        requires
            old(self)@.len() > 0,
        ensures
            !select ==> final(self)@ == seq![
                CursorView { head: position@, anchor: position@ },
            ],
            select ==> final(self)@ == normalize_cursors(
                old(self)@.drop_last().push(
                    CursorView {
                        head: position@,
                        anchor: old(self)@.last().anchor,
                    },
                ),
            ),
            final(self)@.len() > 0,
    {
        proof {
            use_type_invariant(&*self);
            lemma_cursors_deep_view(&self.cursors);
        }
        if !select {
            let mut cursors: Vec<Cursor> = Vec::new();
            cursors.push(Cursor { head: position, anchor: position });
            let r = CursorSet { cursors };
            proof {
                assert(r@ =~= seq![CursorView { head: position@, anchor: position@ }]);
            }
            *self = r;
        } else {
            let ghost pre = self@;
            let last = self.cursors[self.cursors.len() - 1];
            let mut moved = copy_cursors_range(&self.cursors, 0, self.cursors.len() - 1);
            let ghost prev_v = moved@;
            moved.push(Cursor { head: position, anchor: last.anchor });
            proof {
                lemma_cursors_deep_view(&moved);
                assert(forall|j: int|
                    0 <= j < prev_v.len() ==> #[trigger] moved@[j] == prev_v[j]);
                assert(pre.subrange(0, pre.len() - 1) =~= pre.drop_last());
                assert(moved.deep_view() =~= pre.drop_last().push(
                    CursorView { head: position@, anchor: pre.last().anchor },
                ));
                lemma_normalize_cursors(moved.deep_view());
                assert(normalize_cursors(moved.deep_view()).contains(
                    moved.deep_view().last(),
                )) by {
                    assert(moved.deep_view().contains(moved.deep_view().last()));
                }
            }
            let cursors = normalize_cursors_exec(&moved);
            let r = CursorSet { cursors };
            proof {
                assert(r@.len() > 0) by {
                    assert(r@.contains(moved.deep_view().last()));
                }
            }
            *self = r;
        }
    }

    /// Remaps every cursor through the delta: the session that authored the
    /// edit keeps its carets after what it typed (`Ours`); a foreign session's
    /// carets keep their logical position (`Theirs`).
    pub fn apply_delta(
        &mut self,
        delta: &Delta,
        whose: Whose,
        Ghost(base): Ghost<Seq<Seq<char>>>,
    )
        requires
            ops_wf(base, delta@),
            cursors_fit(base, old(self)@),
            text_fits_usize(apply_ops(base, delta@)),
        ensures
            final(self)@ == normalize_cursors(
                old(self)@.map_values(
                    |c: CursorView|
                        CursorView {
                            head: pos_xform(c.head, delta@, whose),
                            anchor: pos_xform(c.anchor, delta@, whose),
                        },
                ),
            ),
            cursors_fit(apply_ops(base, delta@), final(self)@),
    {
        proof {
            use_type_invariant(&*self);
            lemma_cursors_deep_view(&self.cursors);
        }
        let ghost pre = self@;
        let ghost mapped = pre.map_values(
            |c: CursorView|
                CursorView {
                    head: pos_xform(c.head, delta@, whose),
                    anchor: pos_xform(c.anchor, delta@, whose),
                },
        );
        let mut moved: Vec<Cursor> = Vec::new();
        let mut i: usize = 0;
        while i < self.cursors.len()
            invariant
                i <= self.cursors@.len(),
                pre == self@,
                pre == self.cursors.deep_view(),
                pre.len() == self.cursors@.len(),
                forall|j: int| 0 <= j < pre.len() ==> #[trigger] pre[j] == self.cursors@[j]@,
                ops_wf(base, delta@),
                cursors_fit(base, pre),
                text_fits_usize(apply_ops(base, delta@)),
                mapped == pre.map_values(
                    |c: CursorView|
                        CursorView {
                            head: pos_xform(c.head, delta@, whose),
                            anchor: pos_xform(c.anchor, delta@, whose),
                        },
                ),
                moved@.len() == i,
                forall|j: int| 0 <= j < i ==> (#[trigger] moved@[j])@ == mapped[j],
            decreases self.cursors@.len() - i,
        {
            let c = self.cursors[i];
            proof {
                assert(c@ == pre[i as int]);
                assert(size_fits(pre[i as int].head, base) && size_fits(
                    pre[i as int].anchor,
                    base,
                ));
            }
            let h = transform_position(c.head, delta, whose, Ghost(base));
            let a = transform_position(c.anchor, delta, whose, Ghost(base));
            let ghost prev_v = moved@;
            moved.push(Cursor { head: h, anchor: a });
            i = i + 1;
            proof {
                assert(forall|j: int|
                    0 <= j < prev_v.len() ==> #[trigger] moved@[j] == prev_v[j]);
            }
        }
        proof {
            lemma_cursors_deep_view(&moved);
            assert(moved.deep_view() =~= mapped);
            assert forall|j: int| 0 <= j < mapped.len() implies size_fits(
                (#[trigger] mapped[j]).head,
                apply_ops(base, delta@),
            ) && size_fits(mapped[j].anchor, apply_ops(base, delta@)) by {
                assert(mapped[j] == CursorView {
                    head: pos_xform(pre[j].head, delta@, whose),
                    anchor: pos_xform(pre[j].anchor, delta@, whose),
                });
                lemma_pos_xform_fits(base, pre[j].head, delta@, whose);
                lemma_pos_xform_fits(base, pre[j].anchor, delta@, whose);
            }
            lemma_normalize_fits(apply_ops(base, delta@), mapped);
        }
        let cursors = normalize_cursors_exec(&moved);
        *self = CursorSet { cursors };
    }
}

// ---------------------------------------------------------------------------
// Remapping stored cursor snapshots.
// ---------------------------------------------------------------------------

/// Addition of displacements, clamped at the machine bound in each
/// component.
pub open spec fn size_add_clamped(a: SizeView, b: SizeView) -> SizeView {
    let s = size_add(a, b);
    SizeView {
        line: if s.line <= usize::MAX {
            s.line
        } else {
            usize::MAX as nat
        },
        column: if s.column <= usize::MAX {
            s.column
        } else {
            usize::MAX as nat
        },
    }
}

/// Like `pos_xform`, with each step clamped at the machine bound. Stored
/// cursor snapshots are remapped with this total map: their positions may
/// predate the text the delta reads, so nothing ties them to its measures.
pub open spec fn pos_xform_clamped(p: SizeView, ops: Seq<OpView>, whose: Whose) -> SizeView
    decreases ops.len(),
{
    if ops.len() == 0 {
        p
    } else {
        match ops[0] {
            OpView::Retain(n) => if size_lt(p, n) {
                p
            } else {
                size_add_clamped(n, pos_xform_clamped(size_sub(p, n), ops.drop_first(), whose))
            },
            OpView::Insert(s) => if p == size_zero() && whose == Whose::Theirs {
                size_zero()
            } else {
                size_add_clamped(
                    text_len_of(s),
                    pos_xform_clamped(p, ops.drop_first(), whose),
                )
            },
            OpView::Delete(n) => if size_lt(p, n) {
                size_zero()
            } else {
                pos_xform_clamped(size_sub(p, n), ops.drop_first(), whose)
            },
        }
    }
}

fn saturating_plus(a: usize, b: usize) -> (r: usize)
    ensures
        r as nat == if a + b <= usize::MAX {
            (a + b) as nat
        } else {
            usize::MAX as nat
        },
{
    if a <= usize::MAX - b {
        a + b
    } else {
        usize::MAX
    }
}

fn join_clamped(n: Size, x: Position) -> (r: Position)
    ensures
        r@ == size_add_clamped(n@, x@),
{
    if x.line == 0 {
        Position { line: n.line, column: saturating_plus(n.column, x.column) }
    } else {
        Position { line: saturating_plus(n.line, x.line), column: x.column }
    }
}

fn xform_clamped_rec(p: Position, operations: &Vec<Operation>, i: usize, whose: Whose) -> (r:
    Position)
    requires
        i <= operations@.len(),
    ensures
        r@ == pos_xform_clamped(p@, operations.deep_view().skip(i as int), whose),
    decreases operations@.len() - i,
{
    let ghost ops = operations.deep_view().skip(i as int);
    if i == operations.len() {
        p
    } else {
        assert(ops[0] == operations.deep_view()[i as int]);
        assert(ops.drop_first() =~= operations.deep_view().skip(i as int + 1));
        match &operations[i] {
            Operation::Retain(n) => {
                let inside = p.line < n.line || (p.line == n.line && p.column < n.column);
                if inside {
                    p
                } else {
                    let p2 = if p.line == n.line {
                        Position { line: 0, column: p.column - n.column }
                    } else {
                        Position { line: p.line - n.line, column: p.column }
                    };
                    let x = xform_clamped_rec(p2, operations, i + 1, whose);
                    join_clamped(*n, x)
                }
            },
            Operation::Insert(s) => {
                if p.line == 0 && p.column == 0 && whose == Whose::Theirs {
                    Position::origin()
                } else {
                    proof {
                        use_type_invariant(s);
                    }
                    let measure = s.len();
                    let x = xform_clamped_rec(p, operations, i + 1, whose);
                    join_clamped(measure, x)
                }
            },
            Operation::Delete(n) => {
                let inside = p.line < n.line || (p.line == n.line && p.column < n.column);
                if inside {
                    Position::origin()
                } else {
                    let p2 = if p.line == n.line {
                        Position { line: 0, column: p.column - n.column }
                    } else {
                        Position { line: p.line - n.line, column: p.column }
                    };
                    xform_clamped_rec(p2, operations, i + 1, whose)
                }
            },
        }
    }
}

impl CursorSet {
    /// Remaps a stored cursor snapshot through the delta, clamping at the
    /// machine bound: a snapshot may predate the text the delta reads, so
    /// its positions carry no measure to hold the arithmetic to.
    pub fn apply_delta_clamped(&mut self, delta: &Delta, whose: Whose)
        ensures
            final(self)@ == normalize_cursors(
                old(self)@.map_values(
                    |c: CursorView|
                        CursorView {
                            head: pos_xform_clamped(c.head, delta@, whose),
                            anchor: pos_xform_clamped(c.anchor, delta@, whose),
                        },
                ),
            ),
    {
        proof {
            use_type_invariant(&*self);
            lemma_cursors_deep_view(&self.cursors);
        }
        let ghost pre = self@;
        let ghost mapped = pre.map_values(
            |c: CursorView|
                CursorView {
                    head: pos_xform_clamped(c.head, delta@, whose),
                    anchor: pos_xform_clamped(c.anchor, delta@, whose),
                },
        );
        let ops = delta.operations();
        proof {
            assert(ops.deep_view().skip(0) =~= delta@);
        }
        let mut moved: Vec<Cursor> = Vec::new();
        let mut i: usize = 0;
        while i < self.cursors.len()
            invariant
                i <= self.cursors@.len(),
                pre == self@,
                pre == self.cursors.deep_view(),
                pre.len() == self.cursors@.len(),
                forall|j: int| 0 <= j < pre.len() ==> #[trigger] pre[j] == self.cursors@[j]@,
                ops.deep_view() == delta@,
                ops@.len() == delta@.len(),
                mapped == pre.map_values(
                    |c: CursorView|
                        CursorView {
                            head: pos_xform_clamped(c.head, delta@, whose),
                            anchor: pos_xform_clamped(c.anchor, delta@, whose),
                        },
                ),
                moved@.len() == i,
                forall|j: int| 0 <= j < i ==> (#[trigger] moved@[j])@ == mapped[j],
            decreases self.cursors@.len() - i,
        {
            let c = self.cursors[i];
            proof {
                assert(c@ == pre[i as int]);
                assert(ops.deep_view().skip(0) =~= delta@);
            }
            let h = xform_clamped_rec(c.head, ops, 0, whose);
            let a = xform_clamped_rec(c.anchor, ops, 0, whose);
            let ghost prev_v = moved@;
            moved.push(Cursor { head: h, anchor: a });
            i = i + 1;
            proof {
                assert(forall|j: int|
                    0 <= j < prev_v.len() ==> #[trigger] moved@[j] == prev_v[j]);
            }
        }
        proof {
            lemma_cursors_deep_view(&moved);
            assert(moved.deep_view() =~= mapped);
        }
        let cursors = normalize_cursors_exec(&moved);
        *self = CursorSet { cursors };
    }

    /// Clamps every cursor position into the given text: a line past the end
    /// moves to the last line, a column past a line's end to the line's end.
    /// Out-of-range positions are clamped silently, never an error.
    pub fn clamped_to(&mut self, text: &Text)
        requires
            text.wf(),
        ensures
            final(self)@ == normalize_cursors(
                old(self)@.map_values(
                    |c: CursorView|
                        CursorView {
                            head: clamp_pos(text@, c.head),
                            anchor: clamp_pos(text@, c.anchor),
                        },
                ),
            ),
            cursors_fit(text@, final(self)@),
    {
        proof {
            use_type_invariant(&*self);
            lemma_cursors_deep_view(&self.cursors);
        }
        let ghost pre = self@;
        let ghost mapped = pre.map_values(
            |c: CursorView|
                CursorView { head: clamp_pos(text@, c.head), anchor: clamp_pos(text@, c.anchor) },
        );
        let mut moved: Vec<Cursor> = Vec::new();
        let mut i: usize = 0;
        while i < self.cursors.len()
            invariant
                i <= self.cursors@.len(),
                pre == self@,
                pre == self.cursors.deep_view(),
                pre.len() == self.cursors@.len(),
                forall|j: int| 0 <= j < pre.len() ==> #[trigger] pre[j] == self.cursors@[j]@,
                text.wf(),
                mapped == pre.map_values(
                    |c: CursorView|
                        CursorView {
                            head: clamp_pos(text@, c.head),
                            anchor: clamp_pos(text@, c.anchor),
                        },
                ),
                moved@.len() == i,
                forall|j: int| 0 <= j < i ==> (#[trigger] moved@[j])@ == mapped[j],
            decreases self.cursors@.len() - i,
        {
            let c = self.cursors[i];
            proof {
                assert(c@ == pre[i as int]);
            }
            let h = clamp_pos_exec(text, c.head);
            let a = clamp_pos_exec(text, c.anchor);
            let ghost prev_v = moved@;
            moved.push(Cursor { head: h, anchor: a });
            i = i + 1;
            proof {
                assert(forall|j: int|
                    0 <= j < prev_v.len() ==> #[trigger] moved@[j] == prev_v[j]);
            }
        }
        proof {
            lemma_cursors_deep_view(&moved);
            assert(moved.deep_view() =~= mapped);
            assert forall|j: int| 0 <= j < mapped.len() implies size_fits(
                (#[trigger] mapped[j]).head,
                text@,
            ) && size_fits(mapped[j].anchor, text@) by {
                assert(mapped[j] == CursorView {
                    head: clamp_pos(text@, pre[j].head),
                    anchor: clamp_pos(text@, pre[j].anchor),
                });
            }
            lemma_normalize_fits(text@, mapped);
        }
        let cursors = normalize_cursors_exec(&moved);
        *self = CursorSet { cursors };
    }
}

/// The nearest position of `t` at or before `p`: the line clamped into the
/// text, then the column clamped into that line.
pub open spec fn clamp_pos(t: Seq<Seq<char>>, p: SizeView) -> SizeView {
    let line = if p.line < t.len() {
        p.line
    } else {
        (t.len() - 1) as nat
    };
    let column = if p.column <= t[line as int].len() {
        p.column
    } else {
        t[line as int].len()
    };
    SizeView { line, column }
}

fn clamp_pos_exec(text: &Text, p: Position) -> (r: Position)
    requires
        text.wf(),
    ensures
        r@ == clamp_pos(text@, p@),
        size_fits(r@, text@),
{
    let line = if p.line < text.line_count() {
        p.line
    } else {
        text.line_count() - 1
    };
    let limit = text.line_len(line);
    let column = if p.column <= limit {
        p.column
    } else {
        limit
    };
    Position { line, column }
}

// ---------------------------------------------------------------------------
// Deriving selections and carets.
// ---------------------------------------------------------------------------

/// The selection intervals of a cursor sequence, in order: one per cursor
/// with a selection; zero-width cursors contribute none.
pub open spec fn cursor_intervals(s: Seq<CursorView>) -> Seq<IntervalView>
    decreases s.len(),
{
    if s.len() == 0 {
        Seq::empty()
    } else {
        let rest = cursor_intervals(s.drop_first());
        if s[0].head == s[0].anchor {
            rest
        } else {
            seq![IntervalView { start: cursor_start(s[0]), end: cursor_end(s[0]) }] + rest
        }
    }
}

/// The spans a cursor sequence selects: its intervals, merged, cut into
/// alternating stretches.
pub open spec fn selections_spec(s: Seq<CursorView>) -> Seq<crate::range_set::SpanView> {
    spans_of(size_zero(), merge_intervals(cursor_intervals(s)))
}

/// The caret positions of a cursor sequence: its heads, sorted and
/// deduplicated.
pub open spec fn carets_spec(s: Seq<CursorView>) -> Seq<SizeView>
    decreases s.len(),
{
    if s.len() == 0 {
        Seq::empty()
    } else {
        insert_position(carets_spec(s.drop_last()), s.last().head)
    }
}

/// The intervals of a sorted, fitting cursor sequence are start-ordered and
/// fit the text.
pub proof fn lemma_cursor_intervals(t: Seq<Seq<char>>, s: Seq<CursorView>)
    requires
        cursors_sorted(s),
        cursors_fit(t, s),
    ensures
        intervals_start_sorted(cursor_intervals(s)),
        intervals_fit(t, cursor_intervals(s)),
        s.len() > 0 ==> forall|k: int|
            0 <= k < cursor_intervals(s).len() ==> size_le(
                cursor_start(s[0]),
                (#[trigger] cursor_intervals(s)[k]).start,
            ),
    decreases s.len(),
{
    if s.len() > 0 {
        let rest = cursor_intervals(s.drop_first());
        assert(cursors_sorted(s.drop_first()) && cursors_fit(t, s.drop_first())) by {
            assert(forall|i: int|
                0 <= i < s.drop_first().len() ==> #[trigger] s.drop_first()[i] == s[i + 1]);
        }
        lemma_cursor_intervals(t, s.drop_first());
        if s[0].head == s[0].anchor {
            assert forall|k: int| 0 <= k < rest.len() implies size_le(
                cursor_start(s[0]),
                (#[trigger] rest[k]).start,
            ) by {
                if s.drop_first().len() > 0 {
                    assert(cursor_lt(s[0], s.drop_first()[0]));
                }
            }
        } else {
            let iv = IntervalView { start: cursor_start(s[0]), end: cursor_end(s[0]) };
            let r = seq![iv] + rest;
            assert(r[0] == iv);
            assert(forall|k: int| 1 <= k < r.len() ==> #[trigger] r[k] == rest[k - 1]);
            assert forall|k: int| 1 <= k < r.len() implies size_le(
                cursor_start(s[0]),
                (#[trigger] r[k]).start,
            ) by {
                assert(r[k] == rest[k - 1]);
                assert(cursor_lt(s[0], s.drop_first()[0]));
            }
        }
    }
}

/// The merge of start-ordered intervals is a chain (order alone, no text).
pub proof fn lemma_merge_from_chain(cur: IntervalView, ivs: Seq<IntervalView>)
    requires
        intervals_start_sorted(ivs),
        size_le(cur.start, cur.end),
        forall|i: int| 0 <= i < ivs.len() ==> size_le(cur.start, (#[trigger] ivs[i]).start),
    ensures
        intervals_chain(cur.start, merge_from(cur, ivs)),
        merge_from(cur, ivs).len() >= 1,
        merge_from(cur, ivs)[0].start == cur.start,
    decreases ivs.len(),
{
    if ivs.len() == 0 {
        assert(intervals_chain(cur.end, Seq::<IntervalView>::empty()));
        assert(intervals_chain(cur.start, seq![cur])) by {
            assert(seq![cur].drop_first() =~= Seq::<IntervalView>::empty());
            assert(seq![cur][0] == cur);
        }
    } else {
        let rest = ivs.drop_first();
        assert(forall|i: int| 0 <= i < rest.len() ==> #[trigger] rest[i] == ivs[i + 1]);
        if size_le(ivs[0].start, cur.end) {
            let joined = IntervalView { start: cur.start, end: crate::range_set::size_max(cur.end, ivs[0].end) };
            lemma_merge_from_chain(joined, rest);
        } else {
            lemma_merge_from_chain(ivs[0], rest);
            let tail = merge_from(ivs[0], rest);
            let r = seq![cur] + tail;
            assert(r[0] == cur);
            assert(r.drop_first() =~= tail);
            assert(intervals_chain(cur.end, tail)) by {
                assert(size_le(cur.end, tail[0].start));
            }
        }
    }
}

/// The selections of a sorted cursor set that fits a text can be cut, in
/// order, out of that text.
pub proof fn lemma_selections_wf(t: Seq<Seq<char>>, s: Seq<CursorView>)
    requires
        text_wf(t),
        cursors_sorted(s),
        cursors_fit(t, s),
    ensures
        spans_wf(t, selections_spec(s)),
{
    lemma_cursor_intervals(t, s);
    let ivs = cursor_intervals(s);
    assert(text_skip(t, size_zero()) =~~= t);
    if ivs.len() == 0 {
        assert(merge_intervals(ivs) == Seq::<IntervalView>::empty());
        assert(spans_of(size_zero(), merge_intervals(ivs)) == Seq::<
            crate::range_set::SpanView,
        >::empty());
    } else {
        assert(forall|i: int|
            0 <= i < ivs.drop_first().len() ==> #[trigger] ivs.drop_first()[i] == ivs[i + 1]);
        lemma_merge_from(t, ivs[0], ivs.drop_first());
        assert(intervals_chain(size_zero(), merge_intervals(ivs))) by {
            let m = merge_from(ivs[0], ivs.drop_first());
            assert(intervals_chain(ivs[0].start, m));
        }
        lemma_spans_of_wf(t, size_zero(), merge_intervals(ivs));
    }
}

impl CursorSet {
    /// The selection spans derived from this cursor set: its intervals,
    /// merged, then cut into alternating excluded and included stretches.
    pub fn selections(&self) -> (r: RangeSet)
        ensures
            r@ == selections_spec(self@),
    {
        proof {
            use_type_invariant(&*self);
            lemma_cursors_deep_view(&self.cursors);
        }
        let ghost pre = self@;
        let mut intervals: Vec<Interval> = Vec::new();
        let mut i: usize = 0;
        proof {
            assert(pre.skip(0) =~= pre);
            assert(intervals.deep_view() =~= Seq::<IntervalView>::empty());
            assert(intervals.deep_view() + cursor_intervals(pre.skip(0)) =~= cursor_intervals(
                pre,
            ));
        }
        while i < self.cursors.len()
            invariant
                i <= self.cursors@.len(),
                pre == self@,
                pre == self.cursors.deep_view(),
                pre.len() == self.cursors@.len(),
                forall|j: int| 0 <= j < pre.len() ==> #[trigger] pre[j] == self.cursors@[j]@,
                cursors_sorted(pre),
                intervals.deep_view() + cursor_intervals(pre.skip(i as int)) == cursor_intervals(
                    pre,
                ),
            decreases self.cursors@.len() - i,
        {
            proof {
                assert(pre.skip(i as int)[0] == pre[i as int]);
                assert(pre.skip(i as int).drop_first() =~= pre.skip(i as int + 1));
            }
            let c = self.cursors[i];
            if c.head != c.anchor {
                let ghost prev_dv = intervals.deep_view();
                intervals.push(Interval { start: c.anchor.min(c.head), end: c.anchor.max(c.head) });
                proof {
                    assert(forall|j: int|
                        0 <= j < intervals@.len() ==> #[trigger] intervals.deep_view()[j]
                            == intervals@[j]@);
                    assert(intervals.deep_view() =~= prev_dv + seq![
                        IntervalView {
                            start: cursor_start(pre[i as int]),
                            end: cursor_end(pre[i as int]),
                        },
                    ]);
                    assert(intervals.deep_view() + cursor_intervals(pre.skip(i as int + 1))
                        =~= prev_dv + cursor_intervals(pre.skip(i as int)));
                }
            }
            i = i + 1;
        }
        proof {
            assert(pre.skip(i as int) =~= Seq::<CursorView>::empty());
            assert(intervals.deep_view() + Seq::<IntervalView>::empty() =~= intervals.deep_view());
            assert(intervals.deep_view() == cursor_intervals(pre));
        }
        let ghost ivs = cursor_intervals(pre);
        if intervals.len() == 0 {
            proof {
                assert(merge_intervals(ivs) == Seq::<IntervalView>::empty());
                assert(spans_of(size_zero(), merge_intervals(ivs)) =~= Seq::<
                    crate::range_set::SpanView,
                >::empty());
            }
            let r = RangeSet::new();
            return r;
        }
        // Merge overlapping or touching intervals with one sweep.
        proof {
            assert(forall|j: int|
                0 <= j < intervals@.len() ==> #[trigger] intervals.deep_view()[j] == intervals@[
                    j
                ]@);
        }
        let mut merged: Vec<Interval> = Vec::new();
        let mut cur = intervals[0];
        let mut i: usize = 1;
        proof {
            assert(ivs.skip(1) =~= ivs.drop_first());
            assert(merged.deep_view() =~= Seq::<IntervalView>::empty());
            assert(merged.deep_view() + merge_from(cur@, ivs.skip(1)) =~= merge_intervals(ivs));
        }
        while i < intervals.len()
            invariant
                1 <= i <= intervals@.len(),
                ivs == intervals.deep_view(),
                ivs.len() == intervals@.len(),
                forall|j: int| 0 <= j < ivs.len() ==> #[trigger] ivs[j] == intervals@[j]@,
                merged.deep_view() + merge_from(cur@, ivs.skip(i as int)) == merge_intervals(
                    ivs,
                ),
            decreases intervals@.len() - i,
        {
            proof {
                assert(ivs.skip(i as int)[0] == ivs[i as int]);
                assert(ivs.skip(i as int).drop_first() =~= ivs.skip(i as int + 1));
            }
            let next = intervals[i];
            if next.start.le(&cur.end) {
                let joined_end = if cur.end.le(&next.end) {
                    next.end
                } else {
                    cur.end
                };
                cur = Interval { start: cur.start, end: joined_end };
            } else {
                let ghost prev_dv = merged.deep_view();
                let ghost old_cur = cur@;
                merged.push(cur);
                cur = next;
                proof {
                    assert(forall|j: int|
                        0 <= j < merged@.len() ==> #[trigger] merged.deep_view()[j] == merged@[
                            j
                        ]@);
                    assert(merged.deep_view() =~= prev_dv + seq![old_cur]);
                    assert(merged.deep_view() + merge_from(cur@, ivs.skip(i as int + 1))
                        =~= prev_dv + merge_from(old_cur, ivs.skip(i as int)));
                }
            }
            i = i + 1;
        }
        let ghost prev_dv = merged.deep_view();
        let ghost old_cur = cur@;
        merged.push(cur);
        proof {
            assert(forall|j: int|
                0 <= j < merged@.len() ==> #[trigger] merged.deep_view()[j] == merged@[j]@);
            assert(merged.deep_view() =~= prev_dv + seq![old_cur]);
            assert(ivs.skip(i as int) =~= Seq::<IntervalView>::empty());
            assert(merge_from(old_cur, ivs.skip(i as int)) == seq![old_cur]);
            assert(merged.deep_view() == merge_intervals(ivs));
            // The merged intervals form a chain from the origin.
            lemma_cursor_intervals_any(pre);
            assert(forall|j: int|
                0 <= j < ivs.drop_first().len() ==> #[trigger] ivs.drop_first()[j] == ivs[j
                    + 1]);
            lemma_merge_from_chain(ivs[0], ivs.drop_first());
            assert(intervals_chain(size_zero(), merge_intervals(ivs))) by {
                let m = merge_from(ivs[0], ivs.drop_first());
                assert(intervals_chain(ivs[0].start, m));
            }
        }
        RangeSet::from_merged_intervals(&merged)
    }

    /// The caret positions derived from this cursor set: its heads, sorted
    /// and deduplicated.
    pub fn carets(&self) -> (r: PositionSet)
        ensures
            r@ == carets_spec(self@),
            forall|q: SizeView|
                r@.contains(q) <==> exists|j: int| 0 <= j < self@.len() && (#[trigger] self@[
                    j
                ]).head == q,
    {
        proof {
            use_type_invariant(&*self);
            lemma_cursors_deep_view(&self.cursors);
        }
        let ghost pre = self@;
        let mut out = PositionSet::new();
        let mut i: usize = 0;
        proof {
            assert(pre.take(0) =~= Seq::<CursorView>::empty());
        }
        while i < self.cursors.len()
            invariant
                i <= self.cursors@.len(),
                pre == self@,
                pre == self.cursors.deep_view(),
                pre.len() == self.cursors@.len(),
                forall|j: int| 0 <= j < pre.len() ==> #[trigger] pre[j] == self.cursors@[j]@,
                out@ == carets_spec(pre.take(i as int)),
                forall|q: SizeView|
                    out@.contains(q) <==> exists|j: int| 0 <= j < i && (#[trigger] pre[j]).head
                        == q,
            decreases self.cursors@.len() - i,
        {
            let c = self.cursors[i];
            out.add(c.head);
            i = i + 1;
            proof {
                assert(pre.take(i as int).drop_last() =~= pre.take(i as int - 1));
                assert(pre.take(i as int).last() == pre[i - 1]);
                assert forall|q: SizeView| out@.contains(q) implies exists|j: int|
                    0 <= j < i && (#[trigger] pre[j]).head == q by {
                    if q == pre[i - 1].head {
                        assert(pre[i - 1].head == q);
                    }
                }
            }
        }
        proof {
            assert(pre.take(i as int) =~= pre);
        }
        out
    }
}

/// The caret positions of a cursor sequence are strictly ascending, and they
/// are exactly its heads.
pub proof fn lemma_carets_spec(s: Seq<CursorView>)
    ensures
        positions_sorted(carets_spec(s)),
        forall|q: SizeView|
            carets_spec(s).contains(q) <==> exists|j: int|
                0 <= j < s.len() && (#[trigger] s[j]).head == q,
    decreases s.len(),
{
    if s.len() > 0 {
        lemma_carets_spec(s.drop_last());
        crate::position_set::lemma_insert_position(carets_spec(s.drop_last()), s.last().head);
        assert forall|q: SizeView| carets_spec(s).contains(q) implies exists|j: int|
            0 <= j < s.len() && (#[trigger] s[j]).head == q by {
            if carets_spec(s.drop_last()).contains(q) {
                let j = choose|j: int|
                    0 <= j < s.drop_last().len() && (#[trigger] s.drop_last()[j]).head == q;
                assert(s[j].head == q);
            } else {
                assert(s[s.len() - 1].head == q);
            }
        }
        assert forall|q: SizeView|
            (exists|j: int| 0 <= j < s.len() && (#[trigger] s[j]).head == q) implies carets_spec(
            s,
        ).contains(q) by {
            let j = choose|j: int| 0 <= j < s.len() && (#[trigger] s[j]).head == q;
            if j < s.len() - 1 {
                assert(s.drop_last()[j].head == q);
                assert(exists|i: int|
                    0 <= i < s.drop_last().len() && (#[trigger] s.drop_last()[i]).head == q);
                assert(carets_spec(s.drop_last()).contains(q));
            } else {
                assert(q == s.last().head);
            }
        }
    }
}

/// Intervals derived from any sorted cursor sequence are start-ordered and
/// each is well formed; no text is involved.
proof fn lemma_cursor_intervals_any(s: Seq<CursorView>)
    requires
        cursors_sorted(s),
    ensures
        intervals_start_sorted(cursor_intervals(s)),
        s.len() > 0 ==> forall|k: int|
            0 <= k < cursor_intervals(s).len() ==> size_le(
                cursor_start(s[0]),
                (#[trigger] cursor_intervals(s)[k]).start,
            ),
    decreases s.len(),
{
    if s.len() > 0 {
        let rest = cursor_intervals(s.drop_first());
        assert(cursors_sorted(s.drop_first())) by {
            assert(forall|i: int|
                0 <= i < s.drop_first().len() ==> #[trigger] s.drop_first()[i] == s[i + 1]);
        }
        lemma_cursor_intervals_any(s.drop_first());
        if s[0].head == s[0].anchor {
            assert forall|k: int| 0 <= k < rest.len() implies size_le(
                cursor_start(s[0]),
                (#[trigger] rest[k]).start,
            ) by {
                if s.drop_first().len() > 0 {
                    assert(cursor_lt(s[0], s.drop_first()[0]));
                }
            }
        } else {
            let iv = IntervalView { start: cursor_start(s[0]), end: cursor_end(s[0]) };
            let r = seq![iv] + rest;
            assert(r[0] == iv);
            assert(forall|k: int| 1 <= k < r.len() ==> #[trigger] r[k] == rest[k - 1]);
            assert forall|k: int| 1 <= k < r.len() implies size_le(
                cursor_start(s[0]),
                (#[trigger] r[k]).start,
            ) by {
                assert(r[k] == rest[k - 1]);
                assert(cursor_lt(s[0], s.drop_first()[0]));
            }
        }
    }
}

// ---------------------------------------------------------------------------
// Foreign insertions keep carets at their logical position.
// ---------------------------------------------------------------------------

/// A position mapped as `Theirs` through a foreign insertion of `s` at point
/// `q` keeps its logical place: at or before the insertion point it is
/// unchanged; after it, it is carried just past the inserted text; and it
/// never lands strictly inside the inserted stretch.
pub proof fn lemma_theirs_insert_keeps_position(q: SizeView, s: Seq<Seq<char>>, p: SizeView)
    requires
        text_wf(s),
    ensures
        ({
            let ops = seq![OpView::Retain(q), OpView::Insert(s)];
            let r = pos_xform(p, ops, Whose::Theirs);
            &&& (size_le(p, q) ==> r == p)
            &&& (size_lt(q, p) ==> r == size_add(q, size_add(text_len_of(s), size_sub(p, q))))
            &&& (size_le(r, q) || size_le(size_add(q, text_len_of(s)), r))
        }),
{
    let ops = seq![OpView::Retain(q), OpView::Insert(s)];
    let inner = seq![OpView::Insert(s)];
    assert(ops[0] == OpView::Retain(q));
    assert(ops.drop_first() =~= inner);
    assert(inner[0] == OpView::Insert(s));
    assert(inner.drop_first() =~= Seq::<OpView>::empty());
    let r = pos_xform(p, ops, Whose::Theirs);
    if size_lt(p, q) {
        assert(r == p);
    } else {
        let d = size_sub(p, q);
        crate::size::lemma_size_add_sub(q, p);
        if d == size_zero() {
            assert(pos_xform(d, inner, Whose::Theirs) == size_zero());
            assert(r == size_add(q, size_zero()));
            assert(r == q);
            assert(p == q);
        } else {
            assert(pos_xform(d, Seq::<OpView>::empty(), Whose::Theirs) == d);
            assert(pos_xform(d, inner, Whose::Theirs) == size_add(
                text_len_of(s),
                pos_xform(d, inner.drop_first(), Whose::Theirs),
            ));
            assert(pos_xform(d, inner, Whose::Theirs) == size_add(text_len_of(s), d));
            assert(r == size_add(q, size_add(text_len_of(s), d)));
            crate::size::lemma_size_add_assoc(q, text_len_of(s), d);
            assert(size_le(size_add(q, text_len_of(s)), r));
        }
    }
}

} // verus!
