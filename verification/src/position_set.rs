use crate::position::Position;
use crate::size::{size_le, size_lt, size_sub, size_zero, Size, SizeView};
use vstd::prelude::*;

verus! {

/// Insertion of a position into a strictly ascending sequence, keeping it
/// strictly ascending: duplicates are dropped.
pub open spec fn insert_position(s: Seq<SizeView>, p: SizeView) -> Seq<SizeView>
    decreases s.len(),
{
    if s.len() == 0 {
        seq![p]
    } else if p == s[0] {
        s
    } else if size_lt(p, s[0]) {
        seq![p] + s
    } else {
        seq![s[0]] + insert_position(s.drop_first(), p)
    }
}

/// Whether a sequence of positions is strictly ascending.
pub open spec fn positions_sorted(s: Seq<SizeView>) -> bool {
    forall|i: int, j: int| 0 <= i < j < s.len() ==> size_lt(#[trigger] s[i], #[trigger] s[j])
}

pub proof fn lemma_insert_position(s: Seq<SizeView>, p: SizeView)
    requires
        positions_sorted(s),
    ensures
        positions_sorted(insert_position(s, p)),
        insert_position(s, p).contains(p),
        forall|q: SizeView| insert_position(s, p).contains(q) <==> (s.contains(q) || q == p),
    decreases s.len(),
{
    let r = insert_position(s, p);
    if s.len() == 0 {
        assert forall|q: SizeView| r.contains(q) implies (s.contains(q) || q == p) by {}
        assert(r.contains(p)) by {
            assert(r[0] == p);
        }
    } else if p == s[0] {
        assert(r.contains(p)) by {
            assert(r[0] == p);
        }
    } else if size_lt(p, s[0]) {
        assert(r == seq![p] + s);
        assert(r[0] == p);
        assert forall|i: int, j: int| 0 <= i < j < r.len() implies size_lt(r[i], r[j]) by {
            if i > 0 {
                assert(r[i] == s[i - 1]);
                assert(r[j] == s[j - 1]);
            } else {
                assert(r[j] == s[j - 1]);
                if j > 1 {
                    assert(size_lt(s[0], s[j - 1]));
                }
            }
        }
        assert forall|q: SizeView| r.contains(q) implies (s.contains(q) || q == p) by {
            let i = choose|i: int| 0 <= i < r.len() && r[i] == q;
            if i > 0 {
                assert(s[i - 1] == q);
            }
        }
        assert forall|q: SizeView| (s.contains(q) || q == p) implies r.contains(q) by {
            if s.contains(q) {
                let i = choose|i: int| 0 <= i < s.len() && s[i] == q;
                assert(r[i + 1] == q);
            } else {
                assert(r[0] == q);
            }
        }
    } else {
        let rest = insert_position(s.drop_first(), p);
        assert(positions_sorted(s.drop_first())) by {
            assert(forall|i: int|
                0 <= i < s.drop_first().len() ==> #[trigger] s.drop_first()[i] == s[i + 1]);
        }
        lemma_insert_position(s.drop_first(), p);
        assert(r == seq![s[0]] + rest);
        assert(size_lt(s[0], p));
        assert forall|i: int, j: int| 0 <= i < j < r.len() implies size_lt(r[i], r[j]) by {
            if i > 0 {
                assert(r[i] == rest[i - 1]);
                assert(r[j] == rest[j - 1]);
            } else {
                assert(r[j] == rest[j - 1]);
                assert(rest.contains(rest[j - 1]));
                assert(s.drop_first().contains(rest[j - 1]) || rest[j - 1] == p);
                if s.drop_first().contains(rest[j - 1]) {
                    let k = choose|k: int|
                        0 <= k < s.drop_first().len() && s.drop_first()[k] == rest[j - 1];
                    assert(s[k + 1] == rest[j - 1]);
                    assert(size_lt(s[0], s[k + 1]));
                }
            }
        }
        assert(r.contains(p)) by {
            let i = choose|i: int| 0 <= i < rest.len() && rest[i] == p;
            assert(r[i + 1] == p);
        }
        assert forall|q: SizeView| r.contains(q) implies (s.contains(q) || q == p) by {
            let i = choose|i: int| 0 <= i < r.len() && r[i] == q;
            if i == 0 {
                assert(s[0] == q);
            } else {
                assert(rest[i - 1] == q);
                assert(rest.contains(q));
                if s.drop_first().contains(q) {
                    let k = choose|k: int|
                        0 <= k < s.drop_first().len() && s.drop_first()[k] == q;
                    assert(s[k + 1] == q);
                }
            }
        }
        assert forall|q: SizeView| (s.contains(q) || q == p) implies r.contains(q) by {
            if s.contains(q) {
                let i = choose|i: int| 0 <= i < s.len() && s[i] == q;
                if i == 0 {
                    assert(r[0] == q);
                } else {
                    assert(s.drop_first()[i - 1] == q);
                    assert(s.drop_first().contains(q));
                    assert(rest.contains(q));
                    let k = choose|k: int| 0 <= k < rest.len() && rest[k] == q;
                    assert(r[k + 1] == q);
                }
            } else {
                assert(rest.contains(q));
                let k = choose|k: int| 0 <= k < rest.len() && rest[k] == q;
                assert(r[k + 1] == q);
            }
        }
    }
}

/// An ordered set of caret positions: strictly ascending, so deduplicated.
#[derive(Debug)]
pub struct PositionSet {
    positions: Vec<Position>,
}

impl View for PositionSet {
    type V = Seq<SizeView>;

    closed spec fn view(&self) -> Seq<SizeView> {
        self.positions.deep_view()
    }
}

pub proof fn lemma_positions_deep_view(v: &Vec<Position>)
    ensures
        v.deep_view().len() == v@.len(),
        forall|i: int| 0 <= i < v@.len() ==> #[trigger] v.deep_view()[i] == v@[i]@,
{
}

impl PositionSet {
    #[verifier::type_invariant]
    pub open spec fn type_inv(&self) -> bool {
        positions_sorted(self@)
    }

    pub open spec fn wf(&self) -> bool {
        positions_sorted(self@)
    }

    pub fn new() -> (r: PositionSet)
        ensures
            r@ == Seq::<SizeView>::empty(),
    {
        let s = PositionSet { positions: Vec::new() };
        proof {
            assert(s@ =~= Seq::<SizeView>::empty());
        }
        s
    }

    pub fn len(&self) -> (r: usize)
        ensures
            r == self@.len(),
    {
        self.positions.len()
    }

    pub fn get(&self, i: usize) -> (r: Position)
        requires
            i < self@.len(),
        ensures
            r@ == self@[i as int],
    {
        self.positions[i]
    }

    /// Adds a position, keeping the set strictly ascending.
    pub fn add(&mut self, p: Position)
        ensures
            final(self)@ == insert_position(old(self)@, p@),
            positions_sorted(final(self)@),
            forall|q: SizeView| final(self)@.contains(q) <==> (old(self)@.contains(q) || q == p@),
    {
        proof {
            use_type_invariant(&*self);
            lemma_insert_position(self@, p@);
            lemma_positions_deep_view(&self.positions);
        }
        let ghost pre = self@;
        let mut i: usize = 0;
        while i < self.positions.len() && self.positions[i].lt(&p)
            invariant
                i <= self.positions@.len(),
                self@ == pre,
                positions_sorted(pre),
                forall|j: int| 0 <= j < i ==> size_lt(#[trigger] pre[j], p@),
            decreases self.positions@.len() - i,
        {
            proof {
                lemma_positions_deep_view(&self.positions);
            }
            i = i + 1;
        }
        proof {
            lemma_positions_deep_view(&self.positions);
        }
        if i < self.positions.len() && self.positions[i] == p {
            proof {
                lemma_insert_found(pre, p@, i as int);
            }
            return;
        }
        let mut positions = copy_positions_range(&self.positions, 0, i);
        let ghost first = positions.deep_view();
        let ghost first_v = positions@;
        positions.push(p);
        proof {
            lemma_positions_deep_view(&positions);
            assert(forall|j: int|
                0 <= j < first_v.len() ==> #[trigger] positions@[j] == first_v[j]);
            assert(positions.deep_view() =~= first.push(p@));
        }
        let ghost mid = positions.deep_view();
        let ghost mid_v = positions@;
        let mut rest = copy_positions_range(&self.positions, i, self.positions.len());
        let ghost rest_dv = rest.deep_view();
        let ghost rest_v = rest@;
        positions.append(&mut rest);
        proof {
            lemma_positions_deep_view(&positions);
            assert(positions@ == mid_v + rest_v);
            assert(forall|j: int| 0 <= j < mid_v.len() ==> #[trigger] positions@[j] == mid_v[j]);
            assert(forall|j: int|
                mid_v.len() <= j < positions@.len() ==> #[trigger] positions@[j] == rest_v[
                    j - mid_v.len()
                ]);
            assert(positions.deep_view() =~= mid + rest_dv);
            assert(pre.subrange(0, i as int) =~= pre.take(i as int));
            assert(pre.subrange(i as int, pre.len() as int) =~= pre.skip(i as int));
            if i < pre.len() {
                assert(size_lt(p@, pre[i as int]));
                lemma_insert_middle(pre, p@, i as int);
                assert(positions.deep_view() =~= pre.take(i as int) + seq![p@] + pre.skip(
                    i as int,
                ));
            } else {
                lemma_insert_append(pre, p@, i as int);
                assert(positions.deep_view() =~= pre + seq![p@]);
            }
            assert(positions.deep_view() == insert_position(pre, p@));
        }
        *self = PositionSet { positions };
    }

    /// The displacement of each position from the one before it (from the
    /// origin, for the first).
    pub fn distances(&self) -> (r: Vec<Size>)
        ensures
            r@.len() == self@.len(),
            forall|i: int|
                0 <= i < self@.len() ==> (#[trigger] r@[i])@ == size_sub(
                    self@[i],
                    if i == 0 {
                        size_zero()
                    } else {
                        self@[i - 1]
                    },
                ),
    {
        proof {
            use_type_invariant(&*self);
            lemma_positions_deep_view(&self.positions);
        }
        let mut out: Vec<Size> = Vec::new();
        let mut prev = Position::origin();
        let mut i: usize = 0;
        while i < self.positions.len()
            invariant
                i <= self.positions@.len(),
                positions_sorted(self@),
                self@ == self.positions.deep_view(),
                self.positions.deep_view().len() == self.positions@.len(),
                forall|j: int|
                    0 <= j < self.positions@.len() ==> #[trigger] self.positions.deep_view()[j]
                        == self.positions@[j]@,
                out@.len() == i,
                prev@ == if i == 0 {
                    size_zero()
                } else {
                    self@[i - 1]
                },
                forall|j: int|
                    0 <= j < i ==> (#[trigger] out@[j])@ == size_sub(
                        self@[j],
                        if j == 0 {
                            size_zero()
                        } else {
                            self@[j - 1]
                        },
                    ),
            decreases self.positions@.len() - i,
        {
            let cur = self.positions[i];
            proof {
                if i > 0 {
                    assert(size_lt(self@[i - 1], self@[i as int]));
                }
            }
            let ghost prev_out = out@;
            out.push(cur.distance_from(prev));
            proof {
                assert(forall|j: int|
                    0 <= j < prev_out.len() ==> #[trigger] out@[j] == prev_out[j]);
            }
            prev = cur;
            i = i + 1;
        }
        out
    }
}

/// A copy of `positions[from..to]`.
pub fn copy_positions_range(positions: &Vec<Position>, from: usize, to: usize) -> (r: Vec<
    Position,
>)
    requires
        from <= to <= positions@.len(),
    ensures
        r.deep_view() == positions.deep_view().subrange(from as int, to as int),
        r@.len() == to - from,
{
    let mut out: Vec<Position> = Vec::new();
    let mut i: usize = from;
    while i < to
        invariant
            from <= i <= to <= positions@.len(),
            out@.len() == i - from,
            forall|j: int| 0 <= j < i - from ==> (#[trigger] out@[j])@ == positions@[from + j]@,
        decreases to - i,
    {
        let ghost prev_v = out@;
        out.push(positions[i]);
        i = i + 1;
        proof {
            assert(forall|j: int|
                0 <= j < prev_v.len() ==> #[trigger] out@[j] == prev_v[j]);
        }
    }
    proof {
        lemma_positions_deep_view(positions);
        lemma_positions_deep_view(&out);
        assert(out.deep_view() =~= positions.deep_view().subrange(from as int, to as int));
    }
    out
}

/// Unfolding `insert_position` along a sorted prefix that is entirely below
/// `p`: appending at the end.
proof fn lemma_insert_append(s: Seq<SizeView>, p: SizeView, i: int)
    requires
        positions_sorted(s),
        0 <= i == s.len(),
        forall|j: int| 0 <= j < i ==> size_lt(#[trigger] s[j], p),
    ensures
        insert_position(s, p) == s + seq![p],
    decreases s.len(),
{
    if s.len() == 0 {
        assert(insert_position(s, p) =~= s + seq![p]);
    } else {
        assert(size_lt(s[0], p));
        assert(forall|j: int|
            0 <= j < s.drop_first().len() ==> #[trigger] s.drop_first()[j] == s[j + 1]);
        lemma_insert_append(s.drop_first(), p, i - 1);
        assert(insert_position(s, p) =~= s + seq![p]);
    }
}

/// Unfolding `insert_position` when `p` already stands at index `i`.
proof fn lemma_insert_found(s: Seq<SizeView>, p: SizeView, i: int)
    requires
        positions_sorted(s),
        0 <= i < s.len(),
        s[i] == p,
        forall|j: int| 0 <= j < i ==> size_lt(#[trigger] s[j], p),
    ensures
        insert_position(s, p) == s,
    decreases i,
{
    if i == 0 {
    } else {
        assert(size_lt(s[0], p));
        assert(forall|j: int|
            0 <= j < s.drop_first().len() ==> #[trigger] s.drop_first()[j] == s[j + 1]);
        lemma_insert_found(s.drop_first(), p, i - 1);
        assert(insert_position(s, p) =~= s);
    }
}

/// Unfolding `insert_position` when `p` belongs just before index `i`.
proof fn lemma_insert_middle(s: Seq<SizeView>, p: SizeView, i: int)
    requires
        positions_sorted(s),
        0 <= i < s.len(),
        size_lt(p, s[i]),
        forall|j: int| 0 <= j < i ==> size_lt(#[trigger] s[j], p),
    ensures
        insert_position(s, p) == s.take(i) + seq![p] + s.skip(i),
    decreases i,
{
    if i == 0 {
        assert(insert_position(s, p) =~= s.take(0) + seq![p] + s.skip(0));
    } else {
        assert(size_lt(s[0], p));
        assert(forall|j: int|
            0 <= j < s.drop_first().len() ==> #[trigger] s.drop_first()[j] == s[j + 1]);
        lemma_insert_middle(s.drop_first(), p, i - 1);
        assert(s.drop_first().take(i - 1) =~= s.take(i).drop_first());
        assert(s.drop_first().skip(i - 1) =~= s.skip(i));
        assert(insert_position(s, p) =~= s.take(i) + seq![p] + s.skip(i));
    }
}

} // verus!
