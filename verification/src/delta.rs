use crate::size::{Size, SizeView};
use crate::text::{
    empty_text, lemma_text_cat, lemma_text_take_skip, size_fits, text_cat, text_skip, text_take,
    text_wf, Text,
};
use vstd::prelude::*;

verus! {

// ---------------------------------------------------------------------------
// The mathematical model of an edit script.
// ---------------------------------------------------------------------------

/// The model of a single operation: retain a measure of the base text, insert
/// a text, or delete a measure of the base text.
pub enum OpView {
    Retain(SizeView),
    Insert(Seq<Seq<char>>),
    Delete(SizeView),
}

/// Whether `ops` can be applied to the base text `t`: every retained or
/// deleted measure lands inside what is left of `t` at that point. Anything
/// left of `t` after the last operation is kept unchanged, so the empty
/// script is an identity on every text.
pub open spec fn ops_wf(t: Seq<Seq<char>>, ops: Seq<OpView>) -> bool
    decreases ops.len(),
{
    text_wf(t) && (ops.len() == 0 || match ops[0] {
        OpView::Retain(n) => size_fits(n, t) && ops_wf(text_skip(t, n), ops.drop_first()),
        OpView::Insert(s) => text_wf(s) && ops_wf(t, ops.drop_first()),
        OpView::Delete(n) => size_fits(n, t) && ops_wf(text_skip(t, n), ops.drop_first()),
    })
}

/// The text that applying `ops` to the base text `t` produces: retained
/// fragments and inserted texts in order, deleted fragments left out, and the
/// unconsumed tail of `t` kept.
pub open spec fn apply_ops(t: Seq<Seq<char>>, ops: Seq<OpView>) -> Seq<Seq<char>>
    decreases ops.len(),
{
    if ops.len() == 0 {
        t
    } else {
        match ops[0] {
            OpView::Retain(n) => text_cat(
                text_take(t, n),
                apply_ops(text_skip(t, n), ops.drop_first()),
            ),
            OpView::Insert(s) => text_cat(s, apply_ops(t, ops.drop_first())),
            OpView::Delete(n) => apply_ops(text_skip(t, n), ops.drop_first()),
        }
    }
}

pub proof fn lemma_apply_ops_wf(t: Seq<Seq<char>>, ops: Seq<OpView>)
    requires
        ops_wf(t, ops),
    ensures
        text_wf(apply_ops(t, ops)),
    decreases ops.len(),
{
    if ops.len() > 0 {
        match ops[0] {
            OpView::Retain(n) => {
                lemma_text_take_skip(t, n);
                lemma_apply_ops_wf(text_skip(t, n), ops.drop_first());
                lemma_text_cat(text_take(t, n), apply_ops(text_skip(t, n), ops.drop_first()));
            },
            OpView::Insert(s) => {
                lemma_apply_ops_wf(t, ops.drop_first());
                lemma_text_cat(s, apply_ops(t, ops.drop_first()));
            },
            OpView::Delete(n) => {
                lemma_text_take_skip(t, n);
                lemma_apply_ops_wf(text_skip(t, n), ops.drop_first());
            },
        }
    }
}

/// The part of the base text left unconsumed after the script's operations.
pub open spec fn ops_remaining(t: Seq<Seq<char>>, ops: Seq<OpView>) -> Seq<Seq<char>>
    decreases ops.len(),
{
    if ops.len() == 0 {
        t
    } else {
        match ops[0] {
            OpView::Retain(n) => ops_remaining(text_skip(t, n), ops.drop_first()),
            OpView::Insert(_) => ops_remaining(t, ops.drop_first()),
            OpView::Delete(n) => ops_remaining(text_skip(t, n), ops.drop_first()),
        }
    }
}

/// Appending an operation that consumes within what is left keeps a script
/// applicable, and consumes accordingly.
pub proof fn lemma_ops_wf_snoc(t: Seq<Seq<char>>, ops: Seq<OpView>, op: OpView)
    requires
        ops_wf(t, ops),
        match op {
            OpView::Retain(n) => size_fits(n, ops_remaining(t, ops)),
            OpView::Insert(s) => text_wf(s),
            OpView::Delete(n) => size_fits(n, ops_remaining(t, ops)),
        },
    ensures
        ops_wf(t, ops.push(op)),
        ops_remaining(t, ops.push(op)) == match op {
            OpView::Retain(n) => text_skip(ops_remaining(t, ops), n),
            OpView::Insert(_) => ops_remaining(t, ops),
            OpView::Delete(n) => text_skip(ops_remaining(t, ops), n),
        },
    decreases ops.len(),
{
    if ops.len() == 0 {
        assert(ops.push(op).drop_first() =~= Seq::<OpView>::empty());
        assert(ops.push(op)[0] == op);
        assert(ops_remaining(t, ops) == t);
        match op {
            OpView::Retain(n) => {
                lemma_text_take_skip(t, n);
                assert(ops_remaining(text_skip(t, n), Seq::<OpView>::empty()) == text_skip(t, n));
                assert(ops_wf(text_skip(t, n), ops.push(op).drop_first()));
                assert(ops_remaining(text_skip(t, n), ops.push(op).drop_first()) == text_skip(
                    t,
                    n,
                ));
            },
            OpView::Insert(_) => {
                assert(ops_remaining(t, Seq::<OpView>::empty()) == t);
                assert(ops_wf(t, ops.push(op).drop_first()));
                assert(ops_remaining(t, ops.push(op).drop_first()) == t);
            },
            OpView::Delete(n) => {
                lemma_text_take_skip(t, n);
                assert(ops_remaining(text_skip(t, n), Seq::<OpView>::empty()) == text_skip(t, n));
                assert(ops_wf(text_skip(t, n), ops.push(op).drop_first()));
                assert(ops_remaining(text_skip(t, n), ops.push(op).drop_first()) == text_skip(
                    t,
                    n,
                ));
            },
        }
    } else {
        assert(ops.push(op)[0] == ops[0]);
        assert(ops.push(op).drop_first() =~= ops.drop_first().push(op));
        match ops[0] {
            OpView::Retain(n) => {
                lemma_ops_wf_snoc(text_skip(t, n), ops.drop_first(), op);
            },
            OpView::Insert(_) => {
                lemma_ops_wf_snoc(t, ops.drop_first(), op);
            },
            OpView::Delete(n) => {
                lemma_ops_wf_snoc(text_skip(t, n), ops.drop_first(), op);
            },
        }
    }
}

/// A prefix of an applicable script is applicable.
pub proof fn lemma_ops_wf_prefix(t: Seq<Seq<char>>, ops: Seq<OpView>, k: int)
    requires
        ops_wf(t, ops),
        0 <= k <= ops.len(),
    ensures
        ops_wf(t, ops.take(k)),
    decreases ops.len(),
{
    if k == 0 {
        assert(ops.take(0) =~= Seq::<OpView>::empty());
    } else {
        assert(ops.take(k)[0] == ops[0]);
        assert(ops.take(k).drop_first() =~= ops.drop_first().take(k - 1));
        match ops[0] {
            OpView::Retain(n) => {
                lemma_ops_wf_prefix(text_skip(t, n), ops.drop_first(), k - 1);
            },
            OpView::Insert(_) => {
                lemma_ops_wf_prefix(t, ops.drop_first(), k - 1);
            },
            OpView::Delete(n) => {
                lemma_ops_wf_prefix(text_skip(t, n), ops.drop_first(), k - 1);
            },
        }
    }
}

// ---------------------------------------------------------------------------
// The executable edit script.
// ---------------------------------------------------------------------------

/// A single edit operation over a base text.
#[derive(Debug)]
pub enum Operation {
    Retain(Size),
    Insert(Text),
    Delete(Size),
}

impl View for Operation {
    type V = OpView;

    open spec fn view(&self) -> OpView {
        match self {
            Operation::Retain(n) => OpView::Retain(n@),
            Operation::Insert(t) => OpView::Insert(t@),
            Operation::Delete(n) => OpView::Delete(n@),
        }
    }
}

impl DeepView for Operation {
    type V = OpView;

    open spec fn deep_view(&self) -> OpView {
        self@
    }
}

impl Clone for Operation {
    fn clone(&self) -> (r: Operation)
        ensures
            r@ == self@,
    {
        match self {
            Operation::Retain(n) => Operation::Retain(*n),
            Operation::Insert(t) => Operation::Insert(t.clone()),
            Operation::Delete(n) => Operation::Delete(*n),
        }
    }
}

impl Operation {
    pub fn is_insert(&self) -> (r: bool)
        ensures
            r == (self@ is Insert),
    {
        match self {
            Operation::Insert(_) => true,
            _ => false,
        }
    }

    pub fn is_delete(&self) -> (r: bool)
        ensures
            r == (self@ is Delete),
    {
        match self {
            Operation::Delete(_) => true,
            _ => false,
        }
    }

    pub fn is_retain(&self) -> (r: bool)
        ensures
            r == (self@ is Retain),
    {
        match self {
            Operation::Retain(_) => true,
            _ => false,
        }
    }
}

/// Removes and returns the first operation.
pub fn pop_front(v: &mut Vec<Operation>) -> (r: Operation)
    requires
        old(v)@.len() > 0,
    ensures
        r@ == old(v).deep_view()[0],
        final(v).deep_view() == old(v).deep_view().drop_first(),
        final(v)@.len() == old(v)@.len() - 1,
{
    let ghost pre_v = v@;
    let ghost pre_dv = v.deep_view();
    proof {
        lemma_ops_deep_view(v);
    }
    let op = v.remove(0);
    proof {
        assert(v@ =~= pre_v.drop_first());
        lemma_ops_deep_view(v);
        assert(v.deep_view() =~= pre_dv.drop_first());
    }
    op
}

/// Puts an operation in front of the others.
pub fn push_front(v: &mut Vec<Operation>, op: Operation)
    ensures
        final(v).deep_view() == seq![op@] + old(v).deep_view(),
        final(v)@.len() == old(v)@.len() + 1,
{
    let ghost pre_v = v@;
    let ghost pre_dv = v.deep_view();
    let ghost opv = op@;
    proof {
        lemma_ops_deep_view(v);
    }
    v.insert(0, op);
    proof {
        assert(v@ =~= seq![v@[0]] + pre_v);
        lemma_ops_deep_view(v);
        assert(v.deep_view() =~= seq![opv] + pre_dv);
    }
}

/// Who authored a delta, seen from one session: its own edit (`Ours`) or a
/// foreign one (`Theirs`). Controls how cursors remap through the delta.
#[derive(Clone, Copy, PartialEq, Eq, Structural, Debug)]
pub enum Whose {
    Ours,
    Theirs,
}

/// An ordered edit script over a text: a sequence of retain, insert and
/// delete operations. Any tail of the base text that the operations do not
/// consume is kept unchanged.
#[derive(Debug)]
pub struct Delta {
    operations: Vec<Operation>,
}

impl View for Delta {
    type V = Seq<OpView>;

    closed spec fn view(&self) -> Seq<OpView> {
        self.operations.deep_view()
    }
}

/// The deep view of a vector of operations, read off index by index.
pub proof fn lemma_ops_deep_view(v: &Vec<Operation>)
    ensures
        v.deep_view().len() == v@.len(),
        forall|i: int| 0 <= i < v@.len() ==> #[trigger] v.deep_view()[i] == v@[i]@,
{
}

/// A copy of the given operations.
pub fn copy_operations(source: &Vec<Operation>) -> (r: Vec<Operation>)
    ensures
        r.deep_view() == source.deep_view(),
{
    let mut operations: Vec<Operation> = Vec::new();
    let mut i: usize = 0;
    while i < source.len()
        invariant
            i <= source@.len(),
            operations@.len() == i,
            forall|j: int| 0 <= j < i ==> (#[trigger] operations@[j])@ == source@[j]@,
        decreases source@.len() - i,
    {
        let ghost prev_v = operations@;
        operations.push(source[i].clone());
        i = i + 1;
        proof {
            assert(forall|j: int|
                0 <= j < prev_v.len() ==> #[trigger] operations@[j] == prev_v[j]);
        }
    }
    proof {
        lemma_ops_deep_view(source);
        lemma_ops_deep_view(&operations);
        assert(operations.deep_view() =~= source.deep_view());
    }
    operations
}

impl Clone for Delta {
    fn clone(&self) -> (r: Delta)
        ensures
            r@ == self@,
    {
        Delta { operations: copy_operations(&self.operations) }
    }
}

impl Delta {
    /// The delta with no effect on any text.
    pub fn identity() -> (r: Delta)
        ensures
            r@ == Seq::<OpView>::empty(),
    {
        let d = Delta { operations: Vec::new() };
        proof {
            assert(d@ =~= Seq::<OpView>::empty());
        }
        d
    }

    /// The operations of this delta, in order.
    pub fn operations(&self) -> (r: &Vec<Operation>)
        ensures
            r.deep_view() == self@,
    {
        &self.operations
    }

    /// The operations of this delta, by value.
    pub fn into_operations(self) -> (r: Vec<Operation>)
        ensures
            r.deep_view() == self@,
    {
        self.operations
    }

    pub fn from_operations(operations: Vec<Operation>) -> (r: Delta)
        ensures
            r@ == operations.deep_view(),
    {
        Delta { operations }
    }
}

// ---------------------------------------------------------------------------
// Applying a delta to a text.
// ---------------------------------------------------------------------------

fn apply_rec(t: &Text, operations: &Vec<Operation>, i: usize) -> (r: Text)
    requires
        t.wf(),
        i <= operations@.len(),
        ops_wf(t@, operations.deep_view().skip(i as int)),
    ensures
        r@ == apply_ops(t@, operations.deep_view().skip(i as int)),
        r.wf(),
    decreases operations@.len() - i,
{
    let ghost ops = operations.deep_view().skip(i as int);
    proof {
        lemma_apply_ops_wf(t@, ops);
    }
    if i == operations.len() {
        assert(ops.len() == 0);
        t.clone()
    } else {
        assert(ops[0] == operations.deep_view()[i as int]);
        assert(ops.drop_first() =~= operations.deep_view().skip(i as int + 1));
        match &operations[i] {
            Operation::Retain(n) => {
                proof {
                    lemma_text_take_skip(t@, n@);
                }
                let rest = apply_rec(&t.skip_size(*n), operations, i + 1);
                t.take_size(*n).cat(&rest)
            },
            Operation::Insert(s) => {
                let rest = apply_rec(t, operations, i + 1);
                s.cat(&rest)
            },
            Operation::Delete(n) => {
                proof {
                    lemma_text_take_skip(t@, n@);
                }
                apply_rec(&t.skip_size(*n), operations, i + 1)
            },
        }
    }
}

impl Text {
    /// Rewrites this text into the one the delta produces.
    ///
    /// Applying a delta whose consumed measures do not fit the text is a
    /// precondition violation: deltas are only ever built against the text
    /// they are applied to.
    pub fn apply_delta(&mut self, delta: &Delta) -> (r: ())
        requires
            old(self).wf(),
            ops_wf(old(self)@, delta@),
        ensures
            final(self)@ == apply_ops(old(self)@, delta@),
            final(self).wf(),
    {
        assert(delta.operations.deep_view().skip(0) =~= delta@);
        let r = apply_rec(self, &delta.operations, 0);
        *self = r;
    }

    /// The text the delta produces, leaving this text unchanged.
    pub fn applied(&self, delta: &Delta) -> (r: Text)
        requires
            self.wf(),
            ops_wf(self@, delta@),
        ensures
            r@ == apply_ops(self@, delta@),
            r.wf(),
    {
        assert(delta.operations.deep_view().skip(0) =~= delta@);
        apply_rec(self, &delta.operations, 0)
    }
}

fn ops_check(t: &Text, operations: &Vec<Operation>, i: usize) -> (r: bool)
    requires
        t.wf(),
        i <= operations@.len(),
    ensures
        r == ops_wf(t@, operations.deep_view().skip(i as int)),
    decreases operations@.len() - i,
{
    let ghost ops = operations.deep_view().skip(i as int);
    if i == operations.len() {
        true
    } else {
        assert(ops[0] == operations.deep_view()[i as int]);
        assert(ops.drop_first() =~= operations.deep_view().skip(i as int + 1));
        match &operations[i] {
            Operation::Retain(n) => {
                if t.fits(*n) {
                    proof {
                        lemma_text_take_skip(t@, n@);
                    }
                    ops_check(&t.skip_size(*n), operations, i + 1)
                } else {
                    false
                }
            },
            Operation::Insert(s) => {
                proof {
                    use_type_invariant(s);
                }
                ops_check(t, operations, i + 1)
            },
            Operation::Delete(n) => {
                if t.fits(*n) {
                    proof {
                        lemma_text_take_skip(t@, n@);
                    }
                    ops_check(&t.skip_size(*n), operations, i + 1)
                } else {
                    false
                }
            },
        }
    }
}

impl Delta {
    /// Whether this delta can be applied to the given text: every retained
    /// or deleted measure lands inside what is left of the text at its point.
    pub fn applies_to(&self, text: &Text) -> (r: bool)
        requires
            text.wf(),
        ensures
            r == ops_wf(text@, self@),
    {
        assert(self.operations.deep_view().skip(0) =~= self@);
        ops_check(text, &self.operations, 0)
    }
}

// ---------------------------------------------------------------------------
// Building a delta from front to back.
// ---------------------------------------------------------------------------

/// Accumulates operations in order. Zero-measure retains and deletes and
/// empty inserts are dropped, and trailing retains are stripped when the
/// delta is built: they have no effect.
pub struct Builder {
    operations: Vec<Operation>,
}

/// `ops` without its trailing retains.
pub open spec fn strip_trailing_retains(ops: Seq<OpView>) -> Seq<OpView>
    decreases ops.len(),
{
    if ops.len() > 0 && ops.last() is Retain {
        strip_trailing_retains(ops.drop_last())
    } else {
        ops
    }
}

/// Stripping trailing retains keeps a script applicable.
pub proof fn lemma_strip_trailing_wf(t: Seq<Seq<char>>, ops: Seq<OpView>)
    requires
        ops_wf(t, ops),
    ensures
        ops_wf(t, strip_trailing_retains(ops)),
    decreases ops.len(),
{
    if ops.len() > 0 && ops.last() is Retain {
        assert(ops.drop_last() =~= ops.take(ops.len() - 1));
        lemma_ops_wf_prefix(t, ops, ops.len() - 1);
        lemma_strip_trailing_wf(t, ops.drop_last());
    }
}

impl View for Builder {
    type V = Seq<OpView>;

    closed spec fn view(&self) -> Seq<OpView> {
        self.operations.deep_view()
    }
}

impl Builder {
    pub fn new() -> (r: Builder)
        ensures
            r@ == Seq::<OpView>::empty(),
    {
        let b = Builder { operations: Vec::new() };
        proof {
            assert(b@ =~= Seq::<OpView>::empty());
        }
        b
    }

    pub fn retain(&mut self, n: Size) -> (r: ())
        ensures
            final(self)@ == if n@ == crate::size::size_zero() {
                old(self)@
            } else {
                old(self)@.push(OpView::Retain(n@))
            },
    {
        if !n.is_zero() {
            let ghost prev = self@;
            self.operations.push(Operation::Retain(n));
            assert(self@ =~= prev.push(OpView::Retain(n@)));
        }
    }

    pub fn insert(&mut self, t: Text) -> (r: ())
        requires
            t.wf(),
        ensures
            final(self)@ == if t@ == empty_text() {
                old(self)@
            } else {
                old(self)@.push(OpView::Insert(t@))
            },
    {
        let is_empty = t.line_count() == 1 && t.line_len(0) == 0;
        proof {
            if is_empty {
                assert(t@ =~~= empty_text());
            }
        }
        if !is_empty {
            let ghost prev = self@;
            let ghost tv = t@;
            self.operations.push(Operation::Insert(t));
            assert(self@ =~= prev.push(OpView::Insert(tv)));
        }
    }

    pub fn delete(&mut self, n: Size) -> (r: ())
        ensures
            final(self)@ == if n@ == crate::size::size_zero() {
                old(self)@
            } else {
                old(self)@.push(OpView::Delete(n@))
            },
    {
        if !n.is_zero() {
            let ghost prev = self@;
            self.operations.push(Operation::Delete(n));
            assert(self@ =~= prev.push(OpView::Delete(n@)));
        }
    }

    /// The finished delta: the accumulated operations without trailing
    /// retains.
    pub fn build(self) -> (r: Delta)
        ensures
            r@ == strip_trailing_retains(self@),
    {
        let ghost start = self@;
        let mut operations = self.operations;
        loop
            invariant
                strip_trailing_retains(operations.deep_view()) == strip_trailing_retains(start),
            ensures
                operations.deep_view() == strip_trailing_retains(start),
            decreases operations@.len(),
        {
            let ghost cur = operations.deep_view();
            proof {
                lemma_ops_deep_view(&operations);
            }
            let len = operations.len();
            if len == 0 {
                assert(strip_trailing_retains(cur) == cur);
                break;
            }
            let is_retain = match &operations[len - 1] {
                Operation::Retain(_) => true,
                _ => false,
            };
            assert(cur.last() == operations@[len - 1]@);
            if !is_retain {
                assert(strip_trailing_retains(cur) == cur);
                break;
            }
            operations.pop();
            proof {
                lemma_ops_deep_view(&operations);
                assert(operations.deep_view() =~= cur.drop_last());
                assert(strip_trailing_retains(cur) == strip_trailing_retains(cur.drop_last()));
            }
        }
        Delta { operations }
    }
}

} // verus!
