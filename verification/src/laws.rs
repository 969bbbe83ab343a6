use crate::delta::{apply_ops, lemma_apply_ops_wf, ops_wf, OpView};
use crate::size::{size_add, size_le, size_lt, size_sub, SizeView};
use crate::text::{
    lemma_text_cat, lemma_text_cat_assoc, lemma_text_cat_cut, lemma_text_cat_cut_left,
    lemma_text_cat_fits_left, lemma_text_cat_fits_right, lemma_text_split, lemma_text_take_fits,
    lemma_text_take_skip, size_fits, text_cat, text_len_of, text_skip, text_take, text_wf,
};
use vstd::prelude::*;

verus! {

/// `op` followed by `ops`.
pub open spec fn cons(op: OpView, ops: Seq<OpView>) -> Seq<OpView> {
    seq![op] + ops
}

pub proof fn lemma_cons(op: OpView, ops: Seq<OpView>)
    ensures
        cons(op, ops).len() == ops.len() + 1,
        cons(op, ops)[0] == op,
        cons(op, ops).drop_first() == ops,
{
    assert(cons(op, ops).drop_first() =~= ops);
}

// ---------------------------------------------------------------------------
// Composition: a single script equivalent to applying one script, then a
// second one built against the first one's output.
// ---------------------------------------------------------------------------

/// The composition of `a` with `b`, where `b` reads the text that `a`
/// produces. The two scripts are walked together: `b`'s inserts go straight
/// to the output, `a`'s deletes likewise, and overlapping measures are split
/// at whichever of the two front operations is shorter.
pub open spec fn compose_ops(a: Seq<OpView>, b: Seq<OpView>) -> Seq<OpView>
    decreases a.len() + b.len(),
{
    if b.len() > 0 && b[0] is Insert {
        cons(b[0], compose_ops(a, b.drop_first()))
    } else if a.len() > 0 && a[0] is Delete {
        cons(a[0], compose_ops(a.drop_first(), b))
    } else if a.len() == 0 {
        b
    } else if b.len() == 0 {
        a
    } else {
        match (a[0], b[0]) {
            (OpView::Retain(n), OpView::Retain(m)) => {
                if n == m {
                    cons(OpView::Retain(n), compose_ops(a.drop_first(), b.drop_first()))
                } else if size_lt(n, m) {
                    cons(
                        OpView::Retain(n),
                        compose_ops(
                            a.drop_first(),
                            cons(OpView::Retain(size_sub(m, n)), b.drop_first()),
                        ),
                    )
                } else {
                    cons(
                        OpView::Retain(m),
                        compose_ops(
                            cons(OpView::Retain(size_sub(n, m)), a.drop_first()),
                            b.drop_first(),
                        ),
                    )
                }
            },
            (OpView::Retain(n), OpView::Delete(m)) => {
                if n == m {
                    cons(OpView::Delete(m), compose_ops(a.drop_first(), b.drop_first()))
                } else if size_lt(n, m) {
                    cons(
                        OpView::Delete(n),
                        compose_ops(
                            a.drop_first(),
                            cons(OpView::Delete(size_sub(m, n)), b.drop_first()),
                        ),
                    )
                } else {
                    cons(
                        OpView::Delete(m),
                        compose_ops(
                            cons(OpView::Retain(size_sub(n, m)), a.drop_first()),
                            b.drop_first(),
                        ),
                    )
                }
            },
            (OpView::Insert(s), OpView::Retain(m)) => {
                if text_len_of(s) == m {
                    cons(OpView::Insert(s), compose_ops(a.drop_first(), b.drop_first()))
                } else if size_lt(text_len_of(s), m) {
                    cons(
                        OpView::Insert(s),
                        compose_ops(
                            a.drop_first(),
                            cons(OpView::Retain(size_sub(m, text_len_of(s))), b.drop_first()),
                        ),
                    )
                } else {
                    cons(
                        OpView::Insert(text_take(s, m)),
                        compose_ops(
                            cons(OpView::Insert(text_skip(s, m)), a.drop_first()),
                            b.drop_first(),
                        ),
                    )
                }
            },
            (OpView::Insert(s), OpView::Delete(m)) => {
                if text_len_of(s) == m {
                    compose_ops(a.drop_first(), b.drop_first())
                } else if size_lt(text_len_of(s), m) {
                    compose_ops(
                        a.drop_first(),
                        cons(OpView::Delete(size_sub(m, text_len_of(s))), b.drop_first()),
                    )
                } else {
                    compose_ops(
                        cons(OpView::Insert(text_skip(s, m)), a.drop_first()),
                        b.drop_first(),
                    )
                }
            },
            _ => Seq::empty(),
        }
    }
}

/// Composition is correct: wherever `a` applies to `t` and `b` applies to
/// `a`'s output, the composition applies to `t` and produces what applying
/// `a`, then `b`, produces.
#[verifier::rlimit(100)]
#[verifier::spinoff_prover]
pub proof fn lemma_compose_ops(t: Seq<Seq<char>>, a: Seq<OpView>, b: Seq<OpView>)
    requires
        ops_wf(t, a),
        ops_wf(apply_ops(t, a), b),
    ensures
        ops_wf(t, compose_ops(a, b)),
        apply_ops(t, compose_ops(a, b)) == apply_ops(apply_ops(t, a), b),
    decreases a.len() + b.len(),
{
    let av = apply_ops(t, a);
    lemma_apply_ops_wf(t, a);
    if b.len() > 0 && b[0] is Insert {
        let s = b[0]->Insert_0;
        let c = compose_ops(a, b.drop_first());
        lemma_compose_ops(t, a, b.drop_first());
        lemma_cons(b[0], c);
        assert(apply_ops(t, cons(b[0], c)) == text_cat(s, apply_ops(t, c)));
    } else if a.len() > 0 && a[0] is Delete {
        let n = a[0]->Delete_0;
        let c = compose_ops(a.drop_first(), b);
        lemma_compose_ops(text_skip(t, n), a.drop_first(), b);
        lemma_cons(a[0], c);
    } else if a.len() == 0 {
    } else if b.len() == 0 {
    } else {
        match (a[0], b[0]) {
            (OpView::Retain(n), OpView::Retain(m)) => {
                let ar = a.drop_first();
                let br = b.drop_first();
                let tk = text_take(t, n);
                let sk = text_skip(t, n);
                let arest = apply_ops(sk, ar);
                lemma_text_take_skip(t, n);
                lemma_apply_ops_wf(sk, ar);
                lemma_text_cat(tk, arest);
                assert(av == text_cat(tk, arest));
                if n == m {
                    let c = compose_ops(ar, br);
                    assert(text_skip(av, m) == arest);
                    lemma_compose_ops(sk, ar, br);
                    lemma_cons(OpView::Retain(n), c);
                    assert(apply_ops(av, b) == text_cat(tk, apply_ops(arest, br)));
                } else if size_lt(n, m) {
                    let r = size_sub(m, n);
                    lemma_text_cat_fits_right(tk, arest, r);
                    lemma_text_cat_cut(tk, arest, r);
                    assert(text_take(av, m) == text_cat(tk, text_take(arest, r)));
                    assert(text_skip(av, m) == text_skip(arest, r));
                    let b2 = cons(OpView::Retain(r), br);
                    lemma_cons(OpView::Retain(r), br);
                    assert(ops_wf(arest, b2));
                    lemma_compose_ops(sk, ar, b2);
                    let c = compose_ops(ar, b2);
                    lemma_cons(OpView::Retain(n), c);
                    lemma_text_take_skip(arest, r);
                    lemma_apply_ops_wf(text_skip(arest, r), br);
                    assert(apply_ops(arest, b2) == text_cat(
                        text_take(arest, r),
                        apply_ops(text_skip(arest, r), br),
                    ));
                    lemma_text_cat_assoc(
                        tk,
                        text_take(arest, r),
                        apply_ops(text_skip(arest, r), br),
                    );
                    assert(apply_ops(t, cons(OpView::Retain(n), c)) == text_cat(
                        tk,
                        apply_ops(sk, c),
                    ));
                } else {
                    let r = size_sub(n, m);
                    assert(size_le(m, text_len_of(tk)));
                    lemma_text_cat_fits_left(tk, arest, m);
                    lemma_text_take_fits(t, n, m);
                    lemma_text_split(t, m, n);
                    // take(t, n) splits at m into take(t, m) and the rest.
                    let mid = text_take(text_skip(t, m), r);
                    assert(tk == text_cat(text_take(t, m), mid));
                    lemma_text_take_skip(t, m);
                    lemma_text_take_skip(text_skip(t, m), r);
                    lemma_text_cat(text_take(t, m), mid);
                    assert(text_take(tk, m) == text_take(t, m));
                    assert(text_skip(tk, m) == mid);
                    lemma_text_cat_cut_left(tk, arest, m);
                    assert(text_take(av, m) == text_take(t, m));
                    assert(text_skip(av, m) == text_cat(mid, arest));
                    // The recursive composition reads from skip(t, m).
                    let a2 = cons(OpView::Retain(r), ar);
                    lemma_cons(OpView::Retain(r), ar);
                    assert(text_skip(text_skip(t, m), r) == text_skip(t, n));
                    assert(ops_wf(text_skip(t, m), a2));
                    assert(apply_ops(text_skip(t, m), a2) == text_cat(mid, arest));
                    lemma_compose_ops(text_skip(t, m), a2, br);
                    let c = compose_ops(a2, br);
                    lemma_cons(OpView::Retain(m), c);
                    assert(apply_ops(t, cons(OpView::Retain(m), c)) == text_cat(
                        text_take(t, m),
                        apply_ops(text_skip(t, m), c),
                    ));
                    assert(apply_ops(av, b) == text_cat(
                        text_take(t, m),
                        apply_ops(text_cat(mid, arest), br),
                    ));
                }
            },
            (OpView::Retain(n), OpView::Delete(m)) => {
                let ar = a.drop_first();
                let br = b.drop_first();
                let tk = text_take(t, n);
                let sk = text_skip(t, n);
                let arest = apply_ops(sk, ar);
                lemma_text_take_skip(t, n);
                lemma_apply_ops_wf(sk, ar);
                lemma_text_cat(tk, arest);
                assert(av == text_cat(tk, arest));
                if n == m {
                    let c = compose_ops(ar, br);
                    assert(text_skip(av, m) == arest);
                    lemma_compose_ops(sk, ar, br);
                    lemma_cons(OpView::Delete(m), c);
                } else if size_lt(n, m) {
                    let r = size_sub(m, n);
                    lemma_text_cat_fits_right(tk, arest, r);
                    lemma_text_cat_cut(tk, arest, r);
                    assert(text_skip(av, m) == text_skip(arest, r));
                    let b2 = cons(OpView::Delete(r), br);
                    lemma_cons(OpView::Delete(r), br);
                    assert(ops_wf(arest, b2));
                    lemma_compose_ops(sk, ar, b2);
                    let c = compose_ops(ar, b2);
                    lemma_cons(OpView::Delete(n), c);
                    assert(apply_ops(arest, b2) == apply_ops(text_skip(arest, r), br));
                } else {
                    let r = size_sub(n, m);
                    assert(size_le(m, text_len_of(tk)));
                    lemma_text_cat_fits_left(tk, arest, m);
                    lemma_text_take_fits(t, n, m);
                    lemma_text_split(t, m, n);
                    let mid = text_take(text_skip(t, m), r);
                    assert(tk == text_cat(text_take(t, m), mid));
                    lemma_text_take_skip(t, m);
                    lemma_text_take_skip(text_skip(t, m), r);
                    lemma_text_cat(text_take(t, m), mid);
                    lemma_text_cat_cut_left(tk, arest, m);
                    assert(text_skip(av, m) == text_cat(mid, arest));
                    let a2 = cons(OpView::Retain(r), ar);
                    lemma_cons(OpView::Retain(r), ar);
                    assert(text_skip(text_skip(t, m), r) == text_skip(t, n));
                    assert(ops_wf(text_skip(t, m), a2));
                    assert(apply_ops(text_skip(t, m), a2) == text_cat(mid, arest));
                    lemma_compose_ops(text_skip(t, m), a2, br);
                    let c = compose_ops(a2, br);
                    lemma_cons(OpView::Delete(m), c);
                }
            },
            (OpView::Insert(s), OpView::Retain(m)) => {
                let ar = a.drop_first();
                let br = b.drop_first();
                let arest = apply_ops(t, ar);
                lemma_apply_ops_wf(t, ar);
                lemma_text_cat(s, arest);
                assert(av == text_cat(s, arest));
                let ls = text_len_of(s);
                if ls == m {
                    let c = compose_ops(ar, br);
                    assert(text_take(av, m) == s);
                    assert(text_skip(av, m) == arest);
                    lemma_compose_ops(t, ar, br);
                    lemma_cons(OpView::Insert(s), c);
                } else if size_lt(ls, m) {
                    let r = size_sub(m, ls);
                    lemma_text_cat_fits_right(s, arest, r);
                    lemma_text_cat_cut(s, arest, r);
                    assert(text_take(av, m) == text_cat(s, text_take(arest, r)));
                    assert(text_skip(av, m) == text_skip(arest, r));
                    let b2 = cons(OpView::Retain(r), br);
                    lemma_cons(OpView::Retain(r), br);
                    assert(ops_wf(arest, b2));
                    lemma_compose_ops(t, ar, b2);
                    let c = compose_ops(ar, b2);
                    lemma_cons(OpView::Insert(s), c);
                    lemma_text_take_skip(arest, r);
                    lemma_apply_ops_wf(text_skip(arest, r), br);
                    assert(apply_ops(arest, b2) == text_cat(
                        text_take(arest, r),
                        apply_ops(text_skip(arest, r), br),
                    ));
                    lemma_text_cat_assoc(
                        s,
                        text_take(arest, r),
                        apply_ops(text_skip(arest, r), br),
                    );
                } else {
                    assert(size_le(m, ls));
                    lemma_text_cat_fits_left(s, arest, m);
                    lemma_text_take_skip(s, m);
                    lemma_text_cat_cut_left(s, arest, m);
                    assert(text_take(av, m) == text_take(s, m));
                    assert(text_skip(av, m) == text_cat(text_skip(s, m), arest));
                    let a2 = cons(OpView::Insert(text_skip(s, m)), ar);
                    lemma_cons(OpView::Insert(text_skip(s, m)), ar);
                    assert(ops_wf(t, a2));
                    assert(apply_ops(t, a2) == text_cat(text_skip(s, m), arest));
                    lemma_compose_ops(t, a2, br);
                    let c = compose_ops(a2, br);
                    lemma_cons(OpView::Insert(text_take(s, m)), c);
                }
            },
            (OpView::Insert(s), OpView::Delete(m)) => {
                let ar = a.drop_first();
                let br = b.drop_first();
                let arest = apply_ops(t, ar);
                lemma_apply_ops_wf(t, ar);
                lemma_text_cat(s, arest);
                assert(av == text_cat(s, arest));
                let ls = text_len_of(s);
                if ls == m {
                    assert(text_skip(av, m) == arest);
                    lemma_compose_ops(t, ar, br);
                } else if size_lt(ls, m) {
                    let r = size_sub(m, ls);
                    lemma_text_cat_fits_right(s, arest, r);
                    lemma_text_cat_cut(s, arest, r);
                    assert(text_skip(av, m) == text_skip(arest, r));
                    let b2 = cons(OpView::Delete(r), br);
                    lemma_cons(OpView::Delete(r), br);
                    assert(ops_wf(arest, b2));
                    lemma_compose_ops(t, ar, b2);
                    assert(apply_ops(arest, b2) == apply_ops(text_skip(arest, r), br));
                } else {
                    assert(size_le(m, ls));
                    lemma_text_cat_fits_left(s, arest, m);
                    lemma_text_take_skip(s, m);
                    lemma_text_cat_cut_left(s, arest, m);
                    assert(text_skip(av, m) == text_cat(text_skip(s, m), arest));
                    let a2 = cons(OpView::Insert(text_skip(s, m)), ar);
                    lemma_cons(OpView::Insert(text_skip(s, m)), ar);
                    assert(ops_wf(t, a2));
                    assert(apply_ops(t, a2) == text_cat(text_skip(s, m), arest));
                    lemma_compose_ops(t, a2, br);
                }
            },
            _ => {
                assert(false);
            },
        }
    }
}

/// Composition is associative: both groupings apply to the base text and
/// produce the same text. Equality of deltas is extensional here: the two
/// compositions have the same effect on the base text, and on every text of
/// the same shape.
pub proof fn lemma_compose_assoc(
    t: Seq<Seq<char>>,
    a: Seq<OpView>,
    b: Seq<OpView>,
    c: Seq<OpView>,
)
    requires
        ops_wf(t, a),
        ops_wf(apply_ops(t, a), b),
        ops_wf(apply_ops(apply_ops(t, a), b), c),
    ensures
        ops_wf(t, compose_ops(compose_ops(a, b), c)),
        ops_wf(t, compose_ops(a, compose_ops(b, c))),
        apply_ops(t, compose_ops(compose_ops(a, b), c)) == apply_ops(
            t,
            compose_ops(a, compose_ops(b, c)),
        ),
{
    lemma_compose_ops(t, a, b);
    lemma_compose_ops(apply_ops(t, a), b, c);
    lemma_compose_ops(t, compose_ops(a, b), c);
    lemma_compose_ops(t, a, compose_ops(b, c));
}

// ---------------------------------------------------------------------------
// Inversion: the script that undoes another one, built from the script and
// the base text it was applied to.
// ---------------------------------------------------------------------------

/// The inverse of `ops` over the base text `t`: retains stay, an insert
/// becomes a delete of its measure, and a delete becomes an insert of the
/// exact fragment of `t` it removed.
pub open spec fn invert_ops(t: Seq<Seq<char>>, ops: Seq<OpView>) -> Seq<OpView>
    decreases ops.len(),
{
    if ops.len() == 0 {
        Seq::empty()
    } else {
        match ops[0] {
            OpView::Retain(n) => cons(
                OpView::Retain(n),
                invert_ops(text_skip(t, n), ops.drop_first()),
            ),
            OpView::Insert(s) => cons(
                OpView::Delete(text_len_of(s)),
                invert_ops(t, ops.drop_first()),
            ),
            OpView::Delete(n) => cons(
                OpView::Insert(text_take(t, n)),
                invert_ops(text_skip(t, n), ops.drop_first()),
            ),
        }
    }
}

/// Inversion is correct: the inverse applies to the text the script
/// produced, and restores the base text exactly.
pub proof fn lemma_invert_ops(t: Seq<Seq<char>>, ops: Seq<OpView>)
    requires
        ops_wf(t, ops),
    ensures
        ops_wf(apply_ops(t, ops), invert_ops(t, ops)),
        apply_ops(apply_ops(t, ops), invert_ops(t, ops)) == t,
    decreases ops.len(),
{
    let av = apply_ops(t, ops);
    lemma_apply_ops_wf(t, ops);
    if ops.len() > 0 {
        let rest = ops.drop_first();
        match ops[0] {
            OpView::Retain(n) => {
                let tk = text_take(t, n);
                let sk = text_skip(t, n);
                let arest = apply_ops(sk, rest);
                lemma_text_take_skip(t, n);
                lemma_apply_ops_wf(sk, rest);
                lemma_text_cat(tk, arest);
                lemma_invert_ops(sk, rest);
                lemma_cons(OpView::Retain(n), invert_ops(sk, rest));
                assert(text_skip(av, n) == arest);
                assert(text_take(av, n) == tk);
            },
            OpView::Insert(s) => {
                let arest = apply_ops(t, rest);
                lemma_apply_ops_wf(t, rest);
                lemma_text_cat(s, arest);
                lemma_invert_ops(t, rest);
                lemma_cons(OpView::Delete(text_len_of(s)), invert_ops(t, rest));
                assert(text_skip(av, text_len_of(s)) == arest);
            },
            OpView::Delete(n) => {
                let tk = text_take(t, n);
                let sk = text_skip(t, n);
                lemma_text_take_skip(t, n);
                lemma_invert_ops(sk, rest);
                lemma_cons(OpView::Insert(tk), invert_ops(sk, rest));
                assert(apply_ops(av, invert_ops(t, ops)) == text_cat(
                    tk,
                    apply_ops(av, invert_ops(sk, rest)),
                ));
            },
        }
    }
}

// ---------------------------------------------------------------------------
// Transformation: reconciling two scripts over one base text.
// ---------------------------------------------------------------------------

/// The transform of two scripts `a` and `b` built against the same base
/// text: a pair `(ax, bx)` where `ax` is `a` re-targeted to apply after `b`,
/// and `bx` is `b` re-targeted to apply after `a`. Inserts of `a`, the first
/// argument, are ordered before inserts of `b` at the same point; text
/// deleted by either side stays deleted.
pub open spec fn transform_ops(a: Seq<OpView>, b: Seq<OpView>) -> (Seq<OpView>, Seq<OpView>)
    decreases a.len() + b.len(),
{
    if a.len() > 0 && a[0] is Insert {
        let s = a[0]->Insert_0;
        let p = transform_ops(a.drop_first(), b);
        (cons(OpView::Insert(s), p.0), cons(OpView::Retain(text_len_of(s)), p.1))
    } else if b.len() > 0 && b[0] is Insert {
        let s = b[0]->Insert_0;
        let p = transform_ops(a, b.drop_first());
        (cons(OpView::Retain(text_len_of(s)), p.0), cons(OpView::Insert(s), p.1))
    } else if a.len() == 0 {
        (Seq::empty(), b)
    } else if b.len() == 0 {
        (a, Seq::empty())
    } else {
        match (a[0], b[0]) {
            (OpView::Retain(n), OpView::Retain(m)) => {
                if n == m {
                    let p = transform_ops(a.drop_first(), b.drop_first());
                    (cons(OpView::Retain(n), p.0), cons(OpView::Retain(n), p.1))
                } else if size_lt(n, m) {
                    let p = transform_ops(
                        a.drop_first(),
                        cons(OpView::Retain(size_sub(m, n)), b.drop_first()),
                    );
                    (cons(OpView::Retain(n), p.0), cons(OpView::Retain(n), p.1))
                } else {
                    let p = transform_ops(
                        cons(OpView::Retain(size_sub(n, m)), a.drop_first()),
                        b.drop_first(),
                    );
                    (cons(OpView::Retain(m), p.0), cons(OpView::Retain(m), p.1))
                }
            },
            (OpView::Delete(n), OpView::Delete(m)) => {
                if n == m {
                    transform_ops(a.drop_first(), b.drop_first())
                } else if size_lt(n, m) {
                    transform_ops(
                        a.drop_first(),
                        cons(OpView::Delete(size_sub(m, n)), b.drop_first()),
                    )
                } else {
                    transform_ops(
                        cons(OpView::Delete(size_sub(n, m)), a.drop_first()),
                        b.drop_first(),
                    )
                }
            },
            (OpView::Delete(n), OpView::Retain(m)) => {
                if n == m {
                    let p = transform_ops(a.drop_first(), b.drop_first());
                    (cons(OpView::Delete(n), p.0), p.1)
                } else if size_lt(n, m) {
                    let p = transform_ops(
                        a.drop_first(),
                        cons(OpView::Retain(size_sub(m, n)), b.drop_first()),
                    );
                    (cons(OpView::Delete(n), p.0), p.1)
                } else {
                    let p = transform_ops(
                        cons(OpView::Delete(size_sub(n, m)), a.drop_first()),
                        b.drop_first(),
                    );
                    (cons(OpView::Delete(m), p.0), p.1)
                }
            },
            (OpView::Retain(n), OpView::Delete(m)) => {
                if n == m {
                    let p = transform_ops(a.drop_first(), b.drop_first());
                    (p.0, cons(OpView::Delete(m), p.1))
                } else if size_lt(n, m) {
                    let p = transform_ops(
                        a.drop_first(),
                        cons(OpView::Delete(size_sub(m, n)), b.drop_first()),
                    );
                    (p.0, cons(OpView::Delete(n), p.1))
                } else {
                    let p = transform_ops(
                        cons(OpView::Retain(size_sub(n, m)), a.drop_first()),
                        b.drop_first(),
                    );
                    (p.0, cons(OpView::Delete(m), p.1))
                }
            },
            _ => (Seq::empty(), Seq::empty()),
        }
    }
}

/// The diamond property in its composed form: for two scripts over the same
/// base text, composing the first with the transformed second equals
/// composing the second with the transformed first — both apply to the base
/// text and produce the same text.
pub proof fn lemma_transform_diamond(t: Seq<Seq<char>>, a: Seq<OpView>, b: Seq<OpView>)
    requires
        ops_wf(t, a),
        ops_wf(t, b),
    ensures
        ({
            let p = transform_ops(a, b);
            &&& ops_wf(t, compose_ops(a, p.1))
            &&& ops_wf(t, compose_ops(b, p.0))
            &&& apply_ops(t, compose_ops(a, p.1)) == apply_ops(t, compose_ops(b, p.0))
        }),
{
    let p = transform_ops(a, b);
    lemma_transform_ops(t, a, b);
    lemma_compose_ops(t, a, p.1);
    lemma_compose_ops(t, b, p.0);
}

/// The diamond property: for two scripts over the same base text, each
/// transformed script applies to the other script's output, and both orders
/// of application converge to the same text.
#[verifier::rlimit(100)]
#[verifier::spinoff_prover]
pub proof fn lemma_transform_ops(t: Seq<Seq<char>>, a: Seq<OpView>, b: Seq<OpView>)
    requires
        ops_wf(t, a),
        ops_wf(t, b),
    ensures
        ops_wf(apply_ops(t, b), transform_ops(a, b).0),
        ops_wf(apply_ops(t, a), transform_ops(a, b).1),
        apply_ops(apply_ops(t, a), transform_ops(a, b).1) == apply_ops(
            apply_ops(t, b),
            transform_ops(a, b).0,
        ),
    decreases a.len() + b.len(),
{
    let av = apply_ops(t, a);
    let bv = apply_ops(t, b);
    lemma_apply_ops_wf(t, a);
    lemma_apply_ops_wf(t, b);
    if a.len() > 0 && a[0] is Insert {
        let s = a[0]->Insert_0;
        let ar = a.drop_first();
        let arest = apply_ops(t, ar);
        lemma_apply_ops_wf(t, ar);
        lemma_text_cat(s, arest);
        assert(av == text_cat(s, arest));
        let p = transform_ops(ar, b);
        lemma_transform_ops(t, ar, b);
        lemma_cons(OpView::Insert(s), p.0);
        lemma_cons(OpView::Retain(text_len_of(s)), p.1);
        assert(text_skip(av, text_len_of(s)) == arest);
        assert(text_take(av, text_len_of(s)) == s);
    } else if b.len() > 0 && b[0] is Insert {
        let s = b[0]->Insert_0;
        let br = b.drop_first();
        let brest = apply_ops(t, br);
        lemma_apply_ops_wf(t, br);
        lemma_text_cat(s, brest);
        assert(bv == text_cat(s, brest));
        let p = transform_ops(a, br);
        lemma_transform_ops(t, a, br);
        lemma_cons(OpView::Retain(text_len_of(s)), p.0);
        lemma_cons(OpView::Insert(s), p.1);
        assert(text_skip(bv, text_len_of(s)) == brest);
        assert(text_take(bv, text_len_of(s)) == s);
    } else if a.len() == 0 {
    } else if b.len() == 0 {
    } else {
        let ar = a.drop_first();
        let br = b.drop_first();
        match (a[0], b[0]) {
            (OpView::Retain(n), OpView::Retain(m)) => {
                lemma_text_take_skip(t, n);
                lemma_text_take_skip(t, m);
                if n == m {
                    let tk = text_take(t, n);
                    let sk = text_skip(t, n);
                    let arest = apply_ops(sk, ar);
                    let brest = apply_ops(sk, br);
                    lemma_apply_ops_wf(sk, ar);
                    lemma_apply_ops_wf(sk, br);
                    lemma_text_cat(tk, arest);
                    lemma_text_cat(tk, brest);
                    let p = transform_ops(ar, br);
                    lemma_transform_ops(sk, ar, br);
                    lemma_cons(OpView::Retain(n), p.0);
                    lemma_cons(OpView::Retain(n), p.1);
                    assert(text_skip(av, n) == arest);
                    assert(text_skip(bv, n) == brest);
                } else if size_lt(n, m) {
                    let r = size_sub(m, n);
                    let tk = text_take(t, n);
                    let sk = text_skip(t, n);
                    lemma_text_split(t, n, m);
                    lemma_text_take_skip(sk, r);
                    let b2 = cons(OpView::Retain(r), br);
                    lemma_cons(OpView::Retain(r), br);
                    assert(ops_wf(sk, b2));
                    let arest = apply_ops(sk, ar);
                    let brest = apply_ops(sk, b2);
                    lemma_apply_ops_wf(sk, ar);
                    lemma_apply_ops_wf(sk, b2);
                    lemma_text_cat(tk, arest);
                    lemma_text_cat(tk, brest);
                    // b's output regroups around the cut at n.
                    let btail = apply_ops(text_skip(t, m), br);
                    lemma_apply_ops_wf(text_skip(t, m), br);
                    lemma_text_cat(text_take(sk, r), btail);
                    lemma_text_cat_assoc(tk, text_take(sk, r), btail);
                    assert(bv == text_cat(tk, brest));
                    let p = transform_ops(ar, b2);
                    lemma_transform_ops(sk, ar, b2);
                    lemma_cons(OpView::Retain(n), p.0);
                    lemma_cons(OpView::Retain(n), p.1);
                    assert(text_skip(av, n) == arest);
                    assert(text_skip(bv, n) == brest);
                } else {
                    let r = size_sub(n, m);
                    let tk = text_take(t, m);
                    let sk = text_skip(t, m);
                    lemma_text_split(t, m, n);
                    lemma_text_take_skip(sk, r);
                    let a2 = cons(OpView::Retain(r), ar);
                    lemma_cons(OpView::Retain(r), ar);
                    assert(ops_wf(sk, a2));
                    let arest = apply_ops(sk, a2);
                    let brest = apply_ops(sk, br);
                    lemma_apply_ops_wf(sk, a2);
                    lemma_apply_ops_wf(sk, br);
                    lemma_text_cat(tk, arest);
                    lemma_text_cat(tk, brest);
                    let atail = apply_ops(text_skip(t, n), ar);
                    lemma_apply_ops_wf(text_skip(t, n), ar);
                    lemma_text_cat(text_take(sk, r), atail);
                    lemma_text_cat_assoc(tk, text_take(sk, r), atail);
                    assert(av == text_cat(tk, arest));
                    let p = transform_ops(a2, br);
                    lemma_transform_ops(sk, a2, br);
                    lemma_cons(OpView::Retain(m), p.0);
                    lemma_cons(OpView::Retain(m), p.1);
                    assert(text_skip(av, m) == arest);
                    assert(text_skip(bv, m) == brest);
                }
            },
            (OpView::Delete(n), OpView::Delete(m)) => {
                lemma_text_take_skip(t, n);
                lemma_text_take_skip(t, m);
                if n == m {
                    lemma_transform_ops(text_skip(t, n), ar, br);
                } else if size_lt(n, m) {
                    let r = size_sub(m, n);
                    let sk = text_skip(t, n);
                    lemma_text_split(t, n, m);
                    let b2 = cons(OpView::Delete(r), br);
                    lemma_cons(OpView::Delete(r), br);
                    assert(ops_wf(sk, b2));
                    assert(apply_ops(sk, b2) == bv);
                    lemma_transform_ops(sk, ar, b2);
                } else {
                    let r = size_sub(n, m);
                    let sk = text_skip(t, m);
                    lemma_text_split(t, m, n);
                    let a2 = cons(OpView::Delete(r), ar);
                    lemma_cons(OpView::Delete(r), ar);
                    assert(ops_wf(sk, a2));
                    assert(apply_ops(sk, a2) == av);
                    lemma_transform_ops(sk, a2, br);
                }
            },
            (OpView::Delete(n), OpView::Retain(m)) => {
                lemma_text_take_skip(t, n);
                lemma_text_take_skip(t, m);
                if n == m {
                    let tk = text_take(t, n);
                    let sk = text_skip(t, n);
                    let brest = apply_ops(sk, br);
                    lemma_apply_ops_wf(sk, br);
                    lemma_text_cat(tk, brest);
                    let p = transform_ops(ar, br);
                    lemma_transform_ops(sk, ar, br);
                    lemma_cons(OpView::Delete(n), p.0);
                    assert(text_skip(bv, n) == brest);
                } else if size_lt(n, m) {
                    let r = size_sub(m, n);
                    let tk = text_take(t, n);
                    let sk = text_skip(t, n);
                    lemma_text_split(t, n, m);
                    lemma_text_take_skip(sk, r);
                    let b2 = cons(OpView::Retain(r), br);
                    lemma_cons(OpView::Retain(r), br);
                    assert(ops_wf(sk, b2));
                    let brest = apply_ops(sk, b2);
                    lemma_apply_ops_wf(sk, b2);
                    lemma_text_cat(tk, brest);
                    let btail = apply_ops(text_skip(t, m), br);
                    lemma_apply_ops_wf(text_skip(t, m), br);
                    lemma_text_cat(text_take(sk, r), btail);
                    lemma_text_cat_assoc(tk, text_take(sk, r), btail);
                    assert(bv == text_cat(tk, brest));
                    let p = transform_ops(ar, b2);
                    lemma_transform_ops(sk, ar, b2);
                    lemma_cons(OpView::Delete(n), p.0);
                    assert(text_skip(bv, n) == brest);
                } else {
                    let r = size_sub(n, m);
                    let tk = text_take(t, m);
                    let sk = text_skip(t, m);
                    lemma_text_split(t, m, n);
                    lemma_text_take_skip(sk, r);
                    let a2 = cons(OpView::Delete(r), ar);
                    lemma_cons(OpView::Delete(r), ar);
                    assert(ops_wf(sk, a2));
                    assert(apply_ops(sk, a2) == av);
                    let brest = apply_ops(sk, br);
                    lemma_apply_ops_wf(sk, br);
                    lemma_text_cat(tk, brest);
                    let p = transform_ops(a2, br);
                    lemma_transform_ops(sk, a2, br);
                    lemma_cons(OpView::Delete(m), p.0);
                    assert(text_skip(bv, m) == brest);
                }
            },
            (OpView::Retain(n), OpView::Delete(m)) => {
                lemma_text_take_skip(t, n);
                lemma_text_take_skip(t, m);
                if n == m {
                    let tk = text_take(t, n);
                    let sk = text_skip(t, n);
                    let arest = apply_ops(sk, ar);
                    lemma_apply_ops_wf(sk, ar);
                    lemma_text_cat(tk, arest);
                    let p = transform_ops(ar, br);
                    lemma_transform_ops(sk, ar, br);
                    lemma_cons(OpView::Delete(m), p.1);
                    assert(text_skip(av, n) == arest);
                } else if size_lt(n, m) {
                    let r = size_sub(m, n);
                    let tk = text_take(t, n);
                    let sk = text_skip(t, n);
                    lemma_text_split(t, n, m);
                    lemma_text_take_skip(sk, r);
                    let b2 = cons(OpView::Delete(r), br);
                    lemma_cons(OpView::Delete(r), br);
                    assert(ops_wf(sk, b2));
                    assert(apply_ops(sk, b2) == bv);
                    let arest = apply_ops(sk, ar);
                    lemma_apply_ops_wf(sk, ar);
                    lemma_text_cat(tk, arest);
                    let p = transform_ops(ar, b2);
                    lemma_transform_ops(sk, ar, b2);
                    lemma_cons(OpView::Delete(n), p.1);
                    assert(text_skip(av, n) == arest);
                } else {
                    let r = size_sub(n, m);
                    let tk = text_take(t, m);
                    let sk = text_skip(t, m);
                    lemma_text_split(t, m, n);
                    lemma_text_take_skip(sk, r);
                    let a2 = cons(OpView::Retain(r), ar);
                    lemma_cons(OpView::Retain(r), ar);
                    assert(ops_wf(sk, a2));
                    let arest = apply_ops(sk, a2);
                    lemma_apply_ops_wf(sk, a2);
                    lemma_text_cat(tk, arest);
                    let atail = apply_ops(text_skip(t, n), ar);
                    lemma_apply_ops_wf(text_skip(t, n), ar);
                    lemma_text_cat(text_take(sk, r), atail);
                    lemma_text_cat_assoc(tk, text_take(sk, r), atail);
                    assert(av == text_cat(tk, arest));
                    let p = transform_ops(a2, br);
                    lemma_transform_ops(sk, a2, br);
                    lemma_cons(OpView::Delete(m), p.1);
                    assert(text_skip(av, m) == arest);
                }
            },
            _ => {
                assert(false);
            },
        }
    }
}

} // verus!
