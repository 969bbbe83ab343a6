use crate::delta::{
    apply_ops, lemma_apply_ops_wf, ops_wf, pop_front, push_front, Delta, OpView, Operation,
};
use crate::laws::{
    compose_ops, cons, invert_ops, lemma_compose_ops, lemma_cons, lemma_invert_ops,
    lemma_transform_ops, transform_ops,
};
use crate::size::{size_add, size_le, size_lt, size_sub, Size};
use crate::text::{
    lemma_text_cat, lemma_text_cat_cut, lemma_text_cat_cut_left, lemma_text_cat_fits_left,
    lemma_text_cat_fits_right, lemma_text_split, lemma_text_take_fits, lemma_text_take_skip,
    size_fits, text_cat, text_len_of, text_skip, text_take, text_wf, Text,
};
use vstd::prelude::*;

verus! {

// ---------------------------------------------------------------------------
// Inversion.
// ---------------------------------------------------------------------------

fn invert_rec(t: &Text, operations: &Vec<Operation>, i: usize) -> (r: Vec<Operation>)
    requires
        t.wf(),
        i <= operations@.len(),
        ops_wf(t@, operations.deep_view().skip(i as int)),
    ensures
        r.deep_view() == invert_ops(t@, operations.deep_view().skip(i as int)),
    decreases operations@.len() - i,
{
    let ghost ops = operations.deep_view().skip(i as int);
    if i == operations.len() {
        let r: Vec<Operation> = Vec::new();
        proof {
            assert(r.deep_view() =~= invert_ops(t@, ops));
        }
        r
    } else {
        assert(ops[0] == operations.deep_view()[i as int]);
        assert(ops.drop_first() =~= operations.deep_view().skip(i as int + 1));
        match &operations[i] {
            Operation::Retain(n) => {
                proof {
                    lemma_text_take_skip(t@, n@);
                    lemma_cons(OpView::Retain(n@), invert_ops(text_skip(t@, n@), ops.drop_first()));
                }
                let sk = t.skip_size(*n);
                let mut rest = invert_rec(&sk, operations, i + 1);
                push_front(&mut rest, Operation::Retain(*n));
                rest
            },
            Operation::Insert(s) => {
                proof {
                    lemma_cons(OpView::Delete(text_len_of(s@)), invert_ops(t@, ops.drop_first()));
                }
                let measure = s.len();
                let mut rest = invert_rec(t, operations, i + 1);
                push_front(&mut rest, Operation::Delete(measure));
                rest
            },
            Operation::Delete(n) => {
                proof {
                    lemma_text_take_skip(t@, n@);
                    lemma_cons(
                        OpView::Insert(text_take(t@, n@)),
                        invert_ops(text_skip(t@, n@), ops.drop_first()),
                    );
                }
                let tk = t.take_size(*n);
                let sk = t.skip_size(*n);
                let mut rest = invert_rec(&sk, operations, i + 1);
                push_front(&mut rest, Operation::Insert(tk));
                rest
            },
        }
    }
}

impl Delta {
    /// The delta that undoes this one, built from this delta and the base
    /// text it was applied to. The inverse applies to the text this delta
    /// produced, and restores the base text exactly.
    pub fn invert(&self, base: &Text) -> (r: Delta)
        requires
            base.wf(),
            ops_wf(base@, self@),
        ensures
            r@ == invert_ops(base@, self@),
            ops_wf(apply_ops(base@, self@), r@),
            apply_ops(apply_ops(base@, self@), r@) == base@,
    {
        proof {
            lemma_invert_ops(base@, self@);
        }
        let ops = self.operations();
        assert(ops.deep_view().skip(0) =~= self@);
        Delta::from_operations(invert_rec(base, ops, 0))
    }
}

// ---------------------------------------------------------------------------
// Transformation.
// ---------------------------------------------------------------------------

#[verifier::rlimit(100)]
#[verifier::spinoff_prover]
fn transform_rec(a: Vec<Operation>, b: Vec<Operation>) -> (r: (Vec<Operation>, Vec<Operation>))
    ensures
        r.0.deep_view() == transform_ops(a.deep_view(), b.deep_view()).0,
        r.1.deep_view() == transform_ops(a.deep_view(), b.deep_view()).1,
    decreases a@.len() + b@.len(),
{
    let ghost adv = a.deep_view();
    let ghost bdv = b.deep_view();
    if a.len() > 0 && a[0].is_insert() {
        let mut a = a;
        let op = pop_front(&mut a);
        if let Operation::Insert(s) = op {
            proof {
                use_type_invariant(&s);
            }
            let measure = s.len();
            let (mut r0, mut r1) = transform_rec(a, b);
            proof {
                lemma_cons(OpView::Insert(s@), transform_ops(adv.drop_first(), bdv).0);
                lemma_cons(
                    OpView::Retain(text_len_of(s@)),
                    transform_ops(adv.drop_first(), bdv).1,
                );
            }
            push_front(&mut r1, Operation::Retain(measure));
            push_front(&mut r0, Operation::Insert(s));
            (r0, r1)
        } else {
            proof {
                assert(false);
            }
            vstd::pervasive::unreached()
        }
    } else if b.len() > 0 && b[0].is_insert() {
        let mut b = b;
        let op = pop_front(&mut b);
        if let Operation::Insert(s) = op {
            proof {
                use_type_invariant(&s);
            }
            let measure = s.len();
            let (mut r0, mut r1) = transform_rec(a, b);
            proof {
                lemma_cons(
                    OpView::Retain(text_len_of(s@)),
                    transform_ops(adv, bdv.drop_first()).0,
                );
                lemma_cons(OpView::Insert(s@), transform_ops(adv, bdv.drop_first()).1);
            }
            push_front(&mut r0, Operation::Retain(measure));
            push_front(&mut r1, Operation::Insert(s));
            (r0, r1)
        } else {
            proof {
                assert(false);
            }
            vstd::pervasive::unreached()
        }
    } else if a.len() == 0 {
        let r: Vec<Operation> = Vec::new();
        proof {
            assert(r.deep_view() =~= Seq::<OpView>::empty());
            assert(adv =~= Seq::<OpView>::empty());
        }
        (r, b)
    } else if b.len() == 0 {
        let r: Vec<Operation> = Vec::new();
        proof {
            assert(r.deep_view() =~= Seq::<OpView>::empty());
            assert(bdv =~= Seq::<OpView>::empty());
        }
        (a, r)
    } else {
        let mut a = a;
        let mut b = b;
        let opa = pop_front(&mut a);
        let opb = pop_front(&mut b);
        match (opa, opb) {
            (Operation::Retain(n), Operation::Retain(m)) => {
                if n == m {
                    let ghost p = transform_ops(adv.drop_first(), bdv.drop_first());
                    let (mut r0, mut r1) = transform_rec(a, b);
                    proof {
                        lemma_cons(OpView::Retain(n@), p.0);
                        lemma_cons(OpView::Retain(n@), p.1);
                    }
                    push_front(&mut r0, Operation::Retain(n));
                    push_front(&mut r1, Operation::Retain(n));
                    (r0, r1)
                } else if n.lt(&m) {
                    let ghost b2 = cons(OpView::Retain(size_sub(m@, n@)), bdv.drop_first());
                    push_front(&mut b, Operation::Retain(m.minus(n)));
                    assert(b.deep_view() == b2);
                    let ghost p = transform_ops(adv.drop_first(), b2);
                    let (mut r0, mut r1) = transform_rec(a, b);
                    proof {
                        lemma_cons(OpView::Retain(n@), p.0);
                        lemma_cons(OpView::Retain(n@), p.1);
                    }
                    push_front(&mut r0, Operation::Retain(n));
                    push_front(&mut r1, Operation::Retain(n));
                    (r0, r1)
                } else {
                    assert(size_lt(m@, n@));
                    let ghost a2 = cons(OpView::Retain(size_sub(n@, m@)), adv.drop_first());
                    push_front(&mut a, Operation::Retain(n.minus(m)));
                    assert(a.deep_view() == a2);
                    let ghost p = transform_ops(a2, bdv.drop_first());
                    let (mut r0, mut r1) = transform_rec(a, b);
                    proof {
                        lemma_cons(OpView::Retain(m@), p.0);
                        lemma_cons(OpView::Retain(m@), p.1);
                    }
                    push_front(&mut r0, Operation::Retain(m));
                    push_front(&mut r1, Operation::Retain(m));
                    (r0, r1)
                }
            },
            (Operation::Delete(n), Operation::Delete(m)) => {
                if n == m {
                    transform_rec(a, b)
                } else if n.lt(&m) {
                    let ghost b2 = cons(OpView::Delete(size_sub(m@, n@)), bdv.drop_first());
                    push_front(&mut b, Operation::Delete(m.minus(n)));
                    assert(b.deep_view() == b2);
                    transform_rec(a, b)
                } else {
                    assert(size_lt(m@, n@));
                    let ghost a2 = cons(OpView::Delete(size_sub(n@, m@)), adv.drop_first());
                    push_front(&mut a, Operation::Delete(n.minus(m)));
                    assert(a.deep_view() == a2);
                    transform_rec(a, b)
                }
            },
            (Operation::Delete(n), Operation::Retain(m)) => {
                if n == m {
                    let ghost p = transform_ops(adv.drop_first(), bdv.drop_first());
                    let (mut r0, r1) = transform_rec(a, b);
                    proof {
                        lemma_cons(OpView::Delete(n@), p.0);
                    }
                    push_front(&mut r0, Operation::Delete(n));
                    (r0, r1)
                } else if n.lt(&m) {
                    let ghost b2 = cons(OpView::Retain(size_sub(m@, n@)), bdv.drop_first());
                    push_front(&mut b, Operation::Retain(m.minus(n)));
                    assert(b.deep_view() == b2);
                    let ghost p = transform_ops(adv.drop_first(), b2);
                    let (mut r0, r1) = transform_rec(a, b);
                    proof {
                        lemma_cons(OpView::Delete(n@), p.0);
                    }
                    push_front(&mut r0, Operation::Delete(n));
                    (r0, r1)
                } else {
                    assert(size_lt(m@, n@));
                    let ghost a2 = cons(OpView::Delete(size_sub(n@, m@)), adv.drop_first());
                    push_front(&mut a, Operation::Delete(n.minus(m)));
                    assert(a.deep_view() == a2);
                    let ghost p = transform_ops(a2, bdv.drop_first());
                    let (mut r0, r1) = transform_rec(a, b);
                    proof {
                        lemma_cons(OpView::Delete(m@), p.0);
                    }
                    push_front(&mut r0, Operation::Delete(m));
                    (r0, r1)
                }
            },
            (Operation::Retain(n), Operation::Delete(m)) => {
                if n == m {
                    let ghost p = transform_ops(adv.drop_first(), bdv.drop_first());
                    let (r0, mut r1) = transform_rec(a, b);
                    proof {
                        lemma_cons(OpView::Delete(m@), p.1);
                    }
                    push_front(&mut r1, Operation::Delete(m));
                    (r0, r1)
                } else if n.lt(&m) {
                    let ghost b2 = cons(OpView::Delete(size_sub(m@, n@)), bdv.drop_first());
                    push_front(&mut b, Operation::Delete(m.minus(n)));
                    assert(b.deep_view() == b2);
                    let ghost p = transform_ops(adv.drop_first(), b2);
                    let (r0, mut r1) = transform_rec(a, b);
                    proof {
                        lemma_cons(OpView::Delete(n@), p.1);
                    }
                    push_front(&mut r1, Operation::Delete(n));
                    (r0, r1)
                } else {
                    assert(size_lt(m@, n@));
                    let ghost a2 = cons(OpView::Retain(size_sub(n@, m@)), adv.drop_first());
                    push_front(&mut a, Operation::Retain(n.minus(m)));
                    assert(a.deep_view() == a2);
                    let ghost p = transform_ops(a2, bdv.drop_first());
                    let (r0, mut r1) = transform_rec(a, b);
                    proof {
                        lemma_cons(OpView::Delete(m@), p.1);
                    }
                    push_front(&mut r1, Operation::Delete(m));
                    (r0, r1)
                }
            },
            _ => {
                proof {
                    assert(false);
                }
                vstd::pervasive::unreached()
            },
        }
    }
}

impl Delta {
    /// Reconciles this delta with another one built against the same base
    /// text. Returns `(ax, bx)`: this delta re-targeted to apply after
    /// `other`, and `other` re-targeted to apply after this delta. Applying
    /// `self` then `bx` and applying `other` then `ax` converge to the same
    /// text; inserts of `self` at a point are ordered before inserts of
    /// `other` at the same point.
    pub fn transform(self, other: Delta) -> (r: (Delta, Delta))
        ensures
            r.0@ == transform_ops(self@, other@).0,
            r.1@ == transform_ops(self@, other@).1,
            forall|t: Seq<Seq<char>>|
                ops_wf(t, self@) && ops_wf(t, other@) ==> {
                    &&& ops_wf(apply_ops(t, other@), r.0@)
                    &&& ops_wf(apply_ops(t, self@), r.1@)
                    &&& apply_ops(apply_ops(t, self@), r.1@) == apply_ops(
                        apply_ops(t, other@),
                        r.0@,
                    )
                },
    {
        let ghost av = self@;
        let ghost bv = other@;
        let (r0, r1) = transform_rec(self.into_operations(), other.into_operations());
        proof {
            assert forall|t: Seq<Seq<char>>| ops_wf(t, av) && ops_wf(t, bv) implies {
                &&& ops_wf(apply_ops(t, bv), transform_ops(av, bv).0)
                &&& ops_wf(apply_ops(t, av), transform_ops(av, bv).1)
                &&& apply_ops(apply_ops(t, av), transform_ops(av, bv).1) == apply_ops(
                    apply_ops(t, bv),
                    transform_ops(av, bv).0,
                )
            } by {
                lemma_transform_ops(t, av, bv);
            }
        }
        (Delta::from_operations(r0), Delta::from_operations(r1))
    }
}

// ---------------------------------------------------------------------------
// Composition.
// ---------------------------------------------------------------------------

#[verifier::rlimit(100)]
#[verifier::spinoff_prover]
fn compose_rec(a: Vec<Operation>, b: Vec<Operation>) -> (r: Vec<Operation>)
    requires
        exists|t: Seq<Seq<char>>|
            ops_wf(t, a.deep_view()) && ops_wf(apply_ops(t, a.deep_view()), b.deep_view()),
    ensures
        r.deep_view() == compose_ops(a.deep_view(), b.deep_view()),
    decreases a@.len() + b@.len(),
{
    let ghost adv = a.deep_view();
    let ghost bdv = b.deep_view();
    let ghost t = choose|t: Seq<Seq<char>>| ops_wf(t, adv) && ops_wf(apply_ops(t, adv), bdv);
    let ghost av = apply_ops(t, adv);
    proof {
        lemma_apply_ops_wf(t, adv);
    }
    if b.len() > 0 && b[0].is_insert() {
        let mut b = b;
        let op = pop_front(&mut b);
        proof {
            assert(ops_wf(av, b.deep_view()));
            assert(exists|t2: Seq<Seq<char>>|
                ops_wf(t2, a.deep_view()) && ops_wf(apply_ops(t2, a.deep_view()), b.deep_view()));
            lemma_cons(bdv[0], compose_ops(adv, bdv.drop_first()));
        }
        let mut r = compose_rec(a, b);
        push_front(&mut r, op);
        r
    } else if a.len() > 0 && a[0].is_delete() {
        let mut a = a;
        let op = pop_front(&mut a);
        proof {
            let n = adv[0]->Delete_0;
            assert(ops_wf(text_skip(t, n), a.deep_view()));
            assert(apply_ops(text_skip(t, n), a.deep_view()) == av);
            assert(exists|t2: Seq<Seq<char>>|
                ops_wf(t2, a.deep_view()) && ops_wf(apply_ops(t2, a.deep_view()), b.deep_view()));
            lemma_cons(adv[0], compose_ops(adv.drop_first(), bdv));
        }
        let mut r = compose_rec(a, b);
        push_front(&mut r, op);
        r
    } else if a.len() == 0 {
        b
    } else if b.len() == 0 {
        a
    } else {
        let mut a = a;
        let mut b = b;
        let opa = pop_front(&mut a);
        let opb = pop_front(&mut b);
        let ghost ar = adv.drop_first();
        let ghost br = bdv.drop_first();
        match (opa, opb) {
            (Operation::Retain(n), Operation::Retain(m)) => {
                let ghost tk = text_take(t, n@);
                let ghost sk = text_skip(t, n@);
                let ghost arest = apply_ops(sk, ar);
                proof {
                    lemma_text_take_skip(t, n@);
                    lemma_apply_ops_wf(sk, ar);
                    lemma_text_cat(tk, arest);
                    assert(av == text_cat(tk, arest));
                }
                if n == m {
                    proof {
                        assert(text_skip(av, m@) == arest);
                        assert(ops_wf(sk, a.deep_view()));
                        assert(apply_ops(sk, a.deep_view()) == arest);
                        assert(exists|t2: Seq<Seq<char>>|
                            ops_wf(t2, a.deep_view()) && ops_wf(
                                apply_ops(t2, a.deep_view()),
                                b.deep_view(),
                            ));
                        lemma_cons(OpView::Retain(n@), compose_ops(ar, br));
                    }
                    let mut r = compose_rec(a, b);
                    push_front(&mut r, Operation::Retain(n));
                    r
                } else if n.lt(&m) {
                    let ghost r_sz = size_sub(m@, n@);
                    proof {
                        crate::size::lemma_size_add_sub(n@, m@);
                        lemma_text_cat_fits_right(tk, arest, r_sz);
                        lemma_text_cat_cut(tk, arest, r_sz);
                        assert(text_skip(av, m@) == text_skip(arest, r_sz));
                    }
                    push_front(&mut b, Operation::Retain(m.minus(n)));
                    proof {
                        assert(b.deep_view() == cons(OpView::Retain(r_sz), br));
                        lemma_cons(OpView::Retain(r_sz), br);
                        assert(ops_wf(arest, b.deep_view()));
                        assert(ops_wf(sk, a.deep_view()));
                        assert(apply_ops(sk, a.deep_view()) == arest);
                        assert(exists|t2: Seq<Seq<char>>|
                            ops_wf(t2, a.deep_view()) && ops_wf(
                                apply_ops(t2, a.deep_view()),
                                b.deep_view(),
                            ));
                        lemma_cons(
                            OpView::Retain(n@),
                            compose_ops(ar, cons(OpView::Retain(r_sz), br)),
                        );
                    }
                    let mut r = compose_rec(a, b);
                    push_front(&mut r, Operation::Retain(n));
                    r
                } else {
                    assert(size_lt(m@, n@));
                    let ghost r_sz = size_sub(n@, m@);
                    let ghost skm = text_skip(t, m@);
                    let ghost mid = text_take(skm, r_sz);
                    proof {
                        lemma_text_cat_fits_left(tk, arest, m@);
                        lemma_text_take_fits(t, n@, m@);
                        lemma_text_split(t, m@, n@);
                        lemma_text_take_skip(t, m@);
                        lemma_text_take_skip(skm, r_sz);
                        lemma_text_cat(text_take(t, m@), mid);
                        assert(tk == text_cat(text_take(t, m@), mid));
                        assert(text_skip(tk, m@) == mid);
                        lemma_text_cat_cut_left(tk, arest, m@);
                        assert(text_skip(av, m@) == text_cat(mid, arest));
                    }
                    push_front(&mut a, Operation::Retain(n.minus(m)));
                    proof {
                        assert(a.deep_view() == cons(OpView::Retain(r_sz), ar));
                        lemma_cons(OpView::Retain(r_sz), ar);
                        assert(ops_wf(skm, a.deep_view()));
                        assert(apply_ops(skm, a.deep_view()) == text_cat(mid, arest));
                        assert(ops_wf(apply_ops(skm, a.deep_view()), b.deep_view()));
                        assert(exists|t2: Seq<Seq<char>>|
                            ops_wf(t2, a.deep_view()) && ops_wf(
                                apply_ops(t2, a.deep_view()),
                                b.deep_view(),
                            ));
                        lemma_cons(
                            OpView::Retain(m@),
                            compose_ops(cons(OpView::Retain(r_sz), ar), br),
                        );
                    }
                    let mut r = compose_rec(a, b);
                    push_front(&mut r, Operation::Retain(m));
                    r
                }
            },
            (Operation::Retain(n), Operation::Delete(m)) => {
                let ghost tk = text_take(t, n@);
                let ghost sk = text_skip(t, n@);
                let ghost arest = apply_ops(sk, ar);
                proof {
                    lemma_text_take_skip(t, n@);
                    lemma_apply_ops_wf(sk, ar);
                    lemma_text_cat(tk, arest);
                    assert(av == text_cat(tk, arest));
                }
                if n == m {
                    proof {
                        assert(text_skip(av, m@) == arest);
                        assert(ops_wf(sk, a.deep_view()));
                        assert(apply_ops(sk, a.deep_view()) == arest);
                        assert(exists|t2: Seq<Seq<char>>|
                            ops_wf(t2, a.deep_view()) && ops_wf(
                                apply_ops(t2, a.deep_view()),
                                b.deep_view(),
                            ));
                        lemma_cons(OpView::Delete(m@), compose_ops(ar, br));
                    }
                    let mut r = compose_rec(a, b);
                    push_front(&mut r, Operation::Delete(m));
                    r
                } else if n.lt(&m) {
                    let ghost r_sz = size_sub(m@, n@);
                    proof {
                        crate::size::lemma_size_add_sub(n@, m@);
                        lemma_text_cat_fits_right(tk, arest, r_sz);
                        lemma_text_cat_cut(tk, arest, r_sz);
                        assert(text_skip(av, m@) == text_skip(arest, r_sz));
                    }
                    push_front(&mut b, Operation::Delete(m.minus(n)));
                    proof {
                        assert(b.deep_view() == cons(OpView::Delete(r_sz), br));
                        lemma_cons(OpView::Delete(r_sz), br);
                        assert(ops_wf(arest, b.deep_view()));
                        assert(ops_wf(sk, a.deep_view()));
                        assert(apply_ops(sk, a.deep_view()) == arest);
                        assert(exists|t2: Seq<Seq<char>>|
                            ops_wf(t2, a.deep_view()) && ops_wf(
                                apply_ops(t2, a.deep_view()),
                                b.deep_view(),
                            ));
                        lemma_cons(
                            OpView::Delete(n@),
                            compose_ops(ar, cons(OpView::Delete(r_sz), br)),
                        );
                    }
                    let mut r = compose_rec(a, b);
                    push_front(&mut r, Operation::Delete(n));
                    r
                } else {
                    assert(size_lt(m@, n@));
                    let ghost r_sz = size_sub(n@, m@);
                    let ghost skm = text_skip(t, m@);
                    let ghost mid = text_take(skm, r_sz);
                    proof {
                        lemma_text_cat_fits_left(tk, arest, m@);
                        lemma_text_take_fits(t, n@, m@);
                        lemma_text_split(t, m@, n@);
                        lemma_text_take_skip(t, m@);
                        lemma_text_take_skip(skm, r_sz);
                        lemma_text_cat(text_take(t, m@), mid);
                        assert(tk == text_cat(text_take(t, m@), mid));
                        assert(text_skip(tk, m@) == mid);
                        lemma_text_cat_cut_left(tk, arest, m@);
                        assert(text_skip(av, m@) == text_cat(mid, arest));
                    }
                    push_front(&mut a, Operation::Retain(n.minus(m)));
                    proof {
                        assert(a.deep_view() == cons(OpView::Retain(r_sz), ar));
                        lemma_cons(OpView::Retain(r_sz), ar);
                        assert(ops_wf(skm, a.deep_view()));
                        assert(apply_ops(skm, a.deep_view()) == text_cat(mid, arest));
                        assert(ops_wf(apply_ops(skm, a.deep_view()), b.deep_view()));
                        assert(exists|t2: Seq<Seq<char>>|
                            ops_wf(t2, a.deep_view()) && ops_wf(
                                apply_ops(t2, a.deep_view()),
                                b.deep_view(),
                            ));
                        lemma_cons(
                            OpView::Delete(m@),
                            compose_ops(cons(OpView::Retain(r_sz), ar), br),
                        );
                    }
                    let mut r = compose_rec(a, b);
                    push_front(&mut r, Operation::Delete(m));
                    r
                }
            },
            (Operation::Insert(s), Operation::Retain(m)) => {
                let ghost arest = apply_ops(t, ar);
                proof {
                    use_type_invariant(&s);
                    lemma_apply_ops_wf(t, ar);
                    lemma_text_cat(s@, arest);
                    assert(av == text_cat(s@, arest));
                }
                let measure = s.len();
                if measure == m {
                    proof {
                        assert(text_skip(av, m@) == arest);
                        assert(ops_wf(t, a.deep_view()));
                        assert(apply_ops(t, a.deep_view()) == arest);
                        assert(ops_wf(arest, b.deep_view()));
                        assert(exists|t2: Seq<Seq<char>>|
                            ops_wf(t2, a.deep_view()) && ops_wf(
                                apply_ops(t2, a.deep_view()),
                                b.deep_view(),
                            ));
                        lemma_cons(OpView::Insert(s@), compose_ops(ar, br));
                    }
                    let mut r = compose_rec(a, b);
                    push_front(&mut r, Operation::Insert(s));
                    r
                } else if measure.lt(&m) {
                    let ghost r_sz = size_sub(m@, text_len_of(s@));
                    proof {
                        crate::size::lemma_size_add_sub(text_len_of(s@), m@);
                        lemma_text_cat_fits_right(s@, arest, r_sz);
                        lemma_text_cat_cut(s@, arest, r_sz);
                        assert(text_skip(av, m@) == text_skip(arest, r_sz));
                    }
                    push_front(&mut b, Operation::Retain(m.minus(measure)));
                    proof {
                        assert(b.deep_view() == cons(OpView::Retain(r_sz), br));
                        lemma_cons(OpView::Retain(r_sz), br);
                        assert(ops_wf(arest, b.deep_view()));
                        assert(ops_wf(t, a.deep_view()));
                        assert(apply_ops(t, a.deep_view()) == arest);
                        assert(exists|t2: Seq<Seq<char>>|
                            ops_wf(t2, a.deep_view()) && ops_wf(
                                apply_ops(t2, a.deep_view()),
                                b.deep_view(),
                            ));
                        lemma_cons(
                            OpView::Insert(s@),
                            compose_ops(ar, cons(OpView::Retain(r_sz), br)),
                        );
                    }
                    let mut r = compose_rec(a, b);
                    push_front(&mut r, Operation::Insert(s));
                    r
                } else {
                    proof {
                        assert(size_lt(m@, text_len_of(s@)));
                        lemma_text_cat_fits_left(s@, arest, m@);
                        lemma_text_take_skip(s@, m@);
                        lemma_text_cat_cut_left(s@, arest, m@);
                        assert(text_skip(av, m@) == text_cat(text_skip(s@, m@), arest));
                    }
                    let front = s.take_size(m);
                    let back = s.skip_size(m);
                    push_front(&mut a, Operation::Insert(back));
                    proof {
                        assert(a.deep_view() == cons(OpView::Insert(text_skip(s@, m@)), ar));
                        lemma_cons(OpView::Insert(text_skip(s@, m@)), ar);
                        assert(ops_wf(t, a.deep_view()));
                        assert(apply_ops(t, a.deep_view()) == text_cat(text_skip(s@, m@), arest));
                        assert(ops_wf(apply_ops(t, a.deep_view()), b.deep_view()));
                        assert(exists|t2: Seq<Seq<char>>|
                            ops_wf(t2, a.deep_view()) && ops_wf(
                                apply_ops(t2, a.deep_view()),
                                b.deep_view(),
                            ));
                        lemma_cons(
                            OpView::Insert(text_take(s@, m@)),
                            compose_ops(cons(OpView::Insert(text_skip(s@, m@)), ar), br),
                        );
                    }
                    let mut r = compose_rec(a, b);
                    push_front(&mut r, Operation::Insert(front));
                    r
                }
            },
            (Operation::Insert(s), Operation::Delete(m)) => {
                let ghost arest = apply_ops(t, ar);
                proof {
                    use_type_invariant(&s);
                    lemma_apply_ops_wf(t, ar);
                    lemma_text_cat(s@, arest);
                    assert(av == text_cat(s@, arest));
                }
                let measure = s.len();
                if measure == m {
                    proof {
                        assert(text_skip(av, m@) == arest);
                        assert(ops_wf(t, a.deep_view()));
                        assert(apply_ops(t, a.deep_view()) == arest);
                        assert(ops_wf(arest, b.deep_view()));
                        assert(exists|t2: Seq<Seq<char>>|
                            ops_wf(t2, a.deep_view()) && ops_wf(
                                apply_ops(t2, a.deep_view()),
                                b.deep_view(),
                            ));
                    }
                    compose_rec(a, b)
                } else if measure.lt(&m) {
                    let ghost r_sz = size_sub(m@, text_len_of(s@));
                    proof {
                        crate::size::lemma_size_add_sub(text_len_of(s@), m@);
                        lemma_text_cat_fits_right(s@, arest, r_sz);
                        lemma_text_cat_cut(s@, arest, r_sz);
                        assert(text_skip(av, m@) == text_skip(arest, r_sz));
                    }
                    push_front(&mut b, Operation::Delete(m.minus(measure)));
                    proof {
                        assert(b.deep_view() == cons(OpView::Delete(r_sz), br));
                        lemma_cons(OpView::Delete(r_sz), br);
                        assert(ops_wf(arest, b.deep_view()));
                        assert(ops_wf(t, a.deep_view()));
                        assert(apply_ops(t, a.deep_view()) == arest);
                        assert(exists|t2: Seq<Seq<char>>|
                            ops_wf(t2, a.deep_view()) && ops_wf(
                                apply_ops(t2, a.deep_view()),
                                b.deep_view(),
                            ));
                    }
                    compose_rec(a, b)
                } else {
                    proof {
                        assert(size_lt(m@, text_len_of(s@)));
                        lemma_text_cat_fits_left(s@, arest, m@);
                        lemma_text_take_skip(s@, m@);
                        lemma_text_cat_cut_left(s@, arest, m@);
                        assert(text_skip(av, m@) == text_cat(text_skip(s@, m@), arest));
                    }
                    let back = s.skip_size(m);
                    push_front(&mut a, Operation::Insert(back));
                    proof {
                        assert(a.deep_view() == cons(OpView::Insert(text_skip(s@, m@)), ar));
                        lemma_cons(OpView::Insert(text_skip(s@, m@)), ar);
                        assert(ops_wf(t, a.deep_view()));
                        assert(apply_ops(t, a.deep_view()) == text_cat(text_skip(s@, m@), arest));
                        assert(ops_wf(apply_ops(t, a.deep_view()), b.deep_view()));
                        assert(exists|t2: Seq<Seq<char>>|
                            ops_wf(t2, a.deep_view()) && ops_wf(
                                apply_ops(t2, a.deep_view()),
                                b.deep_view(),
                            ));
                    }
                    compose_rec(a, b)
                }
            },
            _ => {
                proof {
                    assert(false);
                }
                vstd::pervasive::unreached()
            },
        }
    }
}

impl Delta {
    /// The single delta equivalent to applying this delta and then `other`,
    /// where `other` was built against the text this delta produces.
    ///
    /// The deltas must be compatible: there is a base text to which this
    /// delta applies and to whose output `other` applies. Composing
    /// incompatible deltas is a precondition violation.
    pub fn compose(self, other: Delta) -> (r: Delta)
        requires
            exists|t: Seq<Seq<char>>|
                ops_wf(t, self@) && ops_wf(apply_ops(t, self@), other@),
        ensures
            r@ == compose_ops(self@, other@),
            forall|t: Seq<Seq<char>>|
                ops_wf(t, self@) && ops_wf(apply_ops(t, self@), other@) ==> ops_wf(t, r@)
                    && apply_ops(t, r@) == apply_ops(apply_ops(t, self@), other@),
    {
        let ghost av = self@;
        let ghost bv = other@;
        let r = compose_rec(self.into_operations(), other.into_operations());
        proof {
            assert forall|t: Seq<Seq<char>>|
                ops_wf(t, av) && ops_wf(apply_ops(t, av), bv) implies ops_wf(t, compose_ops(av, bv))
                && apply_ops(t, compose_ops(av, bv)) == apply_ops(apply_ops(t, av), bv) by {
                lemma_compose_ops(t, av, bv);
            }
        }
        Delta::from_operations(r)
    }
}

} // verus!
