use crate::size::{size_add, size_le, size_sub, size_zero, Size, SizeView};
use vstd::prelude::*;

verus! {

// ---------------------------------------------------------------------------
// The mathematical model: a text is a non-empty sequence of lines, each a
// sequence of characters. A `SizeView` measures a text fragment; the
// functions below cut and join texts at such measures.
// ---------------------------------------------------------------------------

pub open spec fn text_wf(t: Seq<Seq<char>>) -> bool {
    t.len() >= 1
}

/// The text with a single empty line: the empty content.
pub open spec fn empty_text() -> Seq<Seq<char>> {
    seq![Seq::<char>::empty()]
}

/// The length of a text as a displacement: whole lines above the last line,
/// then the characters of the last line.
pub open spec fn text_len_of(t: Seq<Seq<char>>) -> SizeView {
    SizeView { line: (t.len() - 1) as nat, column: t.last().len() }
}

/// Whether a displacement of `n` from the start of `t` lands inside `t`.
pub open spec fn size_fits(n: SizeView, t: Seq<Seq<char>>) -> bool {
    n.line < t.len() && n.column <= t[n.line as int].len()
}

/// The first `n` of `t`: `n.line` whole lines, then `n.column` characters of
/// the next line. Always ends in a (possibly empty) partial line, so the
/// result is a well-formed text.
pub open spec fn text_take(t: Seq<Seq<char>>, n: SizeView) -> Seq<Seq<char>> {
    t.take(n.line as int).push(t[n.line as int].take(n.column as int))
}

/// `t` without its first `n`: the rest of the line the cut lands on, then all
/// following lines.
pub open spec fn text_skip(t: Seq<Seq<char>>, n: SizeView) -> Seq<Seq<char>> {
    seq![t[n.line as int].skip(n.column as int)] + t.skip(n.line as int + 1)
}

/// Concatenation of texts: the last line of `a` and the first line of `b`
/// join into one line.
pub open spec fn text_cat(a: Seq<Seq<char>>, b: Seq<Seq<char>>) -> Seq<Seq<char>> {
    a.drop_last().push(a.last() + b.first()) + b.drop_first()
}

/// Whether every extent of `t` fits a `usize`, as it does for any text held
/// in vectors.
pub open spec fn text_fits_usize(t: Seq<Seq<char>>) -> bool {
    &&& t.len() <= usize::MAX
    &&& forall|i: int| 0 <= i < t.len() ==> (#[trigger] t[i]).len() <= usize::MAX
}

// ---------------------------------------------------------------------------
// The algebra of cutting and joining.
// ---------------------------------------------------------------------------

pub proof fn lemma_text_take_skip(t: Seq<Seq<char>>, n: SizeView)
    requires
        text_wf(t),
        size_fits(n, t),
    ensures
        text_wf(text_take(t, n)),
        text_wf(text_skip(t, n)),
        text_len_of(text_take(t, n)) == n,
        text_cat(text_take(t, n), text_skip(t, n)) == t,
        text_len_of(t) == size_add(n, text_len_of(text_skip(t, n))),
        size_le(n, text_len_of(t)),
{
    let tk = text_take(t, n);
    let sk = text_skip(t, n);
    assert(tk.len() == n.line + 1);
    assert(tk.last() == t[n.line as int].take(n.column as int));
    assert(sk.len() == t.len() - n.line);
    assert(text_cat(tk, sk) =~~= t) by {
        assert(tk.drop_last() =~= t.take(n.line as int));
        assert(tk.last() + sk.first() =~= t[n.line as int]);
    }
    assert(text_len_of(t) == size_add(n, text_len_of(sk))) by {
        if n.line + 1 == t.len() {
            assert(sk.len() == 1);
            assert(sk.last() == t[n.line as int].skip(n.column as int));
        } else {
            assert(sk.last() == t.skip(n.line as int + 1).last());
            assert(sk.last() == t.last());
        }
    }
}

pub proof fn lemma_text_cat(a: Seq<Seq<char>>, b: Seq<Seq<char>>)
    requires
        text_wf(a),
        text_wf(b),
    ensures
        text_wf(text_cat(a, b)),
        text_len_of(text_cat(a, b)) == size_add(text_len_of(a), text_len_of(b)),
        size_fits(text_len_of(a), text_cat(a, b)),
        text_take(text_cat(a, b), text_len_of(a)) == a,
        text_skip(text_cat(a, b), text_len_of(a)) == b,
{
    let c = text_cat(a, b);
    let la = text_len_of(a);
    assert(c.len() == a.len() + b.len() - 1);
    assert(c[a.len() - 1] == a.last() + b.first());
    assert(c[a.len() - 1].len() == a.last().len() + b.first().len());
    assert(size_fits(la, c));
    assert(text_len_of(c) == size_add(text_len_of(a), text_len_of(b))) by {
        if b.len() == 1 {
            assert(c.last() == a.last() + b.first());
        } else {
            assert(c.last() == b.drop_first().last());
            assert(c.last() == b.last());
        }
    }
    assert(text_take(c, la) =~~= a) by {
        assert(c.take(la.line as int) =~= a.drop_last());
        assert(c[la.line as int].take(la.column as int) =~= a.last());
    }
    assert(text_skip(c, la) =~~= b) by {
        assert(c[la.line as int].skip(la.column as int) =~= b.first());
        assert(c.skip(la.line as int + 1) =~= b.drop_first());
    }
}

pub proof fn lemma_text_cat_assoc(a: Seq<Seq<char>>, b: Seq<Seq<char>>, c: Seq<Seq<char>>)
    requires
        text_wf(a),
        text_wf(b),
        text_wf(c),
    ensures
        text_cat(text_cat(a, b), c) == text_cat(a, text_cat(b, c)),
{
    assert(text_cat(text_cat(a, b), c) =~~= text_cat(a, text_cat(b, c))) by {
        let ab = text_cat(a, b);
        let bc = text_cat(b, c);
        assert(ab.len() == a.len() + b.len() - 1);
        assert(bc.len() == b.len() + c.len() - 1);
        if b.len() == 1 {
            assert(ab.last() == a.last() + b.first());
            assert(bc.first() == b.first() + c.first());
            assert((a.last() + b.first()) + c.first() =~= a.last() + (b.first() + c.first()));
        } else {
            assert(ab.last() == b.last());
            assert(bc.first() == b.first());
            assert(bc[b.len() - 1] == b.last() + c.first());
        }
    }
}

/// Cutting at `m` is cutting at an earlier `n` and then at the remainder.
pub proof fn lemma_text_split(t: Seq<Seq<char>>, n: SizeView, m: SizeView)
    requires
        text_wf(t),
        size_fits(n, t),
        size_fits(m, t),
        size_le(n, m),
    ensures
        size_fits(size_sub(m, n), text_skip(t, n)),
        text_take(t, m) == text_cat(text_take(t, n), text_take(text_skip(t, n), size_sub(m, n))),
        text_skip(t, m) == text_skip(text_skip(t, n), size_sub(m, n)),
{
    let r = size_sub(m, n);
    let sk = text_skip(t, n);
    assert(sk.len() == t.len() - n.line);
    if n.line == m.line {
        assert(sk[0] == t[n.line as int].skip(n.column as int));
    } else {
        assert(sk[r.line as int] == t.skip(n.line as int + 1)[r.line - 1]);
        assert(sk[r.line as int] == t[m.line as int]);
    }
    assert(size_fits(r, sk));
    assert(text_take(t, m) =~~= text_cat(text_take(t, n), text_take(sk, r))) by {
        let rhs = text_cat(text_take(t, n), text_take(sk, r));
        assert(rhs.len() == n.line + 1 + r.line);
        if n.line == m.line {
            assert(text_take(sk, r).first() == sk[0].take(r.column as int));
            assert(t[n.line as int].take(n.column as int) + t[n.line as int].skip(
                n.column as int,
            ).take(r.column as int) =~= t[m.line as int].take(m.column as int));
        } else {
            assert(text_take(sk, r).first() == sk[0]);
            assert(t[n.line as int].take(n.column as int) + t[n.line as int].skip(
                n.column as int,
            ) =~= t[n.line as int]);
            assert(forall|i: int|
                0 <= i < r.line ==> #[trigger] text_take(sk, r)[i] == sk[i]);
            assert(text_take(sk, r).last() == sk[r.line as int].take(r.column as int));
        }
    }
    assert(text_skip(t, m) =~~= text_skip(sk, r)) by {
        if n.line == m.line {
            assert(text_skip(sk, r).first() == sk[0].skip(r.column as int));
            assert(t[n.line as int].skip(n.column as int).skip(r.column as int) =~= t[
                m.line as int
            ].skip(m.column as int));
            assert(text_skip(sk, r).drop_first() =~= sk.skip(1));
            assert(text_skip(t, m).drop_first() =~= t.skip(m.line as int + 1));
        } else {
            assert(text_skip(sk, r).first() == sk[r.line as int].skip(r.column as int));
        }
    }
}

/// Cutting a concatenation beyond `a` cuts `b`.
pub proof fn lemma_text_cat_cut(a: Seq<Seq<char>>, b: Seq<Seq<char>>, r: SizeView)
    requires
        text_wf(a),
        text_wf(b),
        size_fits(r, b),
    ensures
        size_fits(size_add(text_len_of(a), r), text_cat(a, b)),
        text_take(text_cat(a, b), size_add(text_len_of(a), r)) == text_cat(a, text_take(b, r)),
        text_skip(text_cat(a, b), size_add(text_len_of(a), r)) == text_skip(b, r),
{
    let c = text_cat(a, b);
    let m = size_add(text_len_of(a), r);
    lemma_text_cat(a, b);
    lemma_text_take_skip(b, r);
    assert(size_fits(m, c)) by {
        if r.line == 0 {
            assert(c[m.line as int] == a.last() + b.first());
        } else {
            assert(c[m.line as int] == b[r.line as int]);
        }
    }
    lemma_text_split(c, text_len_of(a), m);
    assert(size_sub(m, text_len_of(a)) == r);
    assert(text_take(c, m) == text_cat(a, text_take(b, r)));
    assert(text_skip(c, m) == text_skip(b, r));
}

/// A cut of a concatenation that lands beyond `a` lands inside `b`.
pub proof fn lemma_text_cat_fits_right(a: Seq<Seq<char>>, b: Seq<Seq<char>>, r: SizeView)
    requires
        text_wf(a),
        text_wf(b),
        size_fits(size_add(text_len_of(a), r), text_cat(a, b)),
    ensures
        size_fits(r, b),
{
    let c = text_cat(a, b);
    let m = size_add(text_len_of(a), r);
    if r.line == 0 {
        assert(c[m.line as int] == a.last() + b.first());
    } else {
        assert(c[m.line as int] == b[r.line as int]);
    }
}

/// A cut of a concatenation that does not pass the end of `a` lands inside
/// `a`.
pub proof fn lemma_text_cat_fits_left(a: Seq<Seq<char>>, b: Seq<Seq<char>>, m: SizeView)
    requires
        text_wf(a),
        text_wf(b),
        size_le(m, text_len_of(a)),
        size_fits(m, text_cat(a, b)),
    ensures
        size_fits(m, a),
{
    if m.line < a.len() - 1 {
        assert(text_cat(a, b)[m.line as int] == a[m.line as int]);
    }
}

/// Cutting a concatenation inside `a` cuts `a`, and the remainder of `a`
/// stays joined to `b`.
pub proof fn lemma_text_cat_cut_left(a: Seq<Seq<char>>, b: Seq<Seq<char>>, m: SizeView)
    requires
        text_wf(a),
        text_wf(b),
        size_fits(m, a),
    ensures
        size_fits(m, text_cat(a, b)),
        text_take(text_cat(a, b), m) == text_take(a, m),
        text_skip(text_cat(a, b), m) == text_cat(text_skip(a, m), b),
{
    lemma_text_take_skip(a, m);
    lemma_text_cat_assoc(text_take(a, m), text_skip(a, m), b);
    lemma_text_cat(text_skip(a, m), b);
    lemma_text_cat(text_take(a, m), text_cat(text_skip(a, m), b));
}

/// A cut inside a prefix of `t` is a cut inside `t`.
pub proof fn lemma_text_take_fits(t: Seq<Seq<char>>, n: SizeView, m: SizeView)
    requires
        text_wf(t),
        size_fits(n, t),
        size_fits(m, text_take(t, n)),
    ensures
        size_fits(m, t),
{
    let tk = text_take(t, n);
    if m.line < n.line {
        assert(tk[m.line as int] == t[m.line as int]);
    } else {
        assert(tk[m.line as int] == t[n.line as int].take(n.column as int));
    }
}

/// Machine bounds carry from a concatenation to its parts.
pub proof fn lemma_fits_usize_cat(a: Seq<Seq<char>>, b: Seq<Seq<char>>)
    requires
        text_wf(a),
        text_wf(b),
        text_fits_usize(text_cat(a, b)),
    ensures
        text_fits_usize(a),
        text_fits_usize(b),
{
    let c = text_cat(a, b);
    assert(c[a.len() - 1] == a.last() + b.first());
    assert forall|i: int| 0 <= i < a.len() implies (#[trigger] a[i]).len() <= usize::MAX by {
        if i < a.len() - 1 {
            assert(c[i] == a[i]);
        } else {
            assert(a[i].len() <= c[a.len() - 1].len());
        }
    }
    assert forall|i: int| 0 <= i < b.len() implies (#[trigger] b[i]).len() <= usize::MAX by {
        if i == 0 {
            assert(b[0].len() <= c[a.len() - 1].len());
        } else {
            assert(c[a.len() - 1 + i] == b[i]);
        }
    }
}

// ---------------------------------------------------------------------------
// The executable text.
// ---------------------------------------------------------------------------

/// An ordered sequence of lines, each an ordered sequence of characters.
/// Always holds at least one line; the empty content is a single empty line.
#[derive(Debug)]
pub struct Text {
    lines: Vec<Vec<char>>,
}

impl View for Text {
    type V = Seq<Seq<char>>;

    closed spec fn view(&self) -> Seq<Seq<char>> {
        self.lines.deep_view()
    }
}

impl Clone for Text {
    fn clone(&self) -> (r: Text)
        ensures
            r@ == self@,
    {
        proof {
            use_type_invariant(self);
        }
        Text { lines: copy_lines_range(&self.lines, 0, self.lines.len()) }
    }
}

/// A copy of `chars[from..to]`.
pub fn copy_char_range(chars: &Vec<char>, from: usize, to: usize) -> (r: Vec<char>)
    requires
        from <= to <= chars@.len(),
    ensures
        r@ == chars@.subrange(from as int, to as int),
{
    let mut out: Vec<char> = Vec::new();
    let mut i: usize = from;
    while i < to
        invariant
            from <= i <= to <= chars@.len(),
            out@ == chars@.subrange(from as int, i as int),
        decreases to - i,
    {
        out.push(chars[i]);
        i = i + 1;
        assert(out@ =~= chars@.subrange(from as int, i as int));
    }
    out
}

/// The deep view of a vector of lines, read off index by index.
pub proof fn lemma_lines_deep_view(v: &Vec<Vec<char>>)
    ensures
        v.deep_view().len() == v@.len(),
        forall|i: int| 0 <= i < v@.len() ==> #[trigger] v.deep_view()[i] == v@[i]@,
{
    assert forall|i: int| 0 <= i < v@.len() implies #[trigger] v.deep_view()[i] == v@[i]@ by {
        assert(v.deep_view()[i] =~= v@[i]@);
    }
}

/// A copy of `lines[from..to]`, line by line.
pub fn copy_lines_range(lines: &Vec<Vec<char>>, from: usize, to: usize) -> (r: Vec<Vec<char>>)
    requires
        from <= to <= lines@.len(),
    ensures
        r.deep_view() == lines.deep_view().subrange(from as int, to as int),
        r@.len() == to - from,
{
    let mut out: Vec<Vec<char>> = Vec::new();
    let mut i: usize = from;
    while i < to
        invariant
            from <= i <= to <= lines@.len(),
            out.deep_view() == lines.deep_view().subrange(from as int, i as int),
            out@.len() == i - from,
        decreases to - i,
    {
        proof {
            lemma_lines_deep_view(lines);
            lemma_lines_deep_view(&out);
        }
        let ghost prev_v = out@;
        let ghost prev_dv = out.deep_view();
        let line = copy_char_range(&lines[i], 0, lines[i].len());
        assert(line@ =~= lines.deep_view()[i as int]);
        out.push(line);
        i = i + 1;
        proof {
            lemma_lines_deep_view(&out);
            assert(out.deep_view() =~= lines.deep_view().subrange(from as int, i as int)) by {
                assert(out@ == prev_v.push(line));
                assert(forall|j: int|
                    0 <= j < prev_v.len() ==> #[trigger] prev_v.push(line)[j] == prev_v[j]);
            }
        }
    }
    assert(out.deep_view() =~= lines.deep_view().subrange(from as int, to as int));
    out
}

impl Text {
    /// Every text holds at least one line.
    #[verifier::type_invariant]
    pub open spec fn type_inv(&self) -> bool {
        text_wf(self@)
    }

    pub open spec fn wf(&self) -> bool {
        text_wf(self@)
    }

    /// Every text held in vectors has machine-bounded extents.
    pub proof fn lemma_fits_usize(&self)
        ensures
            text_fits_usize(self@),
    {
        broadcast use vstd::std_specs::vec::axiom_spec_len;

        assert(vstd::std_specs::vec::spec_vec_len(&self.lines) == self.lines@.len());
        assert forall|i: int| 0 <= i < self@.len() implies (#[trigger] self@[i]).len()
            <= usize::MAX by {
            assert(self@[i] == self.lines@[i]@);
            assert(vstd::std_specs::vec::spec_vec_len(&self.lines@[i]) == self.lines@[i]@.len());
        }
    }


    /// The empty content: one empty line.
    pub fn new() -> (r: Text)
        ensures
            r@ == empty_text(),
            r.wf(),
    {
        let mut lines: Vec<Vec<char>> = Vec::new();
        lines.push(Vec::new());
        let t = Text { lines };
        proof {
            assert(t@ =~~= empty_text());
        }
        t
    }

    /// A text from its lines; an empty vector yields the empty content.
    pub fn from_lines(lines: Vec<Vec<char>>) -> (r: Text)
        ensures
            lines@.len() >= 1 ==> r@ == lines.deep_view(),
            lines@.len() == 0 ==> r@ == empty_text(),
            r.wf(),
    {
        if lines.len() == 0 {
            Text::new()
        } else {
            Text { lines }
        }
    }

    pub fn as_lines(&self) -> (r: &Vec<Vec<char>>)
        ensures
            r.deep_view() == self@,
    {
        &self.lines
    }

    /// The number of lines; at least one.
    pub fn line_count(&self) -> (r: usize)
        ensures
            r == self@.len(),
    {
        self.lines.len()
    }

    /// The length of line `line`.
    pub fn line_len(&self, line: usize) -> (r: usize)
        requires
            line < self@.len(),
        ensures
            r == self@[line as int].len(),
    {
        self.lines[line].len()
    }

    /// The length of the whole text as a displacement.
    pub fn len(&self) -> (r: Size)
        requires
            self.wf(),
        ensures
            r@ == text_len_of(self@),
    {
        Size { line: self.lines.len() - 1, column: self.lines[self.lines.len() - 1].len() }
    }

    /// Whether a displacement of `n` from the start lands inside this text.
    pub fn fits(&self, n: Size) -> (r: bool)
        requires
            self.wf(),
        ensures
            r == size_fits(n@, self@),
    {
        n.line < self.lines.len() && n.column <= self.lines[n.line].len()
    }

    /// The first `n` of this text.
    pub fn take_size(&self, n: Size) -> (r: Text)
        requires
            self.wf(),
            size_fits(n@, self@),
        ensures
            r@ == text_take(self@, n@),
            r.wf(),
    {
        let mut lines = copy_lines_range(&self.lines, 0, n.line);
        lines.push(copy_char_range(&self.lines[n.line], 0, n.column));
        let t = Text { lines };
        proof {
            assert(t@ =~~= text_take(self@, n@)) by {
                assert(self@[n.line as int].subrange(0, n.column as int) =~= self@[
                    n.line as int
                ].take(n.column as int));
                assert(t@.drop_last() =~= self@.take(n.line as int));
            }
        }
        t
    }

    /// This text without its first `n`.
    pub fn skip_size(&self, n: Size) -> (r: Text)
        requires
            self.wf(),
            size_fits(n@, self@),
        ensures
            r@ == text_skip(self@, n@),
            r.wf(),
    {
        proof {
            lemma_lines_deep_view(&self.lines);
        }
        let mut lines: Vec<Vec<char>> = Vec::new();
        let line_count = self.lines.len();
        assert(n.line < line_count);
        let first = copy_char_range(&self.lines[n.line], n.column, self.lines[n.line].len());
        lines.push(first);
        let mut rest = copy_lines_range(&self.lines, n.line + 1, line_count);
        lines.append(&mut rest);
        let t = Text { lines };
        proof {
            assert(t@ =~~= text_skip(self@, n@)) by {
                assert(self@[n.line as int].subrange(n.column as int, self@[n.line as int].len() as int)
                    =~= self@[n.line as int].skip(n.column as int));
                assert(self@.subrange(n.line as int + 1, self@.len() as int) =~= self@.skip(
                    n.line as int + 1,
                ));
            }
        }
        t
    }

    /// The concatenation of this text and `other`: the last line of `self`
    /// and the first line of `other` join into one line.
    pub fn cat(&self, other: &Text) -> (r: Text)
        requires
            self.wf(),
            other.wf(),
        ensures
            r@ == text_cat(self@, other@),
            r.wf(),
    {
        let mut lines = copy_lines_range(&self.lines, 0, self.lines.len() - 1);
        let mut joined = copy_char_range(
            &self.lines[self.lines.len() - 1],
            0,
            self.lines[self.lines.len() - 1].len(),
        );
        let mut other_first = copy_char_range(&other.lines[0], 0, other.lines[0].len());
        joined.append(&mut other_first);
        lines.push(joined);
        let mut rest = copy_lines_range(&other.lines, 1, other.lines.len());
        lines.append(&mut rest);
        let t = Text { lines };
        proof {
            assert(t@ =~~= text_cat(self@, other@)) by {
                assert(self@[self@.len() - 1].subrange(0, self@[self@.len() - 1].len() as int)
                    =~= self@.last());
                assert(other@[0].subrange(0, other@[0].len() as int) =~= other@.first());
                assert(self@.last() + other@.first() =~= t@[self@.len() - 1]);
                assert(self@.subrange(0, self@.len() - 1) =~= self@.drop_last());
                assert(other@.subrange(1, other@.len() as int) =~= other@.drop_first());
            }
        }
        t
    }
}

} // verus!
