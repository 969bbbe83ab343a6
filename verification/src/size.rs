use vstd::prelude::*;

verus! {

/// A relative displacement within a text: `line` whole lines down, then
/// `column` characters along the line reached. `line == 0` means the
/// displacement stays within one line, and `column` is then relative to the
/// starting column. A `Size` also measures the length of a text fragment and
/// the length consumed or produced by a delta operation.
#[derive(Clone, Copy, PartialEq, Eq, Structural, Debug)]
pub struct Size {
    pub line: usize,
    pub column: usize,
}

/// The mathematical counterpart of `Size`, over unbounded naturals.
pub struct SizeView {
    pub line: nat,
    pub column: nat,
}

impl View for Size {
    type V = SizeView;

    open spec fn view(&self) -> SizeView {
        SizeView { line: self.line as nat, column: self.column as nat }
    }
}

impl DeepView for Size {
    type V = SizeView;

    open spec fn deep_view(&self) -> SizeView {
        self@
    }
}

pub open spec fn size_zero() -> SizeView {
    SizeView { line: 0, column: 0 }
}

/// Concatenation of displacements: going `a`, then `b` further.
pub open spec fn size_add(a: SizeView, b: SizeView) -> SizeView {
    if b.line == 0 {
        SizeView { line: a.line, column: a.column + b.column }
    } else {
        SizeView { line: a.line + b.line, column: b.column }
    }
}

/// Total order on displacements from a common starting point: line first,
/// then column.
pub open spec fn size_le(a: SizeView, b: SizeView) -> bool {
    a.line < b.line || (a.line == b.line && a.column <= b.column)
}

pub open spec fn size_lt(a: SizeView, b: SizeView) -> bool {
    size_le(a, b) && a != b
}

/// The displacement `d` with `size_add(a, d) == b`; meaningful when
/// `size_le(a, b)`.
pub open spec fn size_sub(b: SizeView, a: SizeView) -> SizeView
    recommends
        size_le(a, b),
{
    if a.line == b.line {
        SizeView { line: 0, column: (b.column - a.column) as nat }
    } else {
        SizeView { line: (b.line - a.line) as nat, column: b.column }
    }
}

pub proof fn lemma_size_add_sub(a: SizeView, b: SizeView)
    requires
        size_le(a, b),
    ensures
        size_add(a, size_sub(b, a)) == b,
{
}

pub proof fn lemma_size_add_assoc(a: SizeView, b: SizeView, c: SizeView)
    ensures
        size_add(size_add(a, b), c) == size_add(a, size_add(b, c)),
{
}

impl Size {
    pub fn zero() -> (r: Size)
        ensures
            r@ == size_zero(),
    {
        Size { line: 0, column: 0 }
    }

    pub fn is_zero(&self) -> (r: bool)
        ensures
            r == (self@ == size_zero()),
    {
        self.line == 0 && self.column == 0
    }

    /// Concatenation of displacements: `self`, then `other` further.
    pub fn plus(self, other: Size) -> (r: Size)
        requires
            self.line + other.line <= usize::MAX,
            other.line == 0 ==> self.column + other.column <= usize::MAX,
        ensures
            r@ == size_add(self@, other@),
    {
        if other.line == 0 {
            Size { line: self.line, column: self.column + other.column }
        } else {
            Size { line: self.line + other.line, column: other.column }
        }
    }

    pub fn le(&self, other: &Size) -> (r: bool)
        ensures
            r == size_le(self@, other@),
    {
        self.line < other.line || (self.line == other.line && self.column <= other.column)
    }

    pub fn lt(&self, other: &Size) -> (r: bool)
        ensures
            r == size_lt(self@, other@),
    {
        self.line < other.line || (self.line == other.line && self.column < other.column)
    }

    /// The displacement that continues `other` to reach `self`.
    pub fn minus(self, other: Size) -> (r: Size)
        requires
            size_le(other@, self@),
        ensures
            r@ == size_sub(self@, other@),
    {
        if self.line == other.line {
            Size { line: 0, column: self.column - other.column }
        } else {
            Size { line: self.line - other.line, column: self.column }
        }
    }
}

} // verus!
