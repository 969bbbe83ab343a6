use crate::size::{size_add, size_le, size_lt, size_sub, size_zero, Size, SizeView};
use vstd::prelude::*;

verus! {

/// An absolute (line, column) address in a text. A position is the
/// displacement from the origin, so it shares its mathematical model with
/// `Size`.
#[derive(Clone, Copy, PartialEq, Eq, Structural, Debug)]
pub struct Position {
    pub line: usize,
    pub column: usize,
}

impl View for Position {
    type V = SizeView;

    open spec fn view(&self) -> SizeView {
        SizeView { line: self.line as nat, column: self.column as nat }
    }
}

impl DeepView for Position {
    type V = SizeView;

    open spec fn deep_view(&self) -> SizeView {
        self@
    }
}

impl Position {
    /// The least position, (0, 0).
    pub fn origin() -> (r: Position)
        ensures
            r@ == size_zero(),
    {
        Position { line: 0, column: 0 }
    }

    /// The position reached by moving `distance` from `self`.
    pub fn advanced_by(self, distance: Size) -> (r: Position)
        requires
            self.line + distance.line <= usize::MAX,
            distance.line == 0 ==> self.column + distance.column <= usize::MAX,
        ensures
            r@ == size_add(self@, distance@),
    {
        if distance.line == 0 {
            Position { line: self.line, column: self.column + distance.column }
        } else {
            Position { line: self.line + distance.line, column: distance.column }
        }
    }

    /// The displacement from `other` (which must not come after `self`) to
    /// `self`.
    pub fn distance_from(self, other: Position) -> (r: Size)
        requires
            size_le(other@, self@),
        ensures
            r@ == size_sub(self@, other@),
    {
        if self.line == other.line {
            Size { line: 0, column: self.column - other.column }
        } else {
            Size { line: self.line - other.line, column: self.column }
        }
    }

    /// Total order: line first, then column.
    pub fn le(&self, other: &Position) -> (r: bool)
        ensures
            r == size_le(self@, other@),
    {
        self.line < other.line || (self.line == other.line && self.column <= other.column)
    }

    pub fn lt(&self, other: &Position) -> (r: bool)
        ensures
            r == size_lt(self@, other@),
    {
        self.line < other.line || (self.line == other.line && self.column < other.column)
    }

    pub fn min(self, other: Position) -> (r: Position)
        ensures
            r@ == if size_le(self@, other@) {
                self@
            } else {
                other@
            },
    {
        if self.le(&other) {
            self
        } else {
            other
        }
    }

    pub fn max(self, other: Position) -> (r: Position)
        ensures
            r@ == if size_le(self@, other@) {
                other@
            } else {
                self@
            },
    {
        if self.le(&other) {
            other
        } else {
            self
        }
    }
}

} // verus!
