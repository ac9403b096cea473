//! The ideographic description characters and what each says about the
//! composition it heads.

use vstd::prelude::*;

verus! {

/// Whether `c` is one of the description characters: U+2FF0 to U+2FFF,
/// or U+31EF.
pub open spec fn is_operator(c: char) -> bool {
    ('\u{2FF0}' <= c && c <= '\u{2FFF}') || c == '\u{31EF}'
}

/// How many children a composition headed by `c` has: one for the two
/// unary forms, three for the two ternary forms, two for all others.
pub open spec fn operator_arity(c: char) -> nat {
    if c == '\u{2FFE}' || c == '\u{2FFF}' {
        1
    } else if c == '\u{2FF2}' || c == '\u{2FF3}' {
        3
    } else {
        2
    }
}

/// The axis along which the operator `c` lays out its children.
pub open spec fn operator_direction(c: char) -> Direction {
    if c == '\u{2FF0}' || c == '\u{2FF2}' {
        Direction::Hort
    } else if c == '\u{2FF1}' || c == '\u{2FF3}' {
        Direction::Vert
    } else {
        Direction::Other
    }
}

/// The binary operator of the same direction as the ternary operator `c`;
/// `None` for every other character.
pub open spec fn operator_reduction(c: char) -> Option<char> {
    if c == '\u{2FF2}' {
        Some('\u{2FF0}')
    } else if c == '\u{2FF3}' {
        Some('\u{2FF1}')
    } else {
        None
    }
}

/// The layout axis of a composition.
#[derive(Debug, Clone, Copy, PartialEq, Eq, PartialOrd, Ord, Structural)]
pub enum Direction {
    /// From top to bottom.
    Vert,
    /// From left to right.
    Hort,
    /// Neither: one component surrounds or overlays the other.
    Other,
}

/// An ideographic description character. A value of this type always holds
/// one of the operator code points.
#[derive(Debug, Clone, Copy, PartialEq, Eq, PartialOrd, Ord, Hash, Structural)]
pub struct IDC(char);

impl View for IDC {
    type V = char;

    closed spec fn view(&self) -> char {
        self.0
    }
}

impl IDC {
    /// Every value built by [`IDC::new`] is an operator.
    pub open spec fn wf(self) -> bool {
        is_operator(self@)
    }

    /// The operator with code point `idc`, or `None` where `idc` is no
    /// description character.
    pub fn new(idc: char) -> (r: Option<IDC>)
        ensures
            is_operator(idc) <==> r is Some,
            r matches Some(op) ==> op@ == idc && op.wf(),
    {
        if is_idc(idc) {
            Some(IDC(idc))
        } else {
            None
        }
    }

    /// The operator's code point.
    pub fn code(self) -> (c: char)
        ensures
            c == self@,
    {
        self.0
    }

    /// The number of children that a composition headed by this operator has.
    pub fn arity(self) -> (n: usize)
        ensures
            n == operator_arity(self@),
            1 <= n <= 3,
    {
        idc_arity(self.0)
    }

    /// The binary counterpart of a ternary operator.
    pub fn reduce(self) -> (r: Option<IDC>)
        ensures
            r is Some <==> operator_reduction(self@) is Some,
            r matches Some(op) ==> Some(op@) == operator_reduction(self@) && op.wf(),
    {
        if self.0 == '\u{2FF2}' {
            Some(IDC('\u{2FF0}'))
        } else if self.0 == '\u{2FF3}' {
            Some(IDC('\u{2FF1}'))
        } else {
            None
        }
    }

    /// The axis along which this operator lays out its children.
    pub fn direction(self) -> (d: Direction)
        ensures
            d == operator_direction(self@),
    {
        if self.0 == '\u{2FF0}' || self.0 == '\u{2FF2}' {
            Direction::Hort
        } else if self.0 == '\u{2FF1}' || self.0 == '\u{2FF3}' {
            Direction::Vert
        } else {
            Direction::Other
        }
    }

    /// Whether the two operators lay out their children along the same axis.
    pub fn is_same_direction(self, other: IDC) -> (r: bool)
        ensures
            r == (operator_direction(self@) == operator_direction(other@)),
    {
        self.direction() == other.direction()
    }
}

/// Executable test for [`is_operator`].
pub fn is_idc(c: char) -> (r: bool)
    ensures
        r == is_operator(c),
{
    ('\u{2FF0}' <= c && c <= '\u{2FFF}') || c == '\u{31EF}'
}

/// Executable form of [`operator_arity`].
pub fn idc_arity(c: char) -> (n: usize)
    ensures
        n == operator_arity(c),
        1 <= n <= 3,
{
    if c == '\u{2FFE}' || c == '\u{2FFF}' {
        1
    } else if c == '\u{2FF2}' || c == '\u{2FF3}' {
        3
    } else {
        2
    }
}

} // verus!
