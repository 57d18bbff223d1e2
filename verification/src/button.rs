//! The vocabulary of the puzzle: coordinates, buttons and the rules that a
//! button can carry.

use vstd::prelude::*;

verus! {

/// The rule of a button: which cells a click on it changes.
#[derive(Debug, Clone, Copy, PartialEq, Eq, Structural)]
pub enum ButtonFunction {
    /// Inert: a click changes nothing.
    Nothing,
    /// Toggles the ray that starts at the button and runs in one direction.
    OneArrow(OneArrow),
    /// Toggles the button and the two opposite rays that leave it.
    TwoArrow(TwoArrow),
    /// Toggles the row and the column of the button.
    FourArrow,
    /// Toggles the button and turns the states of its neighbours by one place,
    /// clockwise if the flag is set.
    Rotate(bool),
    /// Toggles the button and mirrors the two lines next to it into each other:
    /// the neighbouring columns if the flag is set, else the neighbouring rows.
    Symmetry(bool),
    /// Moves the states of the button's row by one place, with wraparound, to
    /// the right if the flag is set.
    Shift(bool),
    /// Toggles the button and its neighbours.
    AroundEight,
}

/// The eight directions of a single arrow. Up is the direction of growing `y`.
#[derive(Debug, Clone, Copy, PartialEq, Eq, Structural)]
pub enum OneArrow {
    Left,
    Right,
    Up,
    Down,
    LeftUp,
    LeftDown,
    RightUp,
    RightDown,
}

/// The four axes of a double arrow.
#[derive(Debug, Clone, Copy, PartialEq, Eq, Structural)]
pub enum TwoArrow {
    BothHorizontal,
    BothVertical,
    LeftUpRightDown,
    LeftDownRightUp,
}

impl OneArrow {
    /// The step in `x` of one move along the arrow.
    pub open spec fn dx(self) -> int {
        match self {
            OneArrow::Left | OneArrow::LeftUp | OneArrow::LeftDown => -1,
            OneArrow::Right | OneArrow::RightUp | OneArrow::RightDown => 1,
            OneArrow::Up | OneArrow::Down => 0,
        }
    }

    /// The step in `y` of one move along the arrow.
    pub open spec fn dy(self) -> int {
        match self {
            OneArrow::Up | OneArrow::LeftUp | OneArrow::RightUp => 1,
            OneArrow::Down | OneArrow::LeftDown | OneArrow::RightDown => -1,
            OneArrow::Left | OneArrow::Right => 0,
        }
    }
}

impl TwoArrow {
    /// The step in `x` of one move along the first of the two rays.
    pub open spec fn dx(self) -> int {
        match self {
            TwoArrow::BothHorizontal => 1,
            TwoArrow::BothVertical => 0,
            TwoArrow::LeftUpRightDown | TwoArrow::LeftDownRightUp => -1,
        }
    }

    /// The step in `y` of one move along the first of the two rays.
    pub open spec fn dy(self) -> int {
        match self {
            TwoArrow::BothHorizontal => 0,
            TwoArrow::BothVertical | TwoArrow::LeftUpRightDown => 1,
            TwoArrow::LeftDownRightUp => -1,
        }
    }
}

/// The rule that a selector byte of a level stands for. Zero and every byte
/// above twenty stand for `Nothing`.
pub open spec fn function_of_subtype(subtype: u8) -> ButtonFunction {
    if subtype == 1 {
        ButtonFunction::OneArrow(OneArrow::Up)
    } else if subtype == 2 {
        ButtonFunction::OneArrow(OneArrow::Down)
    } else if subtype == 3 {
        ButtonFunction::OneArrow(OneArrow::Left)
    } else if subtype == 4 {
        ButtonFunction::OneArrow(OneArrow::Right)
    } else if subtype == 5 {
        ButtonFunction::OneArrow(OneArrow::LeftUp)
    } else if subtype == 6 {
        ButtonFunction::OneArrow(OneArrow::RightUp)
    } else if subtype == 7 {
        ButtonFunction::OneArrow(OneArrow::LeftDown)
    } else if subtype == 8 {
        ButtonFunction::OneArrow(OneArrow::RightDown)
    } else if subtype == 9 {
        ButtonFunction::TwoArrow(TwoArrow::BothHorizontal)
    } else if subtype == 10 {
        ButtonFunction::TwoArrow(TwoArrow::BothVertical)
    } else if subtype == 11 {
        ButtonFunction::FourArrow
    } else if subtype == 12 {
        ButtonFunction::TwoArrow(TwoArrow::LeftUpRightDown)
    } else if subtype == 13 {
        ButtonFunction::TwoArrow(TwoArrow::LeftDownRightUp)
    } else if subtype == 14 {
        ButtonFunction::Rotate(true)
    } else if subtype == 15 {
        ButtonFunction::Rotate(false)
    } else if subtype == 16 {
        ButtonFunction::Symmetry(true)
    } else if subtype == 17 {
        ButtonFunction::Symmetry(false)
    } else if subtype == 18 {
        ButtonFunction::Shift(false)
    } else if subtype == 19 {
        ButtonFunction::Shift(true)
    } else if subtype == 20 {
        ButtonFunction::AroundEight
    } else {
        ButtonFunction::Nothing
    }
}

/// Whether `f` is one of the arrow rules, whose click undoes itself.
pub open spec fn is_arrow_function(f: ButtonFunction) -> bool {
    f is OneArrow || f is TwoArrow || f is FourArrow
}

/// Reads a selector byte of a level as a rule.
pub fn convert_subtype_to_func(subtype: u8) -> (func: ButtonFunction)
    ensures
        func == function_of_subtype(subtype),
{
    match subtype {
        1 => ButtonFunction::OneArrow(OneArrow::Up),
        2 => ButtonFunction::OneArrow(OneArrow::Down),
        3 => ButtonFunction::OneArrow(OneArrow::Left),
        4 => ButtonFunction::OneArrow(OneArrow::Right),
        5 => ButtonFunction::OneArrow(OneArrow::LeftUp),
        6 => ButtonFunction::OneArrow(OneArrow::RightUp),
        7 => ButtonFunction::OneArrow(OneArrow::LeftDown),
        8 => ButtonFunction::OneArrow(OneArrow::RightDown),
        9 => ButtonFunction::TwoArrow(TwoArrow::BothHorizontal),
        10 => ButtonFunction::TwoArrow(TwoArrow::BothVertical),
        11 => ButtonFunction::FourArrow,
        12 => ButtonFunction::TwoArrow(TwoArrow::LeftUpRightDown),
        13 => ButtonFunction::TwoArrow(TwoArrow::LeftDownRightUp),
        14 => ButtonFunction::Rotate(true),
        15 => ButtonFunction::Rotate(false),
        16 => ButtonFunction::Symmetry(true),
        17 => ButtonFunction::Symmetry(false),
        18 => ButtonFunction::Shift(false),
        19 => ButtonFunction::Shift(true),
        20 => ButtonFunction::AroundEight,
        _ => ButtonFunction::Nothing,
    }
}

/// Whether `a` is one of the arrow rules.
pub fn is_arrow(a: ButtonFunction) -> (arrow: bool)
    ensures
        arrow == is_arrow_function(a),
{
    match a {
        ButtonFunction::OneArrow(_) | ButtonFunction::TwoArrow(_) | ButtonFunction::FourArrow => true,
        _ => false,
    }
}

/// A cell position: column `x` and row `y`, both counted from zero.
#[derive(Debug, PartialEq, Eq, Hash, Clone, Copy, Structural)]
pub struct Coordinate {
    pub x: i32,
    pub y: i32,
}

impl Coordinate {
    /// The position in column `x` and row `y`.
    pub fn new(x: i32, y: i32) -> (coord: Coordinate)
        ensures
            coord.x == x,
            coord.y == y,
    {
        Coordinate { x, y }
    }
}

/// One cell of a grid: where it is, whether it is on, and its rule.
#[derive(Debug)]
pub struct Button {
    pub coord: Coordinate,
    pub is_on: bool,
    pub func: ButtonFunction,
}

impl Button {
    /// A button at `(x, y)` that is off and inert.
    pub fn new(x: i32, y: i32) -> (button: Button)
        ensures
            button.coord == (Coordinate { x, y }),
            !button.is_on,
            button.func == ButtonFunction::Nothing,
    {
        Button { coord: Coordinate::new(x, y), is_on: false, func: ButtonFunction::Nothing }
    }

    /// Flips the state of the button.
    pub fn toggle(&mut self)
        ensures
            final(self).is_on == !old(self).is_on,
            final(self).coord == old(self).coord,
            final(self).func == old(self).func,
    {
        self.is_on = !self.is_on;
    }
}

} // verus!
