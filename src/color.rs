use vstd::prelude::*;

verus! {

/// How a front end paints a cell.
#[derive(Clone, Copy, Debug, PartialEq, Eq, Structural)]
pub enum Color {
    Red,
    Black,
    Empty,
}

impl Color {
    /// A bouncer that just collided is painted red, any other black.
    pub fn from(collision: bool) -> (r: Color)
        ensures
            r == (if collision {
                Color::Red
            } else {
                Color::Black
            }),
    {
        if collision {
            Color::Red
        } else {
            Color::Black
        }
    }

    /// The style class of the colour.
    pub fn as_str(&self) -> (r: &'static str)
        ensures
            r@ == (match *self {
                Color::Black => "cell-black"@,
                Color::Red => "cell-red"@,
                Color::Empty => "cell-empty"@,
            }),
    {
        match self {
            Color::Black => "cell-black",
            Color::Red => "cell-red",
            Color::Empty => "cell-empty",
        }
    }
}

} // verus!
