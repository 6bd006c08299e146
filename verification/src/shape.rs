use vstd::prelude::*;

verus! {

/// A cell color, as carried by a `Shape`.
#[derive(Clone, Copy, Debug, PartialEq, Eq, Hash, Structural)]
pub enum Color {
    Orange,
    Pink,
    Blue,
    Green,
}

/// A single tile: an optionally colored cell value.
#[derive(Clone, Copy, Debug, PartialEq, Eq, Hash, Structural)]
pub struct Shape {
    pub color: Option<Color>,
}

impl Shape {
    /// Create a new shape with the given color.
    pub fn new(color: Color) -> (s: Shape)
        ensures
            s.color == Some(color),
    {
        Shape { color: Some(color) }
    }
}

} // verus!
