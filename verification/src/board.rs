//! Places and moves on the rectangular boards of small analysed games.
use vstd::prelude::*;

verus! {

/// A place of a board, numbered row by row.
#[derive(Clone, Copy, Debug, PartialEq, Eq, Structural)]
pub struct Pos(pub usize);

impl Pos {
    /// The place at column `xy.0`, row `xy.1` of a board `size.0` wide.
    pub fn from_xy(size: (usize, usize), xy: (usize, usize)) -> (r: Self)
        requires
            xy.0 + xy.1 * size.0 <= usize::MAX,
        ensures
            r.0 == xy.0 + xy.1 * size.0,
    {
        Pos(xy.0 + xy.1 * size.0)
    }

    /// Column and row of the place on a board `size.0` wide.
    pub fn into_xy(&self, size: (usize, usize)) -> (r: (usize, usize))
        requires
            size.0 > 0,
        ensures
            r == (self.0 % size.0, self.0 / size.0),
    {
        (self.0 % size.0, self.0 / size.0)
    }
}

/// A move from one place to another.
#[derive(Clone, Copy, Debug, PartialEq, Eq, Structural)]
pub struct Move(pub Pos, pub Pos);

/// A side of a two-player game.
#[derive(Clone, Copy, Debug, PartialEq, Eq, Structural)]
pub enum Side {
    First,
    Second,
}

} // verus!
