use vstd::prelude::*;

verus! {

/// A cell of the board: `x` is the column, `y` the row (row 0 is the top).
#[derive(Clone, Copy, PartialEq, Eq, Structural, Debug, Hash)]
pub struct Position {
    pub x: u32,
    pub y: u32,
}

impl Position {
    /// The cell in column `x`, row `y`.
    pub fn new(x: u32, y: u32) -> (r: Position)
        ensures
            r.x == x,
            r.y == y,
    {
        Position { x, y }
    }

    /// The key under which this cell is stored.
    pub open spec fn key(self) -> (u32, u32) {
        (self.x, self.y)
    }
}

/// Whether `v` holds `p`.
pub fn contains_position(v: &Vec<Position>, p: Position) -> (r: bool)
    ensures
        r == v@.contains(p),
{
    let mut i: usize = 0;
    while i < v.len()
        invariant
            i <= v@.len(),
            forall|j: int| 0 <= j < i ==> v@[j] != p,
        decreases v@.len() - i,
    {
        if v[i] == p {
            assert(v@[i as int] == p);
            return true;
        }
        i += 1;
    }
    false
}

} // verus!
