use vstd::prelude::*;

verus! {

/// A 2D grid position.  The type itself is unconstrained; staying inside
/// `[0,w) x [0,h)` is an invariant of the states that hold a `Coord`.
#[derive(Clone, Copy, Debug, PartialEq, Eq, Structural)]
pub struct Coord {
    pub x: usize,
    pub y: usize,
}

impl Coord {
    pub fn new() -> (r: Coord)
        ensures
            r.x == 0,
            r.y == 0,
    {
        Coord { x: 0, y: 0 }
    }
}

/// x-coordinate after taking action `a` (0: x+1, 1: x-1, 2/3: vertical).
pub open spec fn dest_x(x: int, a: int) -> int {
    if a == 0 {
        x + 1
    } else if a == 1 {
        x - 1
    } else {
        x
    }
}

/// y-coordinate after taking action `a` (2: y+1, 3: y-1, 0/1: horizontal).
pub open spec fn dest_y(y: int, a: int) -> int {
    if a == 2 {
        y + 1
    } else if a == 3 {
        y - 1
    } else {
        y
    }
}

pub open spec fn in_bounds(x: int, y: int, w: int, h: int) -> bool {
    0 <= x < w && 0 <= y < h
}

/// An action is legal at `(x, y)` iff its destination stays on the board.
pub open spec fn legal_at(x: int, y: int, w: int, h: int, a: int) -> bool {
    in_bounds(dest_x(x, a), dest_y(y, a), w, h)
}

/// Executable legality test for an action at an in-bounds coordinate.
pub fn coord_legal(c: Coord, a: usize, w: usize, h: usize) -> (r: bool)
    requires
        a < 4,
        c.x < w,
        c.y < h,
    ensures
        r == legal_at(c.x as int, c.y as int, w as int, h as int, a as int),
{
    if a == 0 {
        c.x + 1 < w
    } else if a == 1 {
        c.x >= 1
    } else if a == 2 {
        c.y + 1 < h
    } else if a == 3 {
        c.y >= 1
    } else {
        false
    }
}

/// Executable move of an in-bounds coordinate by a legal action.
pub fn apply_action(c: Coord, a: usize) -> (r: Coord)
    requires
        a < 4,
        0 <= dest_x(c.x as int, a as int) <= usize::MAX,
        0 <= dest_y(c.y as int, a as int) <= usize::MAX,
    ensures
        r.x as int == dest_x(c.x as int, a as int),
        r.y as int == dest_y(c.y as int, a as int),
{
    if a == 0 {
        Coord { x: c.x + 1, y: c.y }
    } else if a == 1 {
        Coord { x: c.x - 1, y: c.y }
    } else if a == 2 {
        Coord { x: c.x, y: c.y + 1 }
    } else {
        Coord { x: c.x, y: c.y - 1 }
    }
}

} // verus!
