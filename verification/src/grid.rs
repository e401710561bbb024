//! The arena grid: discrete positions, headings, and bounds.

use vstd::prelude::*;

verus! {

/// Width of the arena in cells.
pub const ARENA_WIDTH: u32 = 11;

/// Height of the arena in cells.
pub const ARENA_HEIGHT: u32 = 11;

/// A cell of the arena, as an `(x, y)` pair of grid coordinates.
///
/// A position is valid when `0 <= x < ARENA_WIDTH` and `0 <= y < ARENA_HEIGHT`;
/// the head of the snake may hold an out-of-bounds position transiently inside
/// a tick, which the bounds check then reports as a game-over condition.
#[derive(Debug, Copy, Clone, PartialEq, Eq, Structural)]
pub struct Position(pub i32, pub i32);

/// The heading of the snake: the direction its head moves on the next tick.
#[derive(Debug, Copy, Clone, PartialEq, Eq, Structural)]
pub enum Direction {
    Left,
    Up,
    Right,
    Down,
}

impl Direction {
    /// The reverse of this direction.
    pub open spec fn opposite_spec(self) -> Direction {
        match self {
            Direction::Left => Direction::Right,
            Direction::Up => Direction::Down,
            Direction::Right => Direction::Left,
            Direction::Down => Direction::Up,
        }
    }

    pub fn opposite(self) -> (r: Direction)
        ensures
            r == self.opposite_spec(),
    {
        match self {
            Direction::Left => Direction::Right,
            Direction::Up => Direction::Down,
            Direction::Right => Direction::Left,
            Direction::Down => Direction::Up,
        }
    }

    /// The unit step this direction makes, as `(dx, dy)`.
    pub open spec fn delta_spec(self) -> (int, int) {
        match self {
            Direction::Left => (-1int, 0int),
            Direction::Up => (0int, 1int),
            Direction::Right => (1int, 0int),
            Direction::Down => (0int, -1int),
        }
    }

    pub fn delta(self) -> (r: (i32, i32))
        ensures
            r.0 as int == self.delta_spec().0,
            r.1 as int == self.delta_spec().1,
    {
        match self {
            Direction::Left => (-1, 0),
            Direction::Up => (0, 1),
            Direction::Right => (1, 0),
            Direction::Down => (0, -1),
        }
    }
}

/// Whether a position lies inside the arena.
pub open spec fn in_bounds_spec(p: Position) -> bool {
    &&& 0 <= p.0 < ARENA_WIDTH as int
    &&& 0 <= p.1 < ARENA_HEIGHT as int
}

pub fn in_bounds(p: Position) -> (r: bool)
    ensures
        r == in_bounds_spec(p),
{
    p.0 >= 0 && p.1 >= 0 && p.0 < ARENA_WIDTH as i32 && p.1 < ARENA_HEIGHT as i32
}

/// The cell one step from `p` in direction `d`.
///
/// The cast is exact for every position a snake can hold: coordinates stay
/// within one cell of the arena, far from the limits of `i32`.
pub open spec fn step_spec(p: Position, d: Direction) -> Position {
    Position((p.0 + d.delta_spec().0) as i32, (p.1 + d.delta_spec().1) as i32)
}

} // verus!
