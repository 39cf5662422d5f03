use vstd::prelude::*;
use crate::point::Point;
use crate::turning_direction::TurningDirection;

verus! {

/// The four headings, in the order of a counter-clockwise turn:
/// EAST, NORTH, WEST, SOUTH, and then EAST again.
#[derive(Debug, PartialEq, Eq, Structural, Clone, Copy, PartialOrd, Ord)]
pub enum Direction {
    EAST,
    NORTH,
    WEST,
    SOUTH,
}

impl Direction {
    /// The place of a heading in the cycle, counted from EAST.
    pub open spec fn index(self) -> int {
        match self {
            Direction::EAST => 0,
            Direction::NORTH => 1,
            Direction::WEST => 2,
            Direction::SOUTH => 3,
        }
    }

    /// The heading at place `i` of the cycle, for any integer `i`: the
    /// cycle is walked forwards for a positive `i` and backwards for a
    /// negative one.
    pub open spec fn at(i: int) -> Direction {
        let k = i % 4;
        if k == 0 {
            Direction::EAST
        } else if k == 1 {
            Direction::NORTH
        } else if k == 2 {
            Direction::WEST
        } else {
            Direction::SOUTH
        }
    }

    /// The heading after one quarter turn.
    pub open spec fn turned(self, t: TurningDirection) -> Direction {
        match (t, self) {
            (TurningDirection::LEFT, Direction::EAST) => Direction::NORTH,
            (TurningDirection::LEFT, Direction::NORTH) => Direction::WEST,
            (TurningDirection::LEFT, Direction::WEST) => Direction::SOUTH,
            (TurningDirection::LEFT, Direction::SOUTH) => Direction::EAST,
            (TurningDirection::RIGHT, Direction::EAST) => Direction::SOUTH,
            (TurningDirection::RIGHT, Direction::NORTH) => Direction::EAST,
            (TurningDirection::RIGHT, Direction::WEST) => Direction::NORTH,
            (TurningDirection::RIGHT, Direction::SOUTH) => Direction::WEST,
        }
    }

    /// The horizontal part of the unit step of a heading.
    pub open spec fn dx(self) -> int {
        match self {
            Direction::EAST => 1,
            Direction::WEST => -1,
            _ => 0,
        }
    }

    /// The vertical part of the unit step of a heading (NORTH is up, and
    /// up is negative).
    pub open spec fn dy(self) -> int {
        match self {
            Direction::NORTH => -1,
            Direction::SOUTH => 1,
            _ => 0,
        }
    }

    /// The heading `d` places further in the cycle; `d` may be negative
    /// and of any size.
    pub fn _next(&self, d: i32) -> (r: Direction)
        ensures
            r == Direction::at(self.index() + d),
    {
        let i: i64 = match self {
            Direction::EAST => 0,
            Direction::NORTH => 1,
            Direction::WEST => 2,
            Direction::SOUTH => 3,
        };
        // 2^31 is a multiple of four, so adding it keeps the place in the
        // cycle and makes the sum non-negative.
        let shifted: i64 = i + (d as i64) + 2147483648i64;
        let n: i64 = shifted % 4;
        assert(n == (self.index() + d) % 4);
        if n == 0 {
            Direction::EAST
        } else if n == 1 {
            Direction::NORTH
        } else if n == 2 {
            Direction::WEST
        } else {
            Direction::SOUTH
        }
    }

    /// The unit step of a heading in screen coordinates.
    pub fn value(&self) -> (p: Point<i32>)
        ensures
            p.x == self.dx(),
            p.y == self.dy(),
    {
        match *self {
            Direction::EAST => Point { x: 1, y: 0 },
            Direction::NORTH => Point { x: 0, y: -1 },
            Direction::WEST => Point { x: -1, y: 0 },
            Direction::SOUTH => Point { x: 0, y: 1 },
        }
    }

    /// Turns a quarter to the left (one place forwards in the cycle) or to
    /// the right (one place backwards).
    pub fn rotate(&self, d: &TurningDirection) -> (r: Direction)
        ensures
            r == self.turned(*d),
            *d == TurningDirection::LEFT ==> r == Direction::at(self.index() + 1),
            *d == TurningDirection::RIGHT ==> r == Direction::at(self.index() - 1),
    {
        let delta: i32 = match d {
            TurningDirection::LEFT => 1,
            TurningDirection::RIGHT => -1,
        };
        self._next(delta)
    }
}

/// Four quarter turns to the same side bring every heading back to itself.
pub proof fn lemma_four_turns_restore(h: Direction, t: TurningDirection)
    ensures
        h.turned(t).turned(t).turned(t).turned(t) == h,
{
}

/// A turn to one side followed by a turn to the other changes nothing.
pub proof fn lemma_opposite_turns_cancel(h: Direction)
    ensures
        h.turned(TurningDirection::LEFT).turned(TurningDirection::RIGHT) == h,
        h.turned(TurningDirection::RIGHT).turned(TurningDirection::LEFT) == h,
{
}

/// A heading is found at its own place in the cycle, and turning moves it
/// by one place.
pub proof fn lemma_turn_is_a_step_in_the_cycle(h: Direction)
    ensures
        Direction::at(h.index()) == h,
        h.turned(TurningDirection::LEFT) == Direction::at(h.index() + 1),
        h.turned(TurningDirection::RIGHT) == Direction::at(h.index() - 1),
{
}

} // verus!
