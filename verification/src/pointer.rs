//! The instruction pointer: a direction of travel and a codel chooser.

use vstd::prelude::*;

verus! {

/// A grid coordinate: column, then row.
pub type Coord = (usize, usize);

/// The direction pointer.
#[derive(Clone, Copy, Debug, PartialEq, Eq, Hash, Structural)]
pub enum Direction {
    Right,
    Down,
    Left,
    Up,
}

/// The codel chooser.
#[derive(Clone, Copy, Debug, PartialEq, Eq, Hash, Structural)]
pub enum CodelChoice {
    Left,
    Right,
}

/// The pair of direction pointer and codel chooser.
#[derive(Clone, Copy, Debug, PartialEq, Eq, Hash, Structural)]
pub struct InstructionPointer(pub Direction, pub CodelChoice);

/// One more than `v`, wrapping to zero.
pub open spec fn wrap_up(v: usize) -> usize {
    if v == usize::MAX {
        0
    } else {
        (v + 1) as usize
    }
}

/// One less than `v`, wrapping to `usize::MAX`.
pub open spec fn wrap_down(v: usize) -> usize {
    if v == 0 {
        usize::MAX
    } else {
        (v - 1) as usize
    }
}

impl Direction {
    /// The direction a quarter turn clockwise from this one.
    pub open spec fn turned(self) -> Direction {
        match self {
            Direction::Right => Direction::Down,
            Direction::Down => Direction::Left,
            Direction::Left => Direction::Up,
            Direction::Up => Direction::Right,
        }
    }

    /// The direction after `n` quarter turns clockwise.
    pub open spec fn turned_by(self, n: nat) -> Direction
        decreases n,
    {
        if n == 0 {
            self
        } else {
            self.turned_by((n - 1) as nat).turned()
        }
    }

    /// The coordinate one step from `c` in this direction. A step off the
    /// low edge wraps to `usize::MAX`, which lies on no grid.
    pub open spec fn step_from(self, c: Coord) -> Coord {
        match self {
            Direction::Right => (wrap_up(c.0), c.1),
            Direction::Down => (c.0, wrap_up(c.1)),
            Direction::Left => (wrap_down(c.0), c.1),
            Direction::Up => (c.0, wrap_down(c.1)),
        }
    }

    /// The coordinate one step from `c` in this direction.
    pub fn step(self, c: Coord) -> (r: Coord)
        ensures
            r == self.step_from(c),
    {
        let (x, y) = c;
        match self {
            Direction::Right => (if x == usize::MAX { 0 } else { x + 1 }, y),
            Direction::Down => (x, if y == usize::MAX { 0 } else { y + 1 }),
            Direction::Left => (if x == 0 { usize::MAX } else { x - 1 }, y),
            Direction::Up => (x, if y == 0 { usize::MAX } else { y - 1 }),
        }
    }

    /// The step as a pair of offsets to add with wraparound: `usize::MAX`
    /// stands for minus one.
    pub fn to_delta(self) -> (d: Coord)
        ensures
            d == match self {
                Direction::Right => (1usize, 0usize),
                Direction::Down => (0usize, 1usize),
                Direction::Left => (usize::MAX, 0usize),
                Direction::Up => (0usize, usize::MAX),
            },
    {
        match self {
            Direction::Right => (1, 0),
            Direction::Down => (0, 1),
            Direction::Left => (usize::MAX, 0),
            Direction::Up => (0, usize::MAX),
        }
    }
}

impl CodelChoice {
    /// The other choice.
    pub open spec fn flipped(self) -> CodelChoice {
        match self {
            CodelChoice::Left => CodelChoice::Right,
            CodelChoice::Right => CodelChoice::Left,
        }
    }
}

impl InstructionPointer {
    /// The pointer a program starts with: rightward, choosing left.
    pub open spec fn initial() -> InstructionPointer {
        InstructionPointer(Direction::Right, CodelChoice::Left)
    }

    pub fn new() -> (r: InstructionPointer)
        ensures
            r == InstructionPointer::initial(),
    {
        InstructionPointer(Direction::Right, CodelChoice::Left)
    }

    /// Toggles the codel chooser.
    pub fn flip(&mut self)
        ensures
            final(self).0 == old(self).0,
            final(self).1 == old(self).1.flipped(),
    {
        self.1 = match self.1 {
            CodelChoice::Left => CodelChoice::Right,
            CodelChoice::Right => CodelChoice::Left,
        }
    }

    /// Turns the direction pointer a quarter turn clockwise.
    pub fn rotate(&mut self)
        ensures
            final(self).0 == old(self).0.turned(),
            final(self).1 == old(self).1,
    {
        self.0 = match self.0 {
            Direction::Right => Direction::Down,
            Direction::Down => Direction::Left,
            Direction::Left => Direction::Up,
            Direction::Up => Direction::Right,
        };
    }
}

impl Default for InstructionPointer {
    fn default() -> (r: InstructionPointer)
        ensures
            r == InstructionPointer::initial(),
    {
        InstructionPointer(Direction::Right, CodelChoice::Left)
    }
}

} // verus!
