use vstd::prelude::*;

verus! {

/// One of the four cardinal axes used to address a cell's edges.
#[derive(Copy, Clone, PartialEq, Eq, Structural, Debug)]
pub enum Direction {
    Right,
    Up,
    Left,
    Down,
}

impl Direction {
    /// Position of this direction in a cell's four-entry connection table.
    pub open spec fn index(self) -> int {
        match self {
            Direction::Right => 0,
            Direction::Up => 1,
            Direction::Left => 2,
            Direction::Down => 3,
        }
    }

    pub fn to_index(&self) -> (r: usize)
        ensures
            r == self.index(),
    {
        match *self {
            Direction::Right => 0,
            Direction::Up => 1,
            Direction::Left => 2,
            Direction::Down => 3,
        }
    }

    /// The involutive pairing Right <-> Left, Up <-> Down.
    pub open spec fn opposite(self) -> Direction {
        match self {
            Direction::Right => Direction::Left,
            Direction::Up => Direction::Down,
            Direction::Left => Direction::Right,
            Direction::Down => Direction::Up,
        }
    }

    pub fn get_opposite(&self) -> (r: Self)
        ensures
            r == self.opposite(),
    {
        match *self {
            Self::Right => Self::Left,
            Self::Up => Self::Down,
            Self::Left => Self::Right,
            Self::Down => Self::Up,
        }
    }
}

/// Taking the opposite direction twice leads back to the original direction.
pub proof fn lemma_opposite_involutive(d: Direction)
    ensures
        d.opposite().opposite() == d,
{
}

} // verus!
