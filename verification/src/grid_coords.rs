use vstd::prelude::*;

use crate::direction::Direction;

verus! {

/// Each tile is a fixed 8x8 grid of cells.
pub const GRID_SIZE: usize = 8;

/// Address of one cell inside a tile, in a y-up coordinate system.
#[derive(Debug, Copy, Clone, Eq, Hash, PartialEq, Structural)]
pub struct GridCoords {
    pub x: usize,
    pub y: usize,
}

impl GridCoords {
    /// The coordinate lies inside the fixed grid.
    pub open spec fn in_grid(self) -> bool {
        self.x < GRID_SIZE && self.y < GRID_SIZE
    }

    /// Row-major position of this coordinate in a grid's cell storage.
    pub open spec fn idx(self) -> int {
        self.y * GRID_SIZE + self.x
    }

    /// Stepping one cell in the given direction stays inside the grid.
    pub open spec fn can_step(self, direction: Direction) -> bool {
        self.in_grid() && match direction {
            Direction::Right => self.x < GRID_SIZE - 1,
            Direction::Left => self.x > 0,
            Direction::Up => self.y < GRID_SIZE - 1,
            Direction::Down => self.y > 0,
        }
    }

    /// The neighboring coordinate one step in the given direction.
    pub open spec fn stepped(self, direction: Direction) -> GridCoords {
        match direction {
            Direction::Right => GridCoords { x: (self.x + 1) as usize, y: self.y },
            Direction::Left => GridCoords { x: (self.x - 1) as usize, y: self.y },
            Direction::Up => GridCoords { x: self.x, y: (self.y + 1) as usize },
            Direction::Down => GridCoords { x: self.x, y: (self.y - 1) as usize },
        }
    }

    /// The direction that leads from `a` to `b`, if the two are orthogonally
    /// adjacent; `None` otherwise.
    pub open spec fn dir_between(a: GridCoords, b: GridCoords) -> Option<Direction> {
        if b.x == a.x + 1 && b.y == a.y {
            Some(Direction::Right)
        } else if a.x == b.x + 1 && b.y == a.y {
            Some(Direction::Left)
        } else if b.y == a.y + 1 && b.x == a.x {
            Some(Direction::Up)
        } else if a.y == b.y + 1 && b.x == a.x {
            Some(Direction::Down)
        } else {
            None
        }
    }

    pub open spec fn is_adjacent(a: GridCoords, b: GridCoords) -> bool {
        Self::dir_between(a, b) is Some
    }

    pub fn to_index(&self) -> (r: usize)
        requires
            self.in_grid(),
        ensures
            r == self.idx(),
    {
        self.y * GRID_SIZE + self.x
    }

    pub fn get_adjacent(&self, direction: Direction) -> (r: Self)
        requires
            self.can_step(direction),
        ensures
            r == self.stepped(direction),
            r.in_grid(),
            Self::dir_between(*self, r) == Some(direction),
    {
        let mut x = self.x;
        let mut y = self.y;
        match direction {
            Direction::Right => {
                x += 1;
            },
            Direction::Left => {
                x -= 1;
            },
            Direction::Up => {
                y += 1;
            },
            Direction::Down => {
                y -= 1;
            },
        };
        Self { x, y }
    }

    /// The in-grid orthogonal neighbors of this coordinate, in the fixed order
    /// left, down, right, up (each present only when it exists).
    pub open spec fn neighbors_seq(self) -> Seq<GridCoords> {
        (if self.x > 0 {
            seq![GridCoords { x: (self.x - 1) as usize, y: self.y }]
        } else {
            Seq::empty()
        }) + (if self.y > 0 {
            seq![GridCoords { x: self.x, y: (self.y - 1) as usize }]
        } else {
            Seq::empty()
        }) + (if self.x < GRID_SIZE - 1 {
            seq![GridCoords { x: (self.x + 1) as usize, y: self.y }]
        } else {
            Seq::empty()
        }) + (if self.y < GRID_SIZE - 1 {
            seq![GridCoords { x: self.x, y: (self.y + 1) as usize }]
        } else {
            Seq::empty()
        })
    }

    pub fn get_neighbors(&self) -> (r: Vec<Self>)
        requires
            self.in_grid(),
        ensures
            r@ == self.neighbors_seq(),
            forall|i: int|
                0 <= i < r@.len() ==> r@[i].in_grid() && Self::is_adjacent(*self, r@[i]),
    {
        let mut result = Vec::new();
        if self.x > 0 {
            result.push(Self { x: self.x - 1, y: self.y });
        }
        if self.y > 0 {
            result.push(Self { x: self.x, y: self.y - 1 });
        }
        if self.x < GRID_SIZE - 1 {
            result.push(Self { x: self.x + 1, y: self.y });
        }
        if self.y < GRID_SIZE - 1 {
            result.push(Self { x: self.x, y: self.y + 1 });
        }
        proof {
            assert(result@ =~= self.neighbors_seq());
        }
        result
    }

    pub fn get_direction(from: Self, to: Self) -> (r: Option<Direction>)
        ensures
            r == Self::dir_between(from, to),
    {
        if to.x > from.x && to.x - from.x == 1 && to.y == from.y {
            Some(Direction::Right)
        } else if from.x > to.x && from.x - to.x == 1 && to.y == from.y {
            Some(Direction::Left)
        } else if to.y > from.y && to.y - from.y == 1 && to.x == from.x {
            Some(Direction::Up)
        } else if from.y > to.y && from.y - to.y == 1 && to.x == from.x {
            Some(Direction::Down)
        } else {
            None
        }
    }
}

/// When a direction leads from `a` to `b`, `b` is the stepped neighbor of `a`,
/// and the opposite direction leads back from `b` to `a`.
pub proof fn lemma_dir_between_stepped(a: GridCoords, b: GridCoords, d: Direction)
    requires
        a.in_grid(),
        b.in_grid(),
        GridCoords::dir_between(a, b) == Some(d),
    ensures
        a.can_step(d),
        b == a.stepped(d),
        b.can_step(d.opposite()),
        a == b.stepped(d.opposite()),
        GridCoords::dir_between(b, a) == Some(d.opposite()),
{
}

/// The neighbor list misses nothing: every in-grid cell one step away
/// appears in it.
pub proof fn lemma_neighbors_complete(c: GridCoords, d: Direction)
    requires
        c.can_step(d),
    ensures
        c.neighbors_seq().contains(c.stepped(d)),
{
    let s = c.neighbors_seq();
    let t = c.stepped(d);
    let left_count: int = if c.x > 0 { 1 } else { 0 };
    let down_count: int = if c.y > 0 { 1 } else { 0 };
    let right_count: int = if c.x < GRID_SIZE - 1 { 1 } else { 0 };
    match d {
        Direction::Left => {
            assert(s[0] == t);
        },
        Direction::Down => {
            assert(s[left_count] == t);
        },
        Direction::Right => {
            assert(s[left_count + down_count] == t);
        },
        Direction::Up => {
            assert(s[left_count + down_count + right_count] == t);
        },
    }
}

/// Distinct in-grid coordinates occupy distinct row-major positions.
pub proof fn lemma_idx_injective(a: GridCoords, b: GridCoords)
    requires
        a.in_grid(),
        b.in_grid(),
        a.idx() == b.idx(),
    ensures
        a == b,
{
}

} // verus!
