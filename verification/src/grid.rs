use vstd::prelude::*;

use crate::direction::Direction;
use crate::grid_coords::{lemma_dir_between_stepped, lemma_idx_injective, GridCoords, GRID_SIZE};

verus! {

/// Number of cells in one grid.
pub const CELL_COUNT: usize = GRID_SIZE * GRID_SIZE;

/// The state of one cell's edge in one direction.
///
/// `connected` records an open passage across the edge, `blocked` a permanent
/// wall that carving must never open. `is_maze_exit` marks an edge that leads
/// outside the maze, and `is_solution_connection` marks an edge on the marked
/// solution path (on a tile boundary it also stands for an exit inherited from
/// a neighboring region). `split_bits` holds random bits consumed one per
/// subdivision level to decide which child sub-edge inherits the connection.
#[derive(Copy, Clone, PartialEq, Eq, Structural, Debug)]
pub struct Connection {
    pub connected: bool,
    pub blocked: bool,
    pub is_solution_connection: bool,
    pub is_maze_exit: bool,
    pub split_bits: u16,
}

impl Connection {
    /// A fully open, unmarked edge.
    pub open spec fn default_spec() -> Connection {
        Connection {
            connected: false,
            blocked: false,
            is_solution_connection: false,
            is_maze_exit: false,
            split_bits: 0,
        }
    }

    /// The same edge with an open passage recorded.
    pub open spec fn with_connected(self) -> Connection {
        Connection { connected: true, ..self }
    }

    /// The same edge marked as part of the solution path.
    pub open spec fn with_solution(self) -> Connection {
        Connection { is_solution_connection: true, ..self }
    }

    /// The same edge permanently walled off.
    pub open spec fn with_blocked(self) -> Connection {
        Connection { blocked: true, ..self }
    }

    /// The edge counts as an exit when scanning a boundary: either a true
    /// maze exit or a solution marker inherited across a tile seam.
    pub open spec fn exit_like(self) -> bool {
        self.is_maze_exit || self.is_solution_connection
    }

    pub fn new() -> (r: Self)
        ensures
            r == Self::default_spec(),
    {
        Self {
            connected: false,
            blocked: false,
            is_solution_connection: false,
            is_maze_exit: false,
            split_bits: 0,
        }
    }

    pub fn is_boundary_exit(&self) -> (r: bool)
        ensures
            r == self.exit_like(),
    {
        self.is_maze_exit || self.is_solution_connection
    }
}

/// One maze cell: four connection records, one per direction.
#[derive(Copy, Clone, PartialEq, Eq, Structural, Debug)]
pub struct Cell {
    pub right: Connection,
    pub up: Connection,
    pub left: Connection,
    pub down: Connection,
}

impl Cell {
    /// The connection record of this cell in the given direction.
    pub open spec fn conn(self, d: Direction) -> Connection {
        match d {
            Direction::Right => self.right,
            Direction::Up => self.up,
            Direction::Left => self.left,
            Direction::Down => self.down,
        }
    }

    /// A cell with all four edges fully open and unmarked.
    pub open spec fn default_spec() -> Cell {
        Cell {
            right: Connection::default_spec(),
            up: Connection::default_spec(),
            left: Connection::default_spec(),
            down: Connection::default_spec(),
        }
    }

    pub fn new() -> (r: Self)
        ensures
            r == Self::default_spec(),
    {
        Self {
            right: Connection::new(),
            up: Connection::new(),
            left: Connection::new(),
            down: Connection::new(),
        }
    }

    pub fn get_connection(&self, d: Direction) -> (r: Connection)
        ensures
            r == self.conn(d),
    {
        match d {
            Direction::Right => self.right,
            Direction::Up => self.up,
            Direction::Left => self.left,
            Direction::Down => self.down,
        }
    }

    pub fn set_connection(&mut self, d: Direction, c: Connection)
        ensures
            forall|dd: Direction|
                final(self).conn(dd) == (if dd == d {
                    c
                } else {
                    old(self).conn(dd)
                }),
    {
        match d {
            Direction::Right => self.right = c,
            Direction::Up => self.up = c,
            Direction::Left => self.left = c,
            Direction::Down => self.down = c,
        }
    }

    /// The low nibble encoding which of the four edges carry an open passage:
    /// up is bit 0, down bit 1, left bit 2, right bit 3.
    pub open spec fn connection_bits(self) -> int {
        bit_val(self.up.connected) + 2 * bit_val(self.down.connected) + 4 * bit_val(
            self.left.connected,
        ) + 8 * bit_val(self.right.connected)
    }

    /// The same nibble encoding for the solution-path markers.
    pub open spec fn solution_bits(self) -> int {
        bit_val(self.up.is_solution_connection) + 2 * bit_val(self.down.is_solution_connection) + 4
            * bit_val(self.left.is_solution_connection) + 8 * bit_val(
            self.right.is_solution_connection,
        )
    }

    pub fn get_connection_bits(&self) -> (r: u8)
        ensures
            r == self.connection_bits(),
            r < 16,
    {
        let up: u8 = if self.up.connected {
            1
        } else {
            0
        };
        let down: u8 = if self.down.connected {
            1
        } else {
            0
        };
        let left: u8 = if self.left.connected {
            1
        } else {
            0
        };
        let right: u8 = if self.right.connected {
            1
        } else {
            0
        };
        let r = up | (down << 1u32) | (left << 2u32) | (right << 3u32);
        proof {
            assert(up <= 1 && down <= 1 && left <= 1 && right <= 1 ==> (up | (down << 1u32) | (left
                << 2u32) | (right << 3u32)) == up + 2 * down + 4 * left + 8 * right) by (bit_vector);
        }
        r
    }

    pub fn get_solution_bits(&self) -> (r: u8)
        ensures
            r == self.solution_bits(),
            r < 16,
    {
        let up: u8 = if self.up.is_solution_connection {
            1
        } else {
            0
        };
        let down: u8 = if self.down.is_solution_connection {
            1
        } else {
            0
        };
        let left: u8 = if self.left.is_solution_connection {
            1
        } else {
            0
        };
        let right: u8 = if self.right.is_solution_connection {
            1
        } else {
            0
        };
        let r = up | (down << 1u32) | (left << 2u32) | (right << 3u32);
        proof {
            assert(up <= 1 && down <= 1 && left <= 1 && right <= 1 ==> (up | (down << 1u32) | (left
                << 2u32) | (right << 3u32)) == up + 2 * down + 4 * left + 8 * right) by (bit_vector);
        }
        r
    }
}

/// One quadtree tile's maze state: a fixed 8x8 array of cells in row-major
/// order, rows running bottom to top (y-up).
pub struct Grid {
    pub cells: Vec<Cell>,
}

impl Grid {
    /// The grid holds exactly one cell per coordinate of the fixed 8x8 tile.
    pub open spec fn wf(self) -> bool {
        self.cells@.len() == CELL_COUNT
    }

    /// The connection record at coordinate `c` in direction `d`.
    pub open spec fn conn(self, c: GridCoords, d: Direction) -> Connection {
        self.cells@[c.idx()].conn(d)
    }

    /// The connection record at `(x, y)` in direction `d`.
    pub open spec fn conn_xy(self, x: int, y: int, d: Direction) -> Connection {
        self.cells@[y * GRID_SIZE + x].conn(d)
    }

    /// Open passages are always recorded symmetrically: an edge from a cell to
    /// its neighbor reports `connected` exactly as the neighbor's facing edge
    /// does.
    pub open spec fn connection_symmetry(self) -> bool {
        forall|c: GridCoords, d: Direction|
            c.can_step(d) ==> #[trigger] self.conn(c, d).connected == self.conn(
                c.stepped(d),
                d.opposite(),
            ).connected
    }

    /// Solution markers on interior edges are likewise always symmetric.
    pub open spec fn solution_symmetry(self) -> bool {
        forall|c: GridCoords, d: Direction|
            c.can_step(d) ==> #[trigger] self.conn(c, d).is_solution_connection == self.conn(
                c.stepped(d),
                d.opposite(),
            ).is_solution_connection
    }

    pub fn new() -> (r: Self)
        ensures
            r.wf(),
            forall|i: int| 0 <= i < CELL_COUNT ==> r.cells@[i] == Cell::default_spec(),
    {
        let mut cells: Vec<Cell> = Vec::new();
        let mut i: usize = 0;
        while i < CELL_COUNT
            invariant
                i <= CELL_COUNT,
                cells@.len() == i,
                forall|j: int| 0 <= j < i ==> cells@[j] == Cell::default_spec(),
            decreases CELL_COUNT - i,
        {
            cells.push(Cell::new());
            i += 1;
        }
        Self { cells }
    }

    pub fn get_cell(&self, coords: GridCoords) -> (r: &Cell)
        requires
            self.wf(),
            coords.in_grid(),
        ensures
            *r == self.cells@[coords.idx()],
    {
        &self.cells[coords.to_index()]
    }

    pub fn get_cell_mut(&mut self, coords: GridCoords) -> (r: &mut Cell)
        requires
            old(self).wf(),
            coords.in_grid(),
        ensures
            *r == old(self).cells@[coords.idx()],
            final(self).cells@ == old(self).cells@.update(coords.idx(), *final(r)),
    {
        &mut self.cells[coords.to_index()]
    }

    pub fn can_connect(&mut self, a: GridCoords, b: GridCoords) -> (r: bool)
        requires
            old(self).wf(),
            a.in_grid(),
            b.in_grid(),
            GridCoords::is_adjacent(a, b),
        ensures
            *final(self) == *old(self),
            r == !old(self).conn(a, GridCoords::dir_between(a, b).unwrap()).blocked,
    {
        let direction = GridCoords::get_direction(a, b).unwrap();
        let connection = self.get_cell(a).get_connection(direction);
        !connection.blocked
    }

    pub fn is_connected(&mut self, a: GridCoords, b: GridCoords) -> (r: bool)
        requires
            old(self).wf(),
            a.in_grid(),
            b.in_grid(),
            GridCoords::is_adjacent(a, b),
        ensures
            *final(self) == *old(self),
            r == old(self).conn(a, GridCoords::dir_between(a, b).unwrap()).connected,
    {
        let direction = GridCoords::get_direction(a, b).unwrap();
        let connection = self.get_cell(a).get_connection(direction);
        connection.connected
    }

    /// Open the passage between two adjacent cells, writing the `connected`
    /// flag on both facing edges.
    pub fn connect(&mut self, a: GridCoords, b: GridCoords)
        requires
            old(self).wf(),
            a.in_grid(),
            b.in_grid(),
            GridCoords::is_adjacent(a, b),
        ensures
            final(self).wf(),
            ({
                let d = GridCoords::dir_between(a, b).unwrap();
                &&& final(self).conn(a, d) == old(self).conn(a, d).with_connected()
                &&& final(self).conn(b, d.opposite()) == old(self).conn(
                    b,
                    d.opposite(),
                ).with_connected()
                &&& forall|c: GridCoords, dd: Direction|
                    c.in_grid() && !(c == a && dd == d) && !(c == b && dd == d.opposite())
                        ==> #[trigger] final(self).conn(c, dd) == old(self).conn(c, dd)
            }),
            old(self).connection_symmetry() ==> final(self).connection_symmetry(),
    {
        let ghost pre = *self;
        let direction = GridCoords::get_direction(a, b).unwrap();
        let opposite_dir = direction.get_opposite();
        let ai = a.to_index();
        let bi = b.to_index();
        proof {
            lemma_dir_between_stepped(a, b, direction);
        }
        let mut cell_a = self.cells[ai];
        let conn_a = cell_a.get_connection(direction);
        cell_a.set_connection(direction, Connection { connected: true, ..conn_a });
        self.cells[ai] = cell_a;
        let mut cell_b = self.cells[bi];
        let conn_b = cell_b.get_connection(opposite_dir);
        cell_b.set_connection(opposite_dir, Connection { connected: true, ..conn_b });
        self.cells[bi] = cell_b;
        proof {
            lemma_two_edge_update(pre, *self, a, direction, b, direction.opposite());
            assert(self.conn(a, direction) == pre.conn(a, direction).with_connected());
            assert(self.conn(b, direction.opposite()) == pre.conn(
                b,
                direction.opposite(),
            ).with_connected());
            if pre.connection_symmetry() {
                lemma_symmetric_pair_update_connected(pre, *self, a, b, direction);
            }
        }
    }

    /// Mark the passage between two adjacent cells as part of the solution
    /// path, writing the marker on both facing edges.
    pub fn connect_solution(&mut self, a: GridCoords, b: GridCoords)
        requires
            old(self).wf(),
            a.in_grid(),
            b.in_grid(),
            GridCoords::is_adjacent(a, b),
        ensures
            final(self).wf(),
            ({
                let d = GridCoords::dir_between(a, b).unwrap();
                &&& final(self).conn(a, d) == old(self).conn(a, d).with_solution()
                &&& final(self).conn(b, d.opposite()) == old(self).conn(
                    b,
                    d.opposite(),
                ).with_solution()
                &&& forall|c: GridCoords, dd: Direction|
                    c.in_grid() && !(c == a && dd == d) && !(c == b && dd == d.opposite())
                        ==> #[trigger] final(self).conn(c, dd) == old(self).conn(c, dd)
            }),
            old(self).solution_symmetry() ==> final(self).solution_symmetry(),
    {
        let ghost pre = *self;
        let direction = GridCoords::get_direction(a, b).unwrap();
        let opposite_dir = direction.get_opposite();
        let ai = a.to_index();
        let bi = b.to_index();
        proof {
            lemma_dir_between_stepped(a, b, direction);
        }
        let mut cell_a = self.cells[ai];
        let conn_a = cell_a.get_connection(direction);
        cell_a.set_connection(direction, Connection { is_solution_connection: true, ..conn_a });
        self.cells[ai] = cell_a;
        let mut cell_b = self.cells[bi];
        let conn_b = cell_b.get_connection(opposite_dir);
        cell_b.set_connection(opposite_dir, Connection { is_solution_connection: true, ..conn_b });
        self.cells[bi] = cell_b;
        proof {
            lemma_two_edge_update(pre, *self, a, direction, b, direction.opposite());
            if pre.solution_symmetry() {
                lemma_symmetric_pair_update_solution(pre, *self, a, b, direction);
            }
        }
    }
}

/// The edge at `c` in direction `d` faces out of the grid.
pub open spec fn boundary_facing(c: GridCoords, d: Direction) -> bool {
    c.in_grid() && !c.can_step(d)
}

/// How far along its side of the boundary the edge at `c` in direction `d`
/// lies.
pub open spec fn boundary_pos(c: GridCoords, d: Direction) -> int {
    match d {
        Direction::Down | Direction::Up => c.x as int,
        Direction::Left | Direction::Right => c.y as int,
    }
}

/// The boundary cell at the given index along the given side of the grid.
pub open spec fn exit_coords(direction: Direction, index: usize) -> GridCoords {
    match direction {
        Direction::Right => GridCoords { x: (GRID_SIZE - 1) as usize, y: index },
        Direction::Left => GridCoords { x: 0, y: index },
        Direction::Up => GridCoords { x: index, y: (GRID_SIZE - 1) as usize },
        Direction::Down => GridCoords { x: index, y: 0 },
    }
}

/// The exit-like directions of a cell, scanned in the fixed order right, up,
/// left, down.
pub open spec fn exit_directions_seq(cell: Cell) -> Seq<Direction> {
    (if cell.right.exit_like() {
        seq![Direction::Right]
    } else {
        Seq::empty()
    }) + (if cell.up.exit_like() {
        seq![Direction::Up]
    } else {
        Seq::empty()
    }) + (if cell.left.exit_like() {
        seq![Direction::Left]
    } else {
        Seq::empty()
    }) + (if cell.down.exit_like() {
        seq![Direction::Down]
    } else {
        Seq::empty()
    })
}

impl Grid {
    pub fn get_conn_at(&self, c: GridCoords, d: Direction) -> (r: Connection)
        requires
            self.wf(),
            c.in_grid(),
        ensures
            r == self.conn(c, d),
    {
        self.cells[c.to_index()].get_connection(d)
    }

    /// Overwrite the single connection record at `c` in direction `d`.
    fn set_conn_at(&mut self, c: GridCoords, d: Direction, value: Connection)
        requires
            old(self).wf(),
            c.in_grid(),
        ensures
            final(self).wf(),
            final(self).conn(c, d) == value,
            forall|c2: GridCoords, d2: Direction|
                c2.in_grid() && !(c2 == c && d2 == d) ==> #[trigger] final(self).conn(c2, d2)
                    == old(self).conn(c2, d2),
    {
        let ghost pre = *self;
        let i = c.to_index();
        let mut cell = self.cells[i];
        cell.set_connection(d, value);
        self.cells[i] = cell;
        proof {
            assert forall|c2: GridCoords, d2: Direction|
                c2.in_grid() && !(c2 == c && d2 == d) implies #[trigger] self.conn(c2, d2)
                == pre.conn(c2, d2) by {
                if c2.idx() == c.idx() {
                    lemma_idx_injective(c2, c);
                }
            }
        }
    }

    /// Set `blocked` on all four outer edges of the grid, as used for a
    /// standalone, non-subdivided tile.
    pub fn mark_boundaries(&mut self)
        requires
            old(self).wf(),
        ensures
            final(self).wf(),
            forall|c: GridCoords, d: Direction|
                c.in_grid() ==> #[trigger] final(self).conn(c, d) == (if boundary_facing(c, d) {
                    old(self).conn(c, d).with_blocked()
                } else {
                    old(self).conn(c, d)
                }),
    {
        let ghost pre = *self;
        let mut i: usize = 0;
        while i < GRID_SIZE
            invariant
                pre.wf(),
                self.wf(),
                i <= GRID_SIZE,
                forall|c: GridCoords, d: Direction|
                    c.in_grid() ==> #[trigger] self.conn(c, d) == (if boundary_facing(c, d)
                        && boundary_pos(c, d) < i {
                        pre.conn(c, d).with_blocked()
                    } else {
                        pre.conn(c, d)
                    }),
            decreases GRID_SIZE - i,
        {
            let c_down = GridCoords { x: i, y: 0 };
            let cur_down = self.get_conn_at(c_down, Direction::Down);
            self.set_conn_at(c_down, Direction::Down, Connection { blocked: true, ..cur_down });

            let c_up = GridCoords { x: i, y: GRID_SIZE - 1 };
            let cur_up = self.get_conn_at(c_up, Direction::Up);
            self.set_conn_at(c_up, Direction::Up, Connection { blocked: true, ..cur_up });

            let c_left = GridCoords { x: 0, y: i };
            let cur_left = self.get_conn_at(c_left, Direction::Left);
            self.set_conn_at(c_left, Direction::Left, Connection { blocked: true, ..cur_left });

            let c_right = GridCoords { x: GRID_SIZE - 1, y: i };
            let cur_right = self.get_conn_at(c_right, Direction::Right);
            self.set_conn_at(c_right, Direction::Right, Connection { blocked: true, ..cur_right });

            proof {
                assert forall|c: GridCoords, d: Direction| c.in_grid() implies #[trigger] self.conn(
                    c,
                    d,
                ) == (if boundary_facing(c, d) && boundary_pos(c, d) < i + 1 {
                    pre.conn(c, d).with_blocked()
                } else {
                    pre.conn(c, d)
                }) by {
                    if !((c == c_down && d == Direction::Down) || (c == c_up && d == Direction::Up)
                        || (c == c_left && d == Direction::Left) || (c == c_right
                        && d == Direction::Right)) {
                        assert(!(boundary_facing(c, d) && boundary_pos(c, d) == i));
                    }
                }
            }
            i += 1;
        }
    }

    /// Turn the boundary edge at the given index along the given side into a
    /// maze exit: unblocked, connected, flagged as exit and solution, with
    /// fresh random split bits for later subdivision.
    pub fn mark_exit(&mut self, direction: Direction, index: usize)
        requires
            old(self).wf(),
            index < GRID_SIZE,
        ensures
            final(self).wf(),
            ({
                let c = exit_coords(direction, index);
                let e = final(self).conn(c, direction);
                &&& e.connected
                &&& !e.blocked
                &&& e.is_maze_exit
                &&& e.is_solution_connection
                &&& forall|c2: GridCoords, d2: Direction|
                    c2.in_grid() && !(c2 == c && d2 == direction) ==> #[trigger] final(self).conn(
                        c2,
                        d2,
                    ) == old(self).conn(c2, d2)
            }),
    {
        let (x, y) = match direction {
            Direction::Right => (GRID_SIZE - 1, index),
            Direction::Left => (0, index),
            Direction::Up => (index, GRID_SIZE - 1),
            Direction::Down => (index, 0),
        };
        let c = GridCoords { x, y };
        // Random bits decide where exactly the exit lands each time the
        // resolution doubles.
        let bits = crate::rng::random_u16();
        self.set_conn_at(
            c,
            direction,
            Connection {
                connected: true,
                blocked: false,
                is_maze_exit: true,
                is_solution_connection: true,
                split_bits: bits,
            },
        );
    }

    /// The directions at `current` flagged as exit-like, used by the solution
    /// finder to recognize terminal cells.
    pub fn get_exit_directions(&self, current: GridCoords) -> (r: Vec<Direction>)
        requires
            self.wf(),
            current.in_grid(),
        ensures
            r@ == exit_directions_seq(self.cells@[current.idx()]),
    {
        let cell = self.get_cell(current);
        let mut result: Vec<Direction> = Vec::new();
        if cell.right.is_boundary_exit() {
            result.push(Direction::Right);
        }
        if cell.up.is_boundary_exit() {
            result.push(Direction::Up);
        }
        if cell.left.is_boundary_exit() {
            result.push(Direction::Left);
        }
        if cell.down.is_boundary_exit() {
            result.push(Direction::Down);
        }
        proof {
            assert(result@ =~= exit_directions_seq(self.cells@[current.idx()]));
        }
        result
    }

    /// The exit-like edges found at boundary index `i`, scanned bottom, top,
    /// left, right.
    pub open spec fn exits_at_index(self, i: int) -> Seq<(GridCoords, Direction)> {
        (if self.conn_xy(i, 0, Direction::Down).exit_like() {
            seq![(GridCoords { x: i as usize, y: 0 }, Direction::Down)]
        } else {
            Seq::empty()
        }) + (if self.conn_xy(i, GRID_SIZE - 1, Direction::Up).exit_like() {
            seq![(GridCoords { x: i as usize, y: (GRID_SIZE - 1) as usize }, Direction::Up)]
        } else {
            Seq::empty()
        }) + (if self.conn_xy(0, i, Direction::Left).exit_like() {
            seq![(GridCoords { x: 0, y: i as usize }, Direction::Left)]
        } else {
            Seq::empty()
        }) + (if self.conn_xy(GRID_SIZE - 1, i, Direction::Right).exit_like() {
            seq![(GridCoords { x: (GRID_SIZE - 1) as usize, y: i as usize }, Direction::Right)]
        } else {
            Seq::empty()
        })
    }

    /// Every exit-like boundary edge with index below `i` along its side.
    pub open spec fn exits_up_to(self, i: int) -> Seq<(GridCoords, Direction)>
        decreases i,
    {
        if i <= 0 {
            Seq::empty()
        } else {
            self.exits_up_to(i - 1) + self.exits_at_index(i - 1)
        }
    }

    /// Every exit-like edge across the whole perimeter, paired with its
    /// coordinate and direction.
    pub open spec fn all_exits(self) -> Seq<(GridCoords, Direction)> {
        self.exits_up_to(GRID_SIZE as int)
    }

    #[verifier::rlimit(60)]
    pub fn get_all_exits(&self) -> (r: Vec<(GridCoords, Direction)>)
        requires
            self.wf(),
        ensures
            r@ == self.all_exits(),
    {
        let mut result: Vec<(GridCoords, Direction)> = Vec::new();
        let mut i: usize = 0;
        while i < GRID_SIZE
            invariant
                self.wf(),
                i <= GRID_SIZE,
                result@ == self.exits_up_to(i as int),
            decreases GRID_SIZE - i,
        {
            let ghost entry = result@;
            let c_down = GridCoords { x: i, y: 0 };
            if self.get_conn_at(c_down, Direction::Down).is_boundary_exit() {
                result.push((c_down, Direction::Down));
            }
            let c_up = GridCoords { x: i, y: GRID_SIZE - 1 };
            if self.get_conn_at(c_up, Direction::Up).is_boundary_exit() {
                result.push((c_up, Direction::Up));
            }
            let c_left = GridCoords { x: 0, y: i };
            if self.get_conn_at(c_left, Direction::Left).is_boundary_exit() {
                result.push((c_left, Direction::Left));
            }
            let c_right = GridCoords { x: GRID_SIZE - 1, y: i };
            if self.get_conn_at(c_right, Direction::Right).is_boundary_exit() {
                result.push((c_right, Direction::Right));
            }
            proof {
                assert(result@ =~= entry + self.exits_at_index(i as int));
                assert(result@ =~= self.exits_up_to(i + 1));
            }
            i += 1;
        }
        result
    }
}

/// What one parent boundary connection becomes on a child grid at double
/// resolution: the child sub-edge at offset `k` (0 or 1) of the doubled pair,
/// where `prior` is the connection the child already held at that slot.
///
/// A blocked parent edge walls off both sub-edges. An open parent edge lands
/// on exactly one sub-edge, chosen by the lowest split bit, carrying the
/// parent's flags and the remaining split bits; the other sub-edge is reset to
/// the fully open default.
pub open spec fn split_of(p: Connection, prior: Connection, k: int) -> Connection {
    if p.blocked {
        prior.with_blocked()
    } else if k == (p.split_bits & 1) as int {
        Connection {
            connected: p.connected,
            blocked: prior.blocked,
            is_solution_connection: p.is_solution_connection,
            is_maze_exit: p.is_maze_exit,
            split_bits: p.split_bits >> 1,
        }
    } else {
        Connection::default_spec()
    }
}

/// Splitting an open parent edge onto a fresh child boundary leaves exactly
/// one of the two sub-edges carrying the parent's `connected`, exit and
/// solution flags (with the split bits shifted down for the next level), and
/// the other sub-edge fully cleared. The choice is a function of the parent's
/// split bits alone, so it is reproducible.
pub proof fn lemma_split_round_trip(p: Connection)
    requires
        !p.blocked,
    ensures
        ({
            let b = (p.split_bits & 1) as int;
            &&& 0 <= b < 2
            &&& split_of(p, Connection::default_spec(), b) == (Connection {
                connected: p.connected,
                blocked: false,
                is_solution_connection: p.is_solution_connection,
                is_maze_exit: p.is_maze_exit,
                split_bits: p.split_bits >> 1,
            })
            &&& split_of(p, Connection::default_spec(), 1 - b) == Connection::default_spec()
        }),
{
    let sb = p.split_bits;
    assert(sb & 1 < 2) by (bit_vector);
}

impl Grid {
    /// Read the full row of connection records at height `y` in direction
    /// `direction`, ordered by x.
    pub fn get_horizontal_seam(&self, y: usize, direction: Direction) -> (r: Vec<Connection>)
        requires
            self.wf(),
            y < GRID_SIZE,
        ensures
            r@.len() == GRID_SIZE,
            forall|x: int|
                0 <= x < GRID_SIZE ==> r@[x] == self.conn_xy(x, y as int, direction),
    {
        let mut result: Vec<Connection> = Vec::new();
        let mut x: usize = 0;
        while x < GRID_SIZE
            invariant
                self.wf(),
                y < GRID_SIZE,
                x <= GRID_SIZE,
                result@.len() == x,
                forall|j: int| 0 <= j < x ==> result@[j] == self.conn_xy(j, y as int, direction),
            decreases GRID_SIZE - x,
        {
            result.push(self.get_conn_at(GridCoords { x, y }, direction));
            x += 1;
        }
        result
    }

    /// Read the full column of connection records at `x` in direction
    /// `direction`, ordered by y.
    pub fn get_vertical_seam(&self, x: usize, direction: Direction) -> (r: Vec<Connection>)
        requires
            self.wf(),
            x < GRID_SIZE,
        ensures
            r@.len() == GRID_SIZE,
            forall|y: int|
                0 <= y < GRID_SIZE ==> r@[y] == self.conn_xy(x as int, y, direction),
    {
        let mut result: Vec<Connection> = Vec::new();
        let mut y: usize = 0;
        while y < GRID_SIZE
            invariant
                self.wf(),
                x < GRID_SIZE,
                y <= GRID_SIZE,
                result@.len() == y,
                forall|j: int| 0 <= j < y ==> result@[j] == self.conn_xy(x as int, j, direction),
            decreases GRID_SIZE - y,
        {
            result.push(self.get_conn_at(GridCoords { x, y }, direction));
            y += 1;
        }
        result
    }

    /// Install one half-length parent seam onto the boundary row at height
    /// `y`, doubling its resolution.
    fn set_horizontal_boundary(&mut self, y: usize, boundary: &[Connection], direction: Direction)
        requires
            old(self).wf(),
            y < GRID_SIZE,
            boundary@.len() == GRID_SIZE / 2,
        ensures
            final(self).wf(),
            forall|x: int|
                0 <= x < GRID_SIZE ==> #[trigger] final(self).conn_xy(x, y as int, direction)
                    == split_of(boundary@[x / 2], old(self).conn_xy(x, y as int, direction), x % 2),
            forall|c2: GridCoords, d2: Direction|
                c2.in_grid() && !(d2 == direction && c2.y == y) ==> #[trigger] final(self).conn(
                    c2,
                    d2,
                ) == old(self).conn(c2, d2),
    {
        let ghost pre = *self;
        let mut i: usize = 0;
        while i < GRID_SIZE / 2
            invariant
                pre.wf(),
                self.wf(),
                y < GRID_SIZE,
                boundary@.len() == GRID_SIZE / 2,
                i <= GRID_SIZE / 2,
                forall|x: int|
                    0 <= x < 2 * i ==> #[trigger] self.conn_xy(x, y as int, direction) == split_of(
                        boundary@[x / 2],
                        pre.conn_xy(x, y as int, direction),
                        x % 2,
                    ),
                forall|c2: GridCoords, d2: Direction|
                    c2.in_grid() && !(d2 == direction && c2.y == y && c2.x < 2 * i)
                        ==> #[trigger] self.conn(c2, d2) == pre.conn(c2, d2),
            decreases GRID_SIZE / 2 - i,
        {
            let ghost entry = *self;
            let connection = boundary[i];
            let child_x = 2 * i;
            if connection.blocked {
                let ca = GridCoords { x: child_x, y };
                let cb = GridCoords { x: child_x + 1, y };
                let cur_a = self.get_conn_at(ca, direction);
                self.set_conn_at(ca, direction, Connection { blocked: true, ..cur_a });
                let cur_b = self.get_conn_at(cb, direction);
                self.set_conn_at(cb, direction, Connection { blocked: true, ..cur_b });
                proof {
                    assert forall|j: int| 0 <= j < 2 * (i + 1) implies #[trigger] self.conn_xy(
                        j,
                        y as int,
                        direction,
                    ) == split_of(
                        boundary@[j / 2],
                        pre.conn_xy(j, y as int, direction),
                        j % 2,
                    ) by {
                        let cj = GridCoords { x: j as usize, y };
                        assert(self.conn_xy(j, y as int, direction) == self.conn(cj, direction));
                        assert(pre.conn_xy(j, y as int, direction) == pre.conn(cj, direction));
                        if j == 2 * i {
                            assert(cj == ca);
                            assert(entry.conn(ca, direction) == pre.conn(ca, direction));
                        } else if j == 2 * i + 1 {
                            assert(cj == cb);
                            assert(entry.conn(cb, direction) == pre.conn(cb, direction));
                        } else {
                            assert(self.conn(cj, direction) == entry.conn(cj, direction));
                            assert(entry.conn_xy(j, y as int, direction) == entry.conn(
                                cj,
                                direction,
                            ));
                        }
                    }
                }
            } else {
                // The lowest split bit decides where exactly the open edge
                // lands; the rest of the bits travel with it for the next
                // halving.
                let split_bit = (connection.split_bits & 1) as usize;
                proof {
                    let sb = connection.split_bits;
                    assert(sb & 1 < 2) by (bit_vector);
                }
                let other_half = 1 - split_bit;
                let remaining_bits = connection.split_bits >> 1u16;
                let cs = GridCoords { x: child_x + split_bit, y };
                let co = GridCoords { x: child_x + other_half, y };
                let prior = self.get_conn_at(cs, direction);
                self.set_conn_at(
                    cs,
                    direction,
                    Connection {
                        connected: connection.connected,
                        blocked: prior.blocked,
                        is_solution_connection: connection.is_solution_connection,
                        is_maze_exit: connection.is_maze_exit,
                        split_bits: remaining_bits,
                    },
                );
                self.set_conn_at(co, direction, Connection::new());
                proof {
                    assert forall|j: int| 0 <= j < 2 * (i + 1) implies #[trigger] self.conn_xy(
                        j,
                        y as int,
                        direction,
                    ) == split_of(
                        boundary@[j / 2],
                        pre.conn_xy(j, y as int, direction),
                        j % 2,
                    ) by {
                        let cj = GridCoords { x: j as usize, y };
                        assert(self.conn_xy(j, y as int, direction) == self.conn(cj, direction));
                        assert(pre.conn_xy(j, y as int, direction) == pre.conn(cj, direction));
                        if j == 2 * i + split_bit {
                            assert(cj == cs);
                            assert(j % 2 == split_bit as int);
                            assert(entry.conn(cs, direction) == pre.conn(cs, direction));
                        } else if j == 2 * i + other_half {
                            assert(cj == co);
                            assert(j % 2 == other_half as int);
                        } else {
                            assert(self.conn(cj, direction) == entry.conn(cj, direction));
                            assert(entry.conn_xy(j, y as int, direction) == entry.conn(
                                cj,
                                direction,
                            ));
                        }
                    }
                }
            }
            i += 1;
        }
    }

    /// Install one half-length parent seam onto the boundary column at `x`,
    /// doubling its resolution.
    fn set_vertical_boundary(&mut self, x: usize, boundary: &[Connection], direction: Direction)
        requires
            old(self).wf(),
            x < GRID_SIZE,
            boundary@.len() == GRID_SIZE / 2,
        ensures
            final(self).wf(),
            forall|y: int|
                0 <= y < GRID_SIZE ==> #[trigger] final(self).conn_xy(x as int, y, direction)
                    == split_of(boundary@[y / 2], old(self).conn_xy(x as int, y, direction), y % 2),
            forall|c2: GridCoords, d2: Direction|
                c2.in_grid() && !(d2 == direction && c2.x == x) ==> #[trigger] final(self).conn(
                    c2,
                    d2,
                ) == old(self).conn(c2, d2),
    {
        let ghost pre = *self;
        let mut i: usize = 0;
        while i < GRID_SIZE / 2
            invariant
                pre.wf(),
                self.wf(),
                x < GRID_SIZE,
                boundary@.len() == GRID_SIZE / 2,
                i <= GRID_SIZE / 2,
                forall|y: int|
                    0 <= y < 2 * i ==> #[trigger] self.conn_xy(x as int, y, direction) == split_of(
                        boundary@[y / 2],
                        pre.conn_xy(x as int, y, direction),
                        y % 2,
                    ),
                forall|c2: GridCoords, d2: Direction|
                    c2.in_grid() && !(d2 == direction && c2.x == x && c2.y < 2 * i)
                        ==> #[trigger] self.conn(c2, d2) == pre.conn(c2, d2),
            decreases GRID_SIZE / 2 - i,
        {
            let ghost entry = *self;
            let connection = boundary[i];
            let child_y = 2 * i;
            if connection.blocked {
                let ca = GridCoords { x, y: child_y };
                let cb = GridCoords { x, y: child_y + 1 };
                let cur_a = self.get_conn_at(ca, direction);
                self.set_conn_at(ca, direction, Connection { blocked: true, ..cur_a });
                let cur_b = self.get_conn_at(cb, direction);
                self.set_conn_at(cb, direction, Connection { blocked: true, ..cur_b });
                proof {
                    assert forall|j: int| 0 <= j < 2 * (i + 1) implies #[trigger] self.conn_xy(
                        x as int,
                        j,
                        direction,
                    ) == split_of(
                        boundary@[j / 2],
                        pre.conn_xy(x as int, j, direction),
                        j % 2,
                    ) by {
                        let cj = GridCoords { x, y: j as usize };
                        assert(self.conn_xy(x as int, j, direction) == self.conn(cj, direction));
                        assert(pre.conn_xy(x as int, j, direction) == pre.conn(cj, direction));
                        if j == 2 * i {
                            assert(cj == ca);
                            assert(entry.conn(ca, direction) == pre.conn(ca, direction));
                        } else if j == 2 * i + 1 {
                            assert(cj == cb);
                            assert(entry.conn(cb, direction) == pre.conn(cb, direction));
                        } else {
                            assert(self.conn(cj, direction) == entry.conn(cj, direction));
                            assert(entry.conn_xy(x as int, j, direction) == entry.conn(
                                cj,
                                direction,
                            ));
                        }
                    }
                }
            } else {
                let split_bit = (connection.split_bits & 1) as usize;
                proof {
                    let sb = connection.split_bits;
                    assert(sb & 1 < 2) by (bit_vector);
                }
                let other_half = 1 - split_bit;
                let remaining_bits = connection.split_bits >> 1u16;
                let cs = GridCoords { x, y: child_y + split_bit };
                let co = GridCoords { x, y: child_y + other_half };
                let prior = self.get_conn_at(cs, direction);
                self.set_conn_at(
                    cs,
                    direction,
                    Connection {
                        connected: connection.connected,
                        blocked: prior.blocked,
                        is_solution_connection: connection.is_solution_connection,
                        is_maze_exit: connection.is_maze_exit,
                        split_bits: remaining_bits,
                    },
                );
                self.set_conn_at(co, direction, Connection::new());
                proof {
                    assert forall|j: int| 0 <= j < 2 * (i + 1) implies #[trigger] self.conn_xy(
                        x as int,
                        j,
                        direction,
                    ) == split_of(
                        boundary@[j / 2],
                        pre.conn_xy(x as int, j, direction),
                        j % 2,
                    ) by {
                        let cj = GridCoords { x, y: j as usize };
                        assert(self.conn_xy(x as int, j, direction) == self.conn(cj, direction));
                        assert(pre.conn_xy(x as int, j, direction) == pre.conn(cj, direction));
                        if j == 2 * i + split_bit {
                            assert(cj == cs);
                            assert(j % 2 == split_bit as int);
                            assert(entry.conn(cs, direction) == pre.conn(cs, direction));
                        } else if j == 2 * i + other_half {
                            assert(cj == co);
                            assert(j % 2 == other_half as int);
                        } else {
                            assert(self.conn(cj, direction) == entry.conn(cj, direction));
                            assert(entry.conn_xy(x as int, j, direction) == entry.conn(
                                cj,
                                direction,
                            ));
                        }
                    }
                }
            }
            i += 1;
        }
    }

    /// Install four half-length parent seams onto the four outer sides of
    /// this grid at double resolution.
    pub fn set_boundary(
        &mut self,
        right: &[Connection],
        top: &[Connection],
        left: &[Connection],
        bottom: &[Connection],
    )
        requires
            old(self).wf(),
            right@.len() == GRID_SIZE / 2,
            top@.len() == GRID_SIZE / 2,
            left@.len() == GRID_SIZE / 2,
            bottom@.len() == GRID_SIZE / 2,
        ensures
            final(self).wf(),
            forall|x: int|
                0 <= x < GRID_SIZE ==> #[trigger] final(self).conn_xy(x, 0, Direction::Down)
                    == split_of(bottom@[x / 2], old(self).conn_xy(x, 0, Direction::Down), x % 2),
            forall|x: int|
                0 <= x < GRID_SIZE ==> #[trigger] final(self).conn_xy(
                    x,
                    GRID_SIZE - 1,
                    Direction::Up,
                ) == split_of(
                    top@[x / 2],
                    old(self).conn_xy(x, GRID_SIZE - 1, Direction::Up),
                    x % 2,
                ),
            forall|y: int|
                0 <= y < GRID_SIZE ==> #[trigger] final(self).conn_xy(0, y, Direction::Left)
                    == split_of(left@[y / 2], old(self).conn_xy(0, y, Direction::Left), y % 2),
            forall|y: int|
                0 <= y < GRID_SIZE ==> #[trigger] final(self).conn_xy(
                    GRID_SIZE - 1,
                    y,
                    Direction::Right,
                ) == split_of(
                    right@[y / 2],
                    old(self).conn_xy(GRID_SIZE - 1, y, Direction::Right),
                    y % 2,
                ),
            forall|c2: GridCoords, d2: Direction|
                c2.in_grid() && !boundary_facing(c2, d2) ==> #[trigger] final(self).conn(c2, d2)
                    == old(self).conn(c2, d2),
    {
        let ghost g0 = *self;
        self.set_horizontal_boundary(0, bottom, Direction::Down);
        let ghost g1 = *self;
        self.set_horizontal_boundary(GRID_SIZE - 1, top, Direction::Up);
        let ghost g2 = *self;
        self.set_vertical_boundary(0, left, Direction::Left);
        let ghost g3 = *self;
        self.set_vertical_boundary(GRID_SIZE - 1, right, Direction::Right);
        proof {
            assert forall|x: int| 0 <= x < GRID_SIZE implies #[trigger] self.conn_xy(
                x,
                0,
                Direction::Down,
            ) == split_of(bottom@[x / 2], g0.conn_xy(x, 0, Direction::Down), x % 2) by {
                let c = GridCoords { x: x as usize, y: 0 };
                assert(g1.conn_xy(x, 0, Direction::Down) == g1.conn(c, Direction::Down));
                assert(g2.conn(c, Direction::Down) == g1.conn(c, Direction::Down));
                assert(g3.conn(c, Direction::Down) == g2.conn(c, Direction::Down));
                assert(self.conn(c, Direction::Down) == g3.conn(c, Direction::Down));
                assert(self.conn_xy(x, 0, Direction::Down) == self.conn(c, Direction::Down));
            }
            assert forall|x: int| 0 <= x < GRID_SIZE implies #[trigger] self.conn_xy(
                x,
                GRID_SIZE - 1,
                Direction::Up,
            ) == split_of(top@[x / 2], g0.conn_xy(x, GRID_SIZE - 1, Direction::Up), x % 2) by {
                let c = GridCoords { x: x as usize, y: (GRID_SIZE - 1) as usize };
                assert(g1.conn(c, Direction::Up) == g0.conn(c, Direction::Up));
                assert(g1.conn_xy(x, GRID_SIZE - 1, Direction::Up) == g1.conn(c, Direction::Up));
                assert(g2.conn_xy(x, GRID_SIZE - 1, Direction::Up) == g2.conn(c, Direction::Up));
                assert(g3.conn(c, Direction::Up) == g2.conn(c, Direction::Up));
                assert(self.conn(c, Direction::Up) == g3.conn(c, Direction::Up));
                assert(self.conn_xy(x, GRID_SIZE - 1, Direction::Up) == self.conn(
                    c,
                    Direction::Up,
                ));
            }
            assert forall|y: int| 0 <= y < GRID_SIZE implies #[trigger] self.conn_xy(
                0,
                y,
                Direction::Left,
            ) == split_of(left@[y / 2], g0.conn_xy(0, y, Direction::Left), y % 2) by {
                let c = GridCoords { x: 0, y: y as usize };
                assert(g1.conn(c, Direction::Left) == g0.conn(c, Direction::Left));
                assert(g2.conn(c, Direction::Left) == g1.conn(c, Direction::Left));
                assert(self.conn(c, Direction::Left) == g3.conn(c, Direction::Left));
                assert(g2.conn_xy(0, y, Direction::Left) == g2.conn(c, Direction::Left));
                assert(g3.conn_xy(0, y, Direction::Left) == g3.conn(c, Direction::Left));
                assert(self.conn_xy(0, y, Direction::Left) == self.conn(c, Direction::Left));
            }
            assert forall|y: int| 0 <= y < GRID_SIZE implies #[trigger] self.conn_xy(
                GRID_SIZE - 1,
                y,
                Direction::Right,
            ) == split_of(right@[y / 2], g0.conn_xy(GRID_SIZE - 1, y, Direction::Right), y % 2) by {
                let c = GridCoords { x: (GRID_SIZE - 1) as usize, y: y as usize };
                assert(g1.conn(c, Direction::Right) == g0.conn(c, Direction::Right));
                assert(g2.conn(c, Direction::Right) == g1.conn(c, Direction::Right));
                assert(g3.conn(c, Direction::Right) == g2.conn(c, Direction::Right));
                assert(g3.conn_xy(GRID_SIZE - 1, y, Direction::Right) == g3.conn(
                    c,
                    Direction::Right,
                ));
                assert(self.conn_xy(GRID_SIZE - 1, y, Direction::Right) == self.conn(
                    c,
                    Direction::Right,
                ));
            }
            assert forall|c2: GridCoords, d2: Direction|
                c2.in_grid() && !boundary_facing(c2, d2) implies #[trigger] self.conn(c2, d2)
                == g0.conn(c2, d2) by {
                assert(g1.conn(c2, d2) == g0.conn(c2, d2));
                assert(g2.conn(c2, d2) == g1.conn(c2, d2));
                assert(g3.conn(c2, d2) == g2.conn(c2, d2));
                assert(self.conn(c2, d2) == g3.conn(c2, d2));
            }
        }
    }

    /// The byte of the serialized image at offset `j`: one RGB triple per
    /// cell in row-major order, red holding the connection nibble, green the
    /// solution nibble, blue reserved zero.
    pub open spec fn image_byte(self, j: int) -> int {
        let cell = self.cells@[j / 3];
        if j % 3 == 0 {
            cell.connection_bits()
        } else if j % 3 == 1 {
            cell.solution_bits()
        } else {
            0
        }
    }

    /// The serialized image as one byte sequence.
    pub open spec fn image_bytes_spec(self) -> Seq<u8> {
        Seq::new((3 * CELL_COUNT) as nat, |j: int| self.image_byte(j) as u8)
    }

    /// Serialize the grid as a row-major byte array, one RGB triple per cell.
    pub fn to_image_bytes(&self) -> (r: Vec<u8>)
        requires
            self.wf(),
        ensures
            r@.len() == 3 * CELL_COUNT,
            forall|j: int| 0 <= j < 3 * CELL_COUNT ==> #[trigger] r@[j] == self.image_byte(j),
            r@ == self.image_bytes_spec(),
    {
        let mut result: Vec<u8> = Vec::new();
        let mut i: usize = 0;
        while i < CELL_COUNT
            invariant
                self.wf(),
                i <= CELL_COUNT,
                result@.len() == 3 * i,
                forall|j: int| 0 <= j < 3 * i ==> #[trigger] result@[j] == self.image_byte(j),
            decreases CELL_COUNT - i,
        {
            let cell = self.cells[i];
            result.push(cell.get_connection_bits());
            result.push(cell.get_solution_bits());
            result.push(0);
            proof {
                assert((3 * i as int) / 3 == i && (3 * i as int) % 3 == 0);
                assert((3 * i as int + 1) / 3 == i && (3 * i as int + 1) % 3 == 1);
                assert((3 * i as int + 2) / 3 == i && (3 * i as int + 2) % 3 == 2);
            }
            i += 1;
        }
        proof {
            assert forall|j: int| 0 <= j < 3 * CELL_COUNT implies result@[j]
                == self.image_bytes_spec()[j] by {
                assert(result@[j] == self.image_byte(j));
            }
            assert(result@ =~= self.image_bytes_spec());
        }
        result
    }

    /// The image bytes with every nibble shifted into the high bits of its
    /// byte, for a higher-contrast debug rendering.
    pub fn to_debug_image_bytes(&self) -> (r: Vec<u8>)
        requires
            self.wf(),
        ensures
            r@.len() == 3 * CELL_COUNT,
            forall|j: int|
                0 <= j < 3 * CELL_COUNT ==> #[trigger] r@[j] == 16 * self.image_byte(j),
    {
        let mut image_bytes = self.to_image_bytes();
        let mut i: usize = 0;
        while i < image_bytes.len()
            invariant
                self.wf(),
                image_bytes@.len() == 3 * CELL_COUNT,
                i <= 3 * CELL_COUNT,
                forall|j: int|
                    i <= j < 3 * CELL_COUNT ==> #[trigger] image_bytes@[j] == self.image_byte(j),
                forall|j: int|
                    0 <= j < i ==> #[trigger] image_bytes@[j] == 16 * self.image_byte(j),
            decreases 3 * CELL_COUNT - i,
        {
            let b = image_bytes[i];
            proof {
                assert(Cell::connection_bits(self.cells@[i as int / 3]) < 16);
                assert(Cell::solution_bits(self.cells@[i as int / 3]) < 16);
                assert(b < 16 ==> (b << 4u32) == 16 * b) by (bit_vector);
            }
            image_bytes[i] = b << 4u32;
            i += 1;
        }
        image_bytes
    }
}

/// Every direction the exit scan of a cell lists is exit-like there.
pub proof fn lemma_exit_directions_sound(cell: Cell, j: int)
    requires
        0 <= j < exit_directions_seq(cell).len(),
    ensures
        cell.conn(exit_directions_seq(cell)[j]).exit_like(),
{
    let l0: int = if cell.right.exit_like() {
        1
    } else {
        0
    };
    let l1: int = if cell.up.exit_like() {
        1
    } else {
        0
    };
    let l2: int = if cell.left.exit_like() {
        1
    } else {
        0
    };
    let s = exit_directions_seq(cell);
    if j < l0 {
        assert(s[j] == Direction::Right);
    } else if j < l0 + l1 {
        assert(s[j] == Direction::Up);
    } else if j < l0 + l1 + l2 {
        assert(s[j] == Direction::Left);
    } else {
        assert(s[j] == Direction::Down);
    }
}

/// The exit scan of a cell misses nothing: every exit-like direction
/// appears in it.
pub proof fn lemma_exit_directions_complete(cell: Cell, d: Direction)
    requires
        cell.conn(d).exit_like(),
    ensures
        exit_directions_seq(cell).contains(d),
{
    let l0: int = if cell.right.exit_like() {
        1
    } else {
        0
    };
    let l1: int = if cell.up.exit_like() {
        1
    } else {
        0
    };
    let l2: int = if cell.left.exit_like() {
        1
    } else {
        0
    };
    let s = exit_directions_seq(cell);
    match d {
        Direction::Right => {
            assert(s[0] == d);
        },
        Direction::Up => {
            assert(s[l0] == d);
        },
        Direction::Left => {
            assert(s[l0 + l1] == d);
        },
        Direction::Down => {
            assert(s[l0 + l1 + l2] == d);
        },
    }
}

/// Two grids whose boundary records agree below index `i` scan to the same
/// exit entries there.
proof fn lemma_same_boundary_exits_up_to(g1: Grid, g2: Grid, i: int)
    requires
        0 <= i <= GRID_SIZE,
        forall|c: GridCoords, d: Direction|
            boundary_facing(c, d) ==> #[trigger] g1.conn(c, d) == g2.conn(c, d),
    ensures
        g1.exits_up_to(i) == g2.exits_up_to(i),
    decreases i,
{
    if i > 0 {
        lemma_same_boundary_exits_up_to(g1, g2, i - 1);
        let j = i - 1;
        let cb = GridCoords { x: j as usize, y: 0 };
        let ct = GridCoords { x: j as usize, y: (GRID_SIZE - 1) as usize };
        let cl = GridCoords { x: 0, y: j as usize };
        let cr = GridCoords { x: (GRID_SIZE - 1) as usize, y: j as usize };
        assert(g1.conn_xy(j, 0, Direction::Down) == g1.conn(cb, Direction::Down));
        assert(g2.conn_xy(j, 0, Direction::Down) == g2.conn(cb, Direction::Down));
        assert(g1.conn_xy(j, GRID_SIZE - 1, Direction::Up) == g1.conn(ct, Direction::Up));
        assert(g2.conn_xy(j, GRID_SIZE - 1, Direction::Up) == g2.conn(ct, Direction::Up));
        assert(g1.conn_xy(0, j, Direction::Left) == g1.conn(cl, Direction::Left));
        assert(g2.conn_xy(0, j, Direction::Left) == g2.conn(cl, Direction::Left));
        assert(g1.conn_xy(GRID_SIZE - 1, j, Direction::Right) == g1.conn(cr, Direction::Right));
        assert(g2.conn_xy(GRID_SIZE - 1, j, Direction::Right) == g2.conn(cr, Direction::Right));
        assert(boundary_facing(cb, Direction::Down) && boundary_facing(ct, Direction::Up)
            && boundary_facing(cl, Direction::Left) && boundary_facing(cr, Direction::Right));
        assert(g1.exits_at_index(j) == g2.exits_at_index(j));
    }
}

/// Two grids whose boundary records agree report the same perimeter exits.
pub proof fn lemma_same_boundary_same_exits(g1: Grid, g2: Grid)
    requires
        forall|c: GridCoords, d: Direction|
            boundary_facing(c, d) ==> #[trigger] g1.conn(c, d) == g2.conn(c, d),
    ensures
        g1.all_exits() == g2.all_exits(),
{
    lemma_same_boundary_exits_up_to(g1, g2, GRID_SIZE as int);
}

/// Every exit-like boundary edge found below index `i` names an in-grid cell.
#[verifier::rlimit(60)]
proof fn lemma_exits_up_to_in_grid(g: Grid, i: int)
    requires
        0 <= i <= GRID_SIZE,
    ensures
        forall|j: int|
            0 <= j < g.exits_up_to(i).len() ==> (#[trigger] g.exits_up_to(i)[j]).0.in_grid(),
    decreases i,
{
    if i > 0 {
        lemma_exits_up_to_in_grid(g, i - 1);
        assert forall|j: int| 0 <= j < g.exits_up_to(i).len() implies (#[trigger] g.exits_up_to(
            i,
        )[j]).0.in_grid() by {
            if j < g.exits_up_to(i - 1).len() {
                assert(g.exits_up_to(i)[j] == g.exits_up_to(i - 1)[j]);
            } else {
                assert(g.exits_up_to(i)[j] == g.exits_at_index(i - 1)[j - g.exits_up_to(
                    i - 1,
                ).len()]);
            }
        }
    }
}

/// Every entry that the perimeter scan reports names an in-grid cell.
pub proof fn lemma_all_exits_in_grid(g: Grid)
    ensures
        forall|j: int|
            0 <= j < g.all_exits().len() ==> (#[trigger] g.all_exits()[j]).0.in_grid(),
{
    lemma_exits_up_to_in_grid(g, GRID_SIZE as int);
}

/// A parent interior vertical wall (an unconnected right-facing edge strictly
/// inside the quadrant with origin `(xs, ys)`) implies, at double resolution,
/// a blocked edge at child position `(cx, cy)` in direction `d`. Vertical
/// walls land on the child's interior right- and left-facing edges.
pub open spec fn vwall_blocks(parent: Grid, xs: int, ys: int, cx: int, cy: int, d: Direction) -> bool {
    match d {
        Direction::Right => cx % 2 == 1 && cx < GRID_SIZE - 1 && !parent.conn_xy(
            xs + (cx - 1) / 2,
            ys + cy / 2,
            Direction::Right,
        ).connected,
        Direction::Left => cx % 2 == 0 && cx >= 2 && !parent.conn_xy(
            xs + (cx - 2) / 2,
            ys + cy / 2,
            Direction::Right,
        ).connected,
        _ => false,
    }
}

/// The horizontal-wall counterpart of `vwall_blocks`: a parent interior
/// horizontal wall lands on the child's interior up- and down-facing edges.
pub open spec fn hwall_blocks(parent: Grid, xs: int, ys: int, cx: int, cy: int, d: Direction) -> bool {
    match d {
        Direction::Up => cy % 2 == 1 && cy < GRID_SIZE - 1 && !parent.conn_xy(
            xs + cx / 2,
            ys + (cy - 1) / 2,
            Direction::Up,
        ).connected,
        Direction::Down => cy % 2 == 0 && cy >= 2 && !parent.conn_xy(
            xs + cx / 2,
            ys + (cy - 2) / 2,
            Direction::Up,
        ).connected,
        _ => false,
    }
}

/// A parent interior wall of either orientation implies a blocked child edge
/// at `(cx, cy)` in direction `d`.
pub open spec fn wall_blocks(parent: Grid, xs: int, ys: int, cx: int, cy: int, d: Direction) -> bool {
    vwall_blocks(parent, xs, ys, cx, cy, d) || hwall_blocks(parent, xs, ys, cx, cy, d)
}

/// The parent cell whose right-facing edge doubles onto the child edge at
/// `(cx, _)` in direction `d` (for the vertical-wall pass).
spec fn vwall_parent_x(xs: int, cx: int, d: Direction) -> int {
    match d {
        Direction::Right => xs + (cx - 1) / 2,
        _ => xs + (cx - 2) / 2,
    }
}

/// During the vertical-wall pass, the parent column/row pair of the child
/// edge has already been visited when the scan stands at `(xc, yc)`.
spec fn vwall_processed(xs: int, ys: int, cx: int, cy: int, d: Direction, xc: int, yc: int) -> bool {
    let px = vwall_parent_x(xs, cx, d);
    let py = ys + cy / 2;
    py < yc || (py == yc && px < xc)
}

/// The parent cell whose up-facing edge doubles onto the child edge at
/// `(_, cy)` in direction `d` (for the horizontal-wall pass).
spec fn hwall_parent_y(ys: int, cy: int, d: Direction) -> int {
    match d {
        Direction::Up => ys + (cy - 1) / 2,
        _ => ys + (cy - 2) / 2,
    }
}

/// During the horizontal-wall pass, the parent pair of the child edge has
/// already been visited when the scan stands at `(xc, yc)`.
spec fn hwall_processed(xs: int, ys: int, cx: int, cy: int, d: Direction, xc: int, yc: int) -> bool {
    let px = xs + cx / 2;
    let py = hwall_parent_y(ys, cy, d);
    py < yc || (py == yc && px < xc)
}

impl Grid {
    /// Double every interior vertical parent wall of the quadrant with origin
    /// `(xs, ys)` into two blocked right/left edge pairs of the child.
    fn propagate_vertical_walls(&self, child: &mut Self, xs: usize, ys: usize)
        requires
            self.wf(),
            old(child).wf(),
            xs == 0 || xs == GRID_SIZE / 2,
            ys == 0 || ys == GRID_SIZE / 2,
        ensures
            final(child).wf(),
            forall|c: GridCoords, d: Direction|
                c.in_grid() ==> #[trigger] final(child).conn(c, d) == (if vwall_blocks(
                    *self,
                    xs as int,
                    ys as int,
                    c.x as int,
                    c.y as int,
                    d,
                ) {
                    old(child).conn(c, d).with_blocked()
                } else {
                    old(child).conn(c, d)
                }),
    {
        let ghost pre = *child;
        let half = GRID_SIZE / 2;
        let mut y: usize = ys;
        while y < ys + half
            invariant
                self.wf(),
                child.wf(),
                pre.wf(),
                xs == 0 || xs == GRID_SIZE / 2,
                ys == 0 || ys == GRID_SIZE / 2,
                half == GRID_SIZE / 2,
                ys <= y <= ys + half,
                forall|c: GridCoords, d: Direction|
                    c.in_grid() ==> #[trigger] child.conn(c, d) == (if vwall_blocks(
                        *self,
                        xs as int,
                        ys as int,
                        c.x as int,
                        c.y as int,
                        d,
                    ) && vwall_processed(
                        xs as int,
                        ys as int,
                        c.x as int,
                        c.y as int,
                        d,
                        xs as int,
                        y as int,
                    ) {
                        pre.conn(c, d).with_blocked()
                    } else {
                        pre.conn(c, d)
                    }),
            decreases ys + half - y,
        {
            let mut x: usize = xs;
            while x < xs + half - 1
                invariant
                    self.wf(),
                    child.wf(),
                    pre.wf(),
                    xs == 0 || xs == GRID_SIZE / 2,
                    ys == 0 || ys == GRID_SIZE / 2,
                    half == GRID_SIZE / 2,
                    ys <= y < ys + half,
                    xs <= x <= xs + half - 1,
                    forall|c: GridCoords, d: Direction|
                        c.in_grid() ==> #[trigger] child.conn(c, d) == (if vwall_blocks(
                            *self,
                            xs as int,
                            ys as int,
                            c.x as int,
                            c.y as int,
                            d,
                        ) && vwall_processed(
                            xs as int,
                            ys as int,
                            c.x as int,
                            c.y as int,
                            d,
                            x as int,
                            y as int,
                        ) {
                            pre.conn(c, d).with_blocked()
                        } else {
                            pre.conn(c, d)
                        }),
                decreases xs + half - 1 - x,
            {
                let ghost entry = *child;
                let parent_right = self.get_conn_at(GridCoords { x, y }, Direction::Right);
                // Every parent edge that is not an open passage doubles into a
                // blocked wall on both sides in the child.
                if !parent_right.connected {
                    let child_x = 2 * (x - xs) + 1;
                    let child_y = 2 * (y - ys);
                    let r0 = GridCoords { x: child_x, y: child_y };
                    let r1 = GridCoords { x: child_x, y: child_y + 1 };
                    let l0 = GridCoords { x: child_x + 1, y: child_y };
                    let l1 = GridCoords { x: child_x + 1, y: child_y + 1 };
                    let cur_r0 = child.get_conn_at(r0, Direction::Right);
                    child.set_conn_at(r0, Direction::Right, Connection { blocked: true, ..cur_r0 });
                    let cur_r1 = child.get_conn_at(r1, Direction::Right);
                    child.set_conn_at(r1, Direction::Right, Connection { blocked: true, ..cur_r1 });
                    let cur_l0 = child.get_conn_at(l0, Direction::Left);
                    child.set_conn_at(l0, Direction::Left, Connection { blocked: true, ..cur_l0 });
                    let cur_l1 = child.get_conn_at(l1, Direction::Left);
                    child.set_conn_at(l1, Direction::Left, Connection { blocked: true, ..cur_l1 });
                    proof {
                        lemma_vwall_step(*self, pre, entry, *child, xs as int, ys as int, x as int, y as int);
                    }
                } else {
                    proof {
                        lemma_vwall_skip(*self, pre, *child, xs as int, ys as int, x as int, y as int);
                    }
                }
                x += 1;
            }
            proof {
                assert forall|c: GridCoords, d: Direction| c.in_grid() implies #[trigger] child.conn(
                    c,
                    d,
                ) == (if vwall_blocks(*self, xs as int, ys as int, c.x as int, c.y as int, d)
                    && vwall_processed(
                    xs as int,
                    ys as int,
                    c.x as int,
                    c.y as int,
                    d,
                    xs as int,
                    y as int + 1,
                ) {
                    pre.conn(c, d).with_blocked()
                } else {
                    pre.conn(c, d)
                }) by {
                    if vwall_blocks(*self, xs as int, ys as int, c.x as int, c.y as int, d) {
                        assert(vwall_parent_x(xs as int, c.x as int, d) < xs + half - 1);
                    }
                }
            }
            y += 1;
        }
    }

    /// Double every interior horizontal parent wall of the quadrant with
    /// origin `(xs, ys)` into two blocked up/down edge pairs of the child.
    fn propagate_horizontal_walls(&self, child: &mut Self, xs: usize, ys: usize)
        requires
            self.wf(),
            old(child).wf(),
            xs == 0 || xs == GRID_SIZE / 2,
            ys == 0 || ys == GRID_SIZE / 2,
        ensures
            final(child).wf(),
            forall|c: GridCoords, d: Direction|
                c.in_grid() ==> #[trigger] final(child).conn(c, d) == (if hwall_blocks(
                    *self,
                    xs as int,
                    ys as int,
                    c.x as int,
                    c.y as int,
                    d,
                ) {
                    old(child).conn(c, d).with_blocked()
                } else {
                    old(child).conn(c, d)
                }),
    {
        let ghost pre = *child;
        let half = GRID_SIZE / 2;
        let mut y: usize = ys;
        while y < ys + half - 1
            invariant
                self.wf(),
                child.wf(),
                pre.wf(),
                xs == 0 || xs == GRID_SIZE / 2,
                ys == 0 || ys == GRID_SIZE / 2,
                half == GRID_SIZE / 2,
                ys <= y <= ys + half - 1,
                forall|c: GridCoords, d: Direction|
                    c.in_grid() ==> #[trigger] child.conn(c, d) == (if hwall_blocks(
                        *self,
                        xs as int,
                        ys as int,
                        c.x as int,
                        c.y as int,
                        d,
                    ) && hwall_processed(
                        xs as int,
                        ys as int,
                        c.x as int,
                        c.y as int,
                        d,
                        xs as int,
                        y as int,
                    ) {
                        pre.conn(c, d).with_blocked()
                    } else {
                        pre.conn(c, d)
                    }),
            decreases ys + half - 1 - y,
        {
            let mut x: usize = xs;
            while x < xs + half
                invariant
                    self.wf(),
                    child.wf(),
                    pre.wf(),
                    xs == 0 || xs == GRID_SIZE / 2,
                    ys == 0 || ys == GRID_SIZE / 2,
                    half == GRID_SIZE / 2,
                    ys <= y < ys + half - 1,
                    xs <= x <= xs + half,
                    forall|c: GridCoords, d: Direction|
                        c.in_grid() ==> #[trigger] child.conn(c, d) == (if hwall_blocks(
                            *self,
                            xs as int,
                            ys as int,
                            c.x as int,
                            c.y as int,
                            d,
                        ) && hwall_processed(
                            xs as int,
                            ys as int,
                            c.x as int,
                            c.y as int,
                            d,
                            x as int,
                            y as int,
                        ) {
                            pre.conn(c, d).with_blocked()
                        } else {
                            pre.conn(c, d)
                        }),
                decreases xs + half - x,
            {
                let ghost entry = *child;
                let parent_up = self.get_conn_at(GridCoords { x, y }, Direction::Up);
                if !parent_up.connected {
                    let child_x = 2 * (x - xs);
                    let child_y = 2 * (y - ys) + 1;
                    let u0 = GridCoords { x: child_x, y: child_y };
                    let u1 = GridCoords { x: child_x + 1, y: child_y };
                    let d0 = GridCoords { x: child_x, y: child_y + 1 };
                    let d1 = GridCoords { x: child_x + 1, y: child_y + 1 };
                    let cur_u0 = child.get_conn_at(u0, Direction::Up);
                    child.set_conn_at(u0, Direction::Up, Connection { blocked: true, ..cur_u0 });
                    let cur_u1 = child.get_conn_at(u1, Direction::Up);
                    child.set_conn_at(u1, Direction::Up, Connection { blocked: true, ..cur_u1 });
                    let cur_d0 = child.get_conn_at(d0, Direction::Down);
                    child.set_conn_at(d0, Direction::Down, Connection { blocked: true, ..cur_d0 });
                    let cur_d1 = child.get_conn_at(d1, Direction::Down);
                    child.set_conn_at(d1, Direction::Down, Connection { blocked: true, ..cur_d1 });
                    proof {
                        lemma_hwall_step(*self, pre, entry, *child, xs as int, ys as int, x as int, y as int);
                    }
                } else {
                    proof {
                        lemma_hwall_skip(*self, pre, *child, xs as int, ys as int, x as int, y as int);
                    }
                }
                x += 1;
            }
            proof {
                assert forall|c: GridCoords, d: Direction| c.in_grid() implies #[trigger] child.conn(
                    c,
                    d,
                ) == (if hwall_blocks(*self, xs as int, ys as int, c.x as int, c.y as int, d)
                    && hwall_processed(
                    xs as int,
                    ys as int,
                    c.x as int,
                    c.y as int,
                    d,
                    xs as int,
                    y as int + 1,
                ) {
                    pre.conn(c, d).with_blocked()
                } else {
                    pre.conn(c, d)
                }) by {
                    if hwall_blocks(*self, xs as int, ys as int, c.x as int, c.y as int, d) {
                        assert(xs + c.x as int / 2 < xs + half);
                    }
                }
            }
            y += 1;
        }
    }

    /// For every interior parent wall strictly inside the quadrant delimited
    /// by `x_range` and `y_range`, block both coincident child sub-edges at
    /// double resolution, on both sides of the wall, so that carving can
    /// never open a passage where the parent already fixed a wall.
    pub fn propagate_interior(
        &self,
        child: &mut Self,
        x_range: core::ops::Range<usize>,
        y_range: core::ops::Range<usize>,
    )
        requires
            self.wf(),
            old(child).wf(),
            (x_range.start == 0 || x_range.start == GRID_SIZE / 2) && x_range.end == x_range.start
                + GRID_SIZE / 2,
            (y_range.start == 0 || y_range.start == GRID_SIZE / 2) && y_range.end == y_range.start
                + GRID_SIZE / 2,
        ensures
            final(child).wf(),
            forall|c: GridCoords, d: Direction|
                c.in_grid() ==> #[trigger] final(child).conn(c, d) == (if wall_blocks(
                    *self,
                    x_range.start as int,
                    y_range.start as int,
                    c.x as int,
                    c.y as int,
                    d,
                ) {
                    old(child).conn(c, d).with_blocked()
                } else {
                    old(child).conn(c, d)
                }),
    {
        let ghost pre = *child;
        let xs = x_range.start;
        let ys = y_range.start;
        self.propagate_vertical_walls(child, xs, ys);
        let ghost mid = *child;
        self.propagate_horizontal_walls(child, xs, ys);
        proof {
            assert forall|c: GridCoords, d: Direction| c.in_grid() implies #[trigger] child.conn(
                c,
                d,
            ) == (if wall_blocks(*self, xs as int, ys as int, c.x as int, c.y as int, d) {
                pre.conn(c, d).with_blocked()
            } else {
                pre.conn(c, d)
            }) by {
                assert(mid.conn(c, d) == (if vwall_blocks(
                    *self,
                    xs as int,
                    ys as int,
                    c.x as int,
                    c.y as int,
                    d,
                ) {
                    pre.conn(c, d).with_blocked()
                } else {
                    pre.conn(c, d)
                }));
                assert(child.conn(c, d) == (if hwall_blocks(
                    *self,
                    xs as int,
                    ys as int,
                    c.x as int,
                    c.y as int,
                    d,
                ) {
                    mid.conn(c, d).with_blocked()
                } else {
                    mid.conn(c, d)
                }));
            }
        }
    }
}

/// One step of the vertical-wall pass: after blocking the four child edges
/// that double the parent wall at `(x, y)`, the partial pointwise description
/// advances by one parent cell.
proof fn lemma_vwall_step(
    parent: Grid,
    pre: Grid,
    entry: Grid,
    post: Grid,
    xs: int,
    ys: int,
    x: int,
    y: int,
)
    requires
        parent.wf(),
        pre.wf(),
        entry.wf(),
        post.wf(),
        xs == 0 || xs == GRID_SIZE / 2,
        ys == 0 || ys == GRID_SIZE / 2,
        ys <= y < ys + GRID_SIZE / 2,
        xs <= x < xs + GRID_SIZE / 2 - 1,
        !parent.conn(GridCoords { x: x as usize, y: y as usize }, Direction::Right).connected,
        forall|c: GridCoords, d: Direction|
            c.in_grid() ==> #[trigger] entry.conn(c, d) == (if vwall_blocks(
                parent,
                xs,
                ys,
                c.x as int,
                c.y as int,
                d,
            ) && vwall_processed(xs, ys, c.x as int, c.y as int, d, x, y) {
                pre.conn(c, d).with_blocked()
            } else {
                pre.conn(c, d)
            }),
        ({
            let cx = (2 * ((x - xs)) + 1) as usize;
            let cy = (2 * (y - ys)) as usize;
            let r0 = GridCoords { x: cx, y: cy };
            let r1 = GridCoords { x: cx, y: (cy + 1) as usize };
            let l0 = GridCoords { x: (cx + 1) as usize, y: cy };
            let l1 = GridCoords { x: (cx + 1) as usize, y: (cy + 1) as usize };
            &&& post.conn(r0, Direction::Right) == entry.conn(r0, Direction::Right).with_blocked()
            &&& post.conn(r1, Direction::Right) == entry.conn(r1, Direction::Right).with_blocked()
            &&& post.conn(l0, Direction::Left) == entry.conn(l0, Direction::Left).with_blocked()
            &&& post.conn(l1, Direction::Left) == entry.conn(l1, Direction::Left).with_blocked()
            &&& forall|c: GridCoords, d: Direction|
                c.in_grid() && !(c == r0 && d == Direction::Right) && !(c == r1
                    && d == Direction::Right) && !(c == l0 && d == Direction::Left) && !(c == l1
                    && d == Direction::Left) ==> #[trigger] post.conn(c, d) == entry.conn(c, d)
        }),
    ensures
        forall|c: GridCoords, d: Direction|
            c.in_grid() ==> #[trigger] post.conn(c, d) == (if vwall_blocks(
                parent,
                xs,
                ys,
                c.x as int,
                c.y as int,
                d,
            ) && vwall_processed(xs, ys, c.x as int, c.y as int, d, x + 1, y) {
                pre.conn(c, d).with_blocked()
            } else {
                pre.conn(c, d)
            }),
{
    let cx = (2 * ((x - xs)) + 1) as usize;
    let cy = (2 * (y - ys)) as usize;
    let r0 = GridCoords { x: cx, y: cy };
    let r1 = GridCoords { x: cx, y: (cy + 1) as usize };
    let l0 = GridCoords { x: (cx + 1) as usize, y: cy };
    let l1 = GridCoords { x: (cx + 1) as usize, y: (cy + 1) as usize };
    let pc = GridCoords { x: x as usize, y: y as usize };
    assert(parent.conn_xy(x, y, Direction::Right) == parent.conn(pc, Direction::Right));
    assert forall|c: GridCoords, d: Direction| c.in_grid() implies #[trigger] post.conn(c, d) == (
    if vwall_blocks(parent, xs, ys, c.x as int, c.y as int, d) && vwall_processed(
        xs,
        ys,
        c.x as int,
        c.y as int,
        d,
        x + 1,
        y,
    ) {
        pre.conn(c, d).with_blocked()
    } else {
        pre.conn(c, d)
    }) by {
        let cxi = c.x as int;
        let cyi = c.y as int;
        if (c == r0 && d == Direction::Right) || (c == r1 && d == Direction::Right) || (c == l0
            && d == Direction::Left) || (c == l1 && d == Direction::Left) {
            assert(vwall_blocks(parent, xs, ys, cxi, cyi, d));
            assert(!vwall_processed(xs, ys, cxi, cyi, d, x, y));
            assert(vwall_processed(xs, ys, cxi, cyi, d, x + 1, y));
            assert(entry.conn(c, d) == pre.conn(c, d));
        } else {
            assert(post.conn(c, d) == entry.conn(c, d));
            if vwall_blocks(parent, xs, ys, cxi, cyi, d) {
                let px = vwall_parent_x(xs, cxi, d);
                let py = ys + cyi / 2;
                if px == x && py == y {
                    assert(d == Direction::Right || d == Direction::Left);
                    if d == Direction::Right {
                        assert(cxi == 2 * (x - xs) + 1);
                        assert(cyi == 2 * (y - ys) || cyi == 2 * (y - ys) + 1);
                        assert(c == r0 || c == r1);
                    } else {
                        assert(cxi == 2 * (x - xs) + 2);
                        assert(cyi == 2 * (y - ys) || cyi == 2 * (y - ys) + 1);
                        assert(c == l0 || c == l1);
                    }
                    assert(false);
                }
                assert(vwall_processed(xs, ys, cxi, cyi, d, x + 1, y) == vwall_processed(
                    xs,
                    ys,
                    cxi,
                    cyi,
                    d,
                    x,
                    y,
                ));
            }
        }
    }
}

/// One step of the vertical-wall pass over a parent edge that carries an open
/// passage: nothing is written and the description advances unchanged.
proof fn lemma_vwall_skip(parent: Grid, pre: Grid, post: Grid, xs: int, ys: int, x: int, y: int)
    requires
        parent.wf(),
        pre.wf(),
        post.wf(),
        xs == 0 || xs == GRID_SIZE / 2,
        ys == 0 || ys == GRID_SIZE / 2,
        ys <= y < ys + GRID_SIZE / 2,
        xs <= x < xs + GRID_SIZE / 2 - 1,
        parent.conn(GridCoords { x: x as usize, y: y as usize }, Direction::Right).connected,
        forall|c: GridCoords, d: Direction|
            c.in_grid() ==> #[trigger] post.conn(c, d) == (if vwall_blocks(
                parent,
                xs,
                ys,
                c.x as int,
                c.y as int,
                d,
            ) && vwall_processed(xs, ys, c.x as int, c.y as int, d, x, y) {
                pre.conn(c, d).with_blocked()
            } else {
                pre.conn(c, d)
            }),
    ensures
        forall|c: GridCoords, d: Direction|
            c.in_grid() ==> #[trigger] post.conn(c, d) == (if vwall_blocks(
                parent,
                xs,
                ys,
                c.x as int,
                c.y as int,
                d,
            ) && vwall_processed(xs, ys, c.x as int, c.y as int, d, x + 1, y) {
                pre.conn(c, d).with_blocked()
            } else {
                pre.conn(c, d)
            }),
{
    let pc = GridCoords { x: x as usize, y: y as usize };
    assert(parent.conn_xy(x, y, Direction::Right) == parent.conn(pc, Direction::Right));
    assert forall|c: GridCoords, d: Direction| c.in_grid() implies #[trigger] post.conn(c, d) == (
    if vwall_blocks(parent, xs, ys, c.x as int, c.y as int, d) && vwall_processed(
        xs,
        ys,
        c.x as int,
        c.y as int,
        d,
        x + 1,
        y,
    ) {
        pre.conn(c, d).with_blocked()
    } else {
        pre.conn(c, d)
    }) by {
        let cxi = c.x as int;
        let cyi = c.y as int;
        if vwall_blocks(parent, xs, ys, cxi, cyi, d) {
            let px = vwall_parent_x(xs, cxi, d);
            let py = ys + cyi / 2;
            assert(!(px == x && py == y));
            assert(vwall_processed(xs, ys, cxi, cyi, d, x + 1, y) == vwall_processed(
                xs,
                ys,
                cxi,
                cyi,
                d,
                x,
                y,
            ));
        }
    }
}

/// One step of the horizontal-wall pass: after blocking the four child edges
/// that double the parent wall at `(x, y)`, the partial pointwise description
/// advances by one parent cell.
proof fn lemma_hwall_step(
    parent: Grid,
    pre: Grid,
    entry: Grid,
    post: Grid,
    xs: int,
    ys: int,
    x: int,
    y: int,
)
    requires
        parent.wf(),
        pre.wf(),
        entry.wf(),
        post.wf(),
        xs == 0 || xs == GRID_SIZE / 2,
        ys == 0 || ys == GRID_SIZE / 2,
        ys <= y < ys + GRID_SIZE / 2 - 1,
        xs <= x < xs + GRID_SIZE / 2,
        !parent.conn(GridCoords { x: x as usize, y: y as usize }, Direction::Up).connected,
        forall|c: GridCoords, d: Direction|
            c.in_grid() ==> #[trigger] entry.conn(c, d) == (if hwall_blocks(
                parent,
                xs,
                ys,
                c.x as int,
                c.y as int,
                d,
            ) && hwall_processed(xs, ys, c.x as int, c.y as int, d, x, y) {
                pre.conn(c, d).with_blocked()
            } else {
                pre.conn(c, d)
            }),
        ({
            let cx = (2 * (x - xs)) as usize;
            let cy = (2 * (y - ys) + 1) as usize;
            let u0 = GridCoords { x: cx, y: cy };
            let u1 = GridCoords { x: (cx + 1) as usize, y: cy };
            let d0 = GridCoords { x: cx, y: (cy + 1) as usize };
            let d1 = GridCoords { x: (cx + 1) as usize, y: (cy + 1) as usize };
            &&& post.conn(u0, Direction::Up) == entry.conn(u0, Direction::Up).with_blocked()
            &&& post.conn(u1, Direction::Up) == entry.conn(u1, Direction::Up).with_blocked()
            &&& post.conn(d0, Direction::Down) == entry.conn(d0, Direction::Down).with_blocked()
            &&& post.conn(d1, Direction::Down) == entry.conn(d1, Direction::Down).with_blocked()
            &&& forall|c: GridCoords, d: Direction|
                c.in_grid() && !(c == u0 && d == Direction::Up) && !(c == u1 && d == Direction::Up)
                    && !(c == d0 && d == Direction::Down) && !(c == d1 && d == Direction::Down)
                    ==> #[trigger] post.conn(c, d) == entry.conn(c, d)
        }),
    ensures
        forall|c: GridCoords, d: Direction|
            c.in_grid() ==> #[trigger] post.conn(c, d) == (if hwall_blocks(
                parent,
                xs,
                ys,
                c.x as int,
                c.y as int,
                d,
            ) && hwall_processed(xs, ys, c.x as int, c.y as int, d, x + 1, y) {
                pre.conn(c, d).with_blocked()
            } else {
                pre.conn(c, d)
            }),
{
    let cx = (2 * (x - xs)) as usize;
    let cy = (2 * (y - ys) + 1) as usize;
    let u0 = GridCoords { x: cx, y: cy };
    let u1 = GridCoords { x: (cx + 1) as usize, y: cy };
    let d0 = GridCoords { x: cx, y: (cy + 1) as usize };
    let d1 = GridCoords { x: (cx + 1) as usize, y: (cy + 1) as usize };
    let pc = GridCoords { x: x as usize, y: y as usize };
    assert(parent.conn_xy(x, y, Direction::Up) == parent.conn(pc, Direction::Up));
    assert forall|c: GridCoords, d: Direction| c.in_grid() implies #[trigger] post.conn(c, d) == (
    if hwall_blocks(parent, xs, ys, c.x as int, c.y as int, d) && hwall_processed(
        xs,
        ys,
        c.x as int,
        c.y as int,
        d,
        x + 1,
        y,
    ) {
        pre.conn(c, d).with_blocked()
    } else {
        pre.conn(c, d)
    }) by {
        let cxi = c.x as int;
        let cyi = c.y as int;
        if (c == u0 && d == Direction::Up) || (c == u1 && d == Direction::Up) || (c == d0
            && d == Direction::Down) || (c == d1 && d == Direction::Down) {
            assert(hwall_blocks(parent, xs, ys, cxi, cyi, d));
            assert(!hwall_processed(xs, ys, cxi, cyi, d, x, y));
            assert(hwall_processed(xs, ys, cxi, cyi, d, x + 1, y));
            assert(entry.conn(c, d) == pre.conn(c, d));
        } else {
            assert(post.conn(c, d) == entry.conn(c, d));
            if hwall_blocks(parent, xs, ys, cxi, cyi, d) {
                let px = xs + cxi / 2;
                let py = hwall_parent_y(ys, cyi, d);
                if px == x && py == y {
                    assert(d == Direction::Up || d == Direction::Down);
                    if d == Direction::Up {
                        assert(cyi == 2 * (y - ys) + 1);
                        assert(cxi == 2 * (x - xs) || cxi == 2 * (x - xs) + 1);
                        assert(c == u0 || c == u1);
                    } else {
                        assert(cyi == 2 * (y - ys) + 2);
                        assert(cxi == 2 * (x - xs) || cxi == 2 * (x - xs) + 1);
                        assert(c == d0 || c == d1);
                    }
                    assert(false);
                }
                assert(hwall_processed(xs, ys, cxi, cyi, d, x + 1, y) == hwall_processed(
                    xs,
                    ys,
                    cxi,
                    cyi,
                    d,
                    x,
                    y,
                ));
            }
        }
    }
}

/// One step of the horizontal-wall pass over a parent edge that carries an
/// open passage: nothing is written and the description advances unchanged.
proof fn lemma_hwall_skip(parent: Grid, pre: Grid, post: Grid, xs: int, ys: int, x: int, y: int)
    requires
        parent.wf(),
        pre.wf(),
        post.wf(),
        xs == 0 || xs == GRID_SIZE / 2,
        ys == 0 || ys == GRID_SIZE / 2,
        ys <= y < ys + GRID_SIZE / 2 - 1,
        xs <= x < xs + GRID_SIZE / 2,
        parent.conn(GridCoords { x: x as usize, y: y as usize }, Direction::Up).connected,
        forall|c: GridCoords, d: Direction|
            c.in_grid() ==> #[trigger] post.conn(c, d) == (if hwall_blocks(
                parent,
                xs,
                ys,
                c.x as int,
                c.y as int,
                d,
            ) && hwall_processed(xs, ys, c.x as int, c.y as int, d, x, y) {
                pre.conn(c, d).with_blocked()
            } else {
                pre.conn(c, d)
            }),
    ensures
        forall|c: GridCoords, d: Direction|
            c.in_grid() ==> #[trigger] post.conn(c, d) == (if hwall_blocks(
                parent,
                xs,
                ys,
                c.x as int,
                c.y as int,
                d,
            ) && hwall_processed(xs, ys, c.x as int, c.y as int, d, x + 1, y) {
                pre.conn(c, d).with_blocked()
            } else {
                pre.conn(c, d)
            }),
{
    let pc = GridCoords { x: x as usize, y: y as usize };
    assert(parent.conn_xy(x, y, Direction::Up) == parent.conn(pc, Direction::Up));
    assert forall|c: GridCoords, d: Direction| c.in_grid() implies #[trigger] post.conn(c, d) == (
    if hwall_blocks(parent, xs, ys, c.x as int, c.y as int, d) && hwall_processed(
        xs,
        ys,
        c.x as int,
        c.y as int,
        d,
        x + 1,
        y,
    ) {
        pre.conn(c, d).with_blocked()
    } else {
        pre.conn(c, d)
    }) by {
        let cxi = c.x as int;
        let cyi = c.y as int;
        if hwall_blocks(parent, xs, ys, cxi, cyi, d) {
            let px = xs + cxi / 2;
            let py = hwall_parent_y(ys, cyi, d);
            assert(!(px == x && py == y));
            assert(hwall_processed(xs, ys, cxi, cyi, d, x + 1, y) == hwall_processed(
                xs,
                ys,
                cxi,
                cyi,
                d,
                x,
                y,
            ));
        }
    }
}

/// A bool seen as one bit of a packed nibble.
pub open spec fn bit_val(b: bool) -> int {
    if b {
        1
    } else {
        0
    }
}

/// A grid whose cells differ from another's only at the cells of two given
/// coordinates leaves every connection of every third coordinate unchanged.
proof fn lemma_two_edge_update(
    pre: Grid,
    post: Grid,
    a: GridCoords,
    da: Direction,
    b: GridCoords,
    db: Direction,
)
    requires
        pre.wf(),
        post.wf(),
        a.in_grid(),
        b.in_grid(),
        a != b,
        forall|dd: Direction|
            #[trigger] post.conn(a, dd) == (if dd == da {
                post.conn(a, da)
            } else {
                pre.conn(a, dd)
            }),
        forall|dd: Direction|
            #[trigger] post.conn(b, dd) == (if dd == db {
                post.conn(b, db)
            } else {
                pre.conn(b, dd)
            }),
        forall|i: int|
            0 <= i < CELL_COUNT && i != a.idx() && i != b.idx() ==> post.cells@[i]
                == pre.cells@[i],
    ensures
        forall|c: GridCoords, dd: Direction|
            c.in_grid() && !(c == a && dd == da) && !(c == b && dd == db) ==> #[trigger] post.conn(
                c,
                dd,
            ) == pre.conn(c, dd),
{
    assert forall|c: GridCoords, dd: Direction|
        c.in_grid() && !(c == a && dd == da) && !(c == b && dd == db) implies #[trigger] post.conn(
        c,
        dd,
    ) == pre.conn(c, dd) by {
        if c.idx() == a.idx() {
            lemma_idx_injective(c, a);
        } else if c.idx() == b.idx() {
            lemma_idx_injective(c, b);
        }
    }
}

/// Setting the `connected` flag on both facing edges of one adjacent pair
/// preserves the symmetry of the `connected` flags.
proof fn lemma_symmetric_pair_update_connected(
    pre: Grid,
    post: Grid,
    a: GridCoords,
    b: GridCoords,
    d: Direction,
)
    requires
        pre.wf(),
        post.wf(),
        a.in_grid(),
        b.in_grid(),
        GridCoords::dir_between(a, b) == Some(d),
        pre.connection_symmetry(),
        post.conn(a, d).connected,
        post.conn(b, d.opposite()).connected,
        forall|c: GridCoords, dd: Direction|
            c.in_grid() && !(c == a && dd == d) && !(c == b && dd == d.opposite())
                ==> #[trigger] post.conn(c, dd) == pre.conn(c, dd),
    ensures
        post.connection_symmetry(),
{
    lemma_dir_between_stepped(a, b, d);
    assert forall|c: GridCoords, dd: Direction| c.can_step(dd) implies #[trigger] post.conn(
        c,
        dd,
    ).connected == post.conn(c.stepped(dd), dd.opposite()).connected by {
        let m = c.stepped(dd);
        let md = dd.opposite();
        if c == a && dd == d {
            assert(m == b && md == d.opposite());
        } else if c == b && dd == d.opposite() {
            assert(m == a && md == d);
        } else {
            assert(post.conn(c, dd) == pre.conn(c, dd));
            if m == a && md == d {
                assert(c == b && dd == d.opposite());
            } else if m == b && md == d.opposite() {
                assert(c == a && dd == d);
            } else {
                assert(post.conn(m, md) == pre.conn(m, md));
            }
        }
    }
}

/// Setting the solution marker on both facing edges of one adjacent pair
/// preserves the symmetry of the solution markers.
proof fn lemma_symmetric_pair_update_solution(
    pre: Grid,
    post: Grid,
    a: GridCoords,
    b: GridCoords,
    d: Direction,
)
    requires
        pre.wf(),
        post.wf(),
        a.in_grid(),
        b.in_grid(),
        GridCoords::dir_between(a, b) == Some(d),
        pre.solution_symmetry(),
        post.conn(a, d).is_solution_connection,
        post.conn(b, d.opposite()).is_solution_connection,
        forall|c: GridCoords, dd: Direction|
            c.in_grid() && !(c == a && dd == d) && !(c == b && dd == d.opposite())
                ==> #[trigger] post.conn(c, dd) == pre.conn(c, dd),
    ensures
        post.solution_symmetry(),
{
    lemma_dir_between_stepped(a, b, d);
    assert forall|c: GridCoords, dd: Direction| c.can_step(dd) implies #[trigger] post.conn(
        c,
        dd,
    ).is_solution_connection == post.conn(c.stepped(dd), dd.opposite()).is_solution_connection by {
        let m = c.stepped(dd);
        let md = dd.opposite();
        if c == a && dd == d {
            assert(m == b && md == d.opposite());
        } else if c == b && dd == d.opposite() {
            assert(m == a && md == d);
        } else {
            assert(post.conn(c, dd) == pre.conn(c, dd));
            if m == a && md == d {
                assert(c == b && dd == d.opposite());
            } else if m == b && md == d.opposite() {
                assert(c == a && dd == d);
            } else {
                assert(post.conn(m, md) == pre.conn(m, md));
            }
        }
    }
}

/// After any `connect` call on a symmetric grid, the two facing edges of every
/// adjacent pair still report `connected` identically: never one without the
/// other.
pub proof fn lemma_connect_preserves_symmetry(
    pre: Grid,
    post: Grid,
    a: GridCoords,
    b: GridCoords,
)
    requires
        pre.wf(),
        post.wf(),
        a.in_grid(),
        b.in_grid(),
        GridCoords::is_adjacent(a, b),
        pre.connection_symmetry(),
        ({
            let d = GridCoords::dir_between(a, b).unwrap();
            &&& post.conn(a, d) == pre.conn(a, d).with_connected()
            &&& post.conn(b, d.opposite()) == pre.conn(b, d.opposite()).with_connected()
            &&& forall|c: GridCoords, dd: Direction|
                c.in_grid() && !(c == a && dd == d) && !(c == b && dd == d.opposite())
                    ==> #[trigger] post.conn(c, dd) == pre.conn(c, dd)
        }),
    ensures
        post.connection_symmetry(),
{
    let d = GridCoords::dir_between(a, b).unwrap();
    lemma_symmetric_pair_update_connected(pre, post, a, b, d);
}

} // verus!
