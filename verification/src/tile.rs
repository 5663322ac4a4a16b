use vstd::prelude::*;

use crate::dfs::{
    connected_slot_count, interior_unblocked, interior_unconnected, lemma_carving_keeps_boundary,
    lemma_component_count_same_blocked, open_adjacent, open_component_count, reachable_connected,
    wall_symmetric, DFSMaze,
};
use crate::direction::Direction;
use crate::grid::{boundary_facing, exit_coords, split_of, Connection, Grid, CELL_COUNT};
use crate::grid_coords::{GridCoords, GRID_SIZE};
use vstd::arithmetic::power2::{lemma2_to64, lemma_pow2_strictly_increases, lemma_pow2_unfold, pow2};

verus! {

/// Half of the fixed grid resolution: the length of the seam piece a child
/// inherits from its parent.
pub const HALF_GRID_SIZE: usize = GRID_SIZE / 2;

/// Boundary index of the root exit on the bottom side.
pub const ROOT_EXIT_DOWN_INDEX: usize = 3;

/// Boundary index of the root exit on the top side.
pub const ROOT_EXIT_UP_INDEX: usize = 5;

/// One quadtree node: an address `(level, x, y)` plus a complete maze grid at
/// the node's own fixed resolution. Children never retain a reference to
/// their parent; everything they need is copied into their boundary.
pub struct Tile {
    pub level: usize,
    pub x: usize,
    pub y: usize,
    pub grid: Grid,
}

impl Tile {
    /// The quadtree address is valid: the quadrant coordinates fit the
    /// node's level, which is low enough for one more doubling to fit in a
    /// machine word.
    pub open spec fn wf(self) -> bool {
        &&& self.grid.wf()
        &&& self.level <= 30
        &&& (self.x as nat) < pow2(self.level as nat)
        &&& (self.y as nat) < pow2(self.level as nat)
    }

    pub fn new() -> (r: Self)
        ensures
            r.wf(),
            r.level == 0 && r.x == 0 && r.y == 0,
            forall|c: GridCoords, d: Direction|
                c.in_grid() ==> #[trigger] r.grid.conn(c, d) == Connection::default_spec(),
    {
        proof {
            lemma2_to64();
        }
        let r = Self { level: 0, x: 0, y: 0, grid: Grid::new() };
        proof {
            assert forall|c: GridCoords, d: Direction| c.in_grid() implies #[trigger] r.grid.conn(
                c,
                d,
            ) == Connection::default_spec() by {
                assert(r.grid.cells@[c.idx()] == crate::grid::Cell::default_spec());
            }
        }
        r
    }

    /// Build the root maze: a fresh grid with all four outer sides walled
    /// off except two fixed exits, then fully carved. The perimeter scan of
    /// the result reports exactly those two exits, and the carved passages
    /// form a spanning tree of the 64 cells: every cell is reachable from
    /// every other, through exactly 63 passages (each recorded on both of
    /// its facing edges).
    pub fn make_root(maze_gen: &mut DFSMaze) -> (r: Self)
        requires
            old(maze_gen).wf(),
        ensures
            final(maze_gen).wf(),
            r.wf(),
            r.level == 0 && r.x == 0 && r.y == 0,
            r.grid.connection_symmetry(),
            forall|a: GridCoords, d: Direction|
                #[trigger] open_adjacent(r.grid, a, d) ==> reachable_connected(
                    r.grid,
                    a,
                    a.stepped(d),
                ),
            connected_slot_count(r.grid) == 2 * (CELL_COUNT - 1),
            open_component_count(r.grid) == 1,
            ({
                let cd = exit_coords(Direction::Down, ROOT_EXIT_DOWN_INDEX);
                let cu = exit_coords(Direction::Up, ROOT_EXIT_UP_INDEX);
                let ed = r.grid.conn(cd, Direction::Down);
                let eu = r.grid.conn(cu, Direction::Up);
                &&& ed.connected && ed.is_maze_exit && ed.is_solution_connection && !ed.blocked
                &&& eu.connected && eu.is_maze_exit && eu.is_solution_connection && !eu.blocked
                &&& forall|c: GridCoords, d: Direction|
                    boundary_facing(c, d) && !(c == cd && d == Direction::Down) && !(c == cu
                        && d == Direction::Up) ==> (#[trigger] r.grid.conn(c, d)).blocked && !r.grid.conn(
                        c,
                        d,
                    ).exit_like() && !r.grid.conn(c, d).connected
                &&& r.grid.all_exits() == seq![(cd, Direction::Down), (cu, Direction::Up)]
            }),
    {
        let mut root = Self::new();
        root.grid.mark_boundaries();
        root.grid.mark_exit(Direction::Down, ROOT_EXIT_DOWN_INDEX);
        root.grid.mark_exit(Direction::Up, ROOT_EXIT_UP_INDEX);
        let ghost pre_carve = root.grid;
        proof {
            let cd = exit_coords(Direction::Down, ROOT_EXIT_DOWN_INDEX);
            let cu = exit_coords(Direction::Up, ROOT_EXIT_UP_INDEX);
            assert forall|c: GridCoords, d: Direction| c.can_step(d) implies #[trigger] pre_carve.conn(
                c,
                d,
            ).connected == pre_carve.conn(c.stepped(d), d.opposite()).connected by {
                assert(!boundary_facing(c, d));
                assert(!boundary_facing(c.stepped(d), d.opposite()));
                assert(pre_carve.conn(c, d) == Connection::default_spec());
                assert(pre_carve.conn(c.stepped(d), d.opposite()) == Connection::default_spec());
            }
            // The root grid starts with every interior edge open and
            // unconnected: the carve below spans it as one tree.
            assert forall|c: GridCoords, d: Direction| c.can_step(d) implies !(
            #[trigger] pre_carve.conn(c, d)).blocked && !pre_carve.conn(c, d).connected by {
                assert(!boundary_facing(c, d));
                assert(pre_carve.conn(c, d) == Connection::default_spec());
            }
            assert(interior_unblocked(pre_carve) && interior_unconnected(pre_carve));
            assert forall|c: GridCoords, d: Direction| c.can_step(d) implies (
            #[trigger] pre_carve.conn(c, d)).blocked == pre_carve.conn(
                c.stepped(d),
                d.opposite(),
            ).blocked by {
                assert(c.stepped(d).can_step(d.opposite()));
                assert(!pre_carve.conn(c, d).blocked);
                assert(!pre_carve.conn(c.stepped(d), d.opposite()).blocked);
            }
            assert(wall_symmetric(pre_carve));
        }
        maze_gen.maze_fill(&mut root.grid);
        proof {
            let cd = exit_coords(Direction::Down, ROOT_EXIT_DOWN_INDEX);
            let cu = exit_coords(Direction::Up, ROOT_EXIT_UP_INDEX);
            lemma_carving_keeps_boundary(pre_carve, root.grid, cd, Direction::Down);
            lemma_carving_keeps_boundary(pre_carve, root.grid, cu, Direction::Up);
            assert forall|c: GridCoords, d: Direction|
                boundary_facing(c, d) && !(c == cd && d == Direction::Down) && !(c == cu
                    && d == Direction::Up) implies (#[trigger] root.grid.conn(c, d)).blocked
                && !root.grid.conn(c, d).exit_like() && !root.grid.conn(c, d).connected by {
                lemma_carving_keeps_boundary(pre_carve, root.grid, c, d);
                assert(pre_carve.conn(c, d).blocked && !pre_carve.conn(c, d).exit_like()
                    && !pre_carve.conn(c, d).connected);
            }
            lemma_two_exit_scan(root.grid, cd, cu);
            assert forall|c2: GridCoords, d2: Direction| c2.can_step(d2) implies (
            #[trigger] pre_carve.conn(c2, d2)).blocked == root.grid.conn(c2, d2).blocked by {
                assert(root.grid.conn(c2, d2).blocked == pre_carve.conn(c2, d2).blocked);
            }
            lemma_component_count_same_blocked(pre_carve, root.grid, CELL_COUNT as int);
        }
        root
    }
}

/// The PNG stream that encodes the given RGB pixel rows: a pure function of
/// the pixel bytes and the dimensions, computed by the image codec.
pub uninterp spec fn png_bytes_of(pixels: Seq<u8>, width: int, height: int) -> Seq<u8>;

/// Relies on image::write_buffer_with_format with the PNG format: encoding
/// an in-memory RGB buffer is deterministic, a function of the pixel bytes
/// and dimensions alone. The codec accepts any buffer whose length matches
/// its dimensions.
#[verifier::external_body]
fn encode_png_rgb8(pixels: &Vec<u8>, width: u32, height: u32) -> (r: Vec<u8>)
    requires
        width > 0,
        height > 0,
        pixels@.len() == 3 * width * height,
    ensures
        r@ == png_bytes_of(pixels@, width as int, height as int),
{
    let mut cursor = std::io::Cursor::new(Vec::new());
    image::write_buffer_with_format(
        &mut cursor,
        pixels,
        width,
        height,
        image::ColorType::Rgb8,
        image::ImageOutputFormat::Png,
    ).expect("could not serialize image");
    cursor.into_inner()
}

impl Tile {
    /// The tile's feature-ID image, PNG-encoded: one RGB pixel per cell of
    /// the grid's serialized form.
    pub fn make_image_buffer(&self) -> (r: Vec<u8>)
        requires
            self.grid.wf(),
        ensures
            r@ == png_bytes_of(
                self.grid.image_bytes_spec(),
                GRID_SIZE as int,
                GRID_SIZE as int,
            ),
    {
        let image_bytes = self.grid.to_image_bytes();
        encode_png_rgb8(&image_bytes, GRID_SIZE as u32, GRID_SIZE as u32)
    }
}

/// The parent connection that doubles onto position `j` of a child's bottom
/// side, for the child in quadrant `(qx, qy)` of the parent.
pub open spec fn parent_bottom_edge(parent: Grid, qx: int, qy: int, j: int) -> Connection {
    parent.conn_xy(4 * qx + j / 2, 4 * qy, Direction::Down)
}

/// The parent connection that doubles onto position `j` of a child's top
/// side: the parent's mid seam for the lower quadrants, its top seam for the
/// upper ones.
pub open spec fn parent_top_edge(parent: Grid, qx: int, qy: int, j: int) -> Connection {
    if qy == 0 {
        parent.conn_xy(4 * qx + j / 2, 4, Direction::Down)
    } else {
        parent.conn_xy(4 * qx + j / 2, 7, Direction::Up)
    }
}

/// The parent connection that doubles onto position `j` of a child's left
/// side.
pub open spec fn parent_left_edge(parent: Grid, qx: int, qy: int, j: int) -> Connection {
    parent.conn_xy(4 * qx, 4 * qy + j / 2, Direction::Left)
}

/// The parent connection that doubles onto position `j` of a child's right
/// side: the parent's mid seam for the left quadrants, its right seam for
/// the right ones.
pub open spec fn parent_right_edge(parent: Grid, qx: int, qy: int, j: int) -> Connection {
    if qx == 0 {
        parent.conn_xy(4, 4 * qy + j / 2, Direction::Left)
    } else {
        parent.conn_xy(7, 4 * qy + j / 2, Direction::Right)
    }
}

/// The four outer sides of a child grid in quadrant `(qx, qy)` hold exactly
/// the doubled form of the parent's corresponding seam pieces: each parent
/// edge split over two child sub-edges as `split_of` prescribes, on a child
/// whose boundary started fully cleared.
pub open spec fn child_boundary_matches(child: Grid, parent: Grid, qx: int, qy: int) -> bool {
    &&& forall|j: int|
        0 <= j < GRID_SIZE ==> #[trigger] child.conn_xy(j, 0, Direction::Down) == split_of(
            parent_bottom_edge(parent, qx, qy, j),
            Connection::default_spec(),
            j % 2,
        )
    &&& forall|j: int|
        0 <= j < GRID_SIZE ==> #[trigger] child.conn_xy(j, GRID_SIZE - 1, Direction::Up)
            == split_of(parent_top_edge(parent, qx, qy, j), Connection::default_spec(), j % 2)
    &&& forall|j: int|
        0 <= j < GRID_SIZE ==> #[trigger] child.conn_xy(0, j, Direction::Left) == split_of(
            parent_left_edge(parent, qx, qy, j),
            Connection::default_spec(),
            j % 2,
        )
    &&& forall|j: int|
        0 <= j < GRID_SIZE ==> #[trigger] child.conn_xy(GRID_SIZE - 1, j, Direction::Right)
            == split_of(parent_right_edge(parent, qx, qy, j), Connection::default_spec(), j % 2)
}

impl Tile {
    /// Build, seed and carve the child tile of one quadrant: install the
    /// doubled parent seams on its boundary, copy the parent's interior
    /// walls into it, then carve its interior to completion.
    fn make_child(&self, maze_gen: &mut DFSMaze, qx: usize, qy: usize) -> (r: Tile)
        requires
            self.wf(),
            self.level < 30,
            old(maze_gen).wf(),
            qx <= 1,
            qy <= 1,
        ensures
            final(maze_gen).wf(),
            r.wf(),
            r.level == self.level + 1,
            r.x == 2 * self.x + qx,
            r.y == 2 * self.y + qy,
            child_boundary_matches(r.grid, self.grid, qx as int, qy as int),
            r.grid.connection_symmetry(),
            forall|a: GridCoords, d: Direction|
                #[trigger] open_adjacent(r.grid, a, d) ==> reachable_connected(
                    r.grid,
                    a,
                    a.stepped(d),
                ),
            connected_slot_count(r.grid) + 2 * open_component_count(r.grid) == 2 * CELL_COUNT,
    {
        let bottom_seam = self.grid.get_horizontal_seam(HALF_GRID_SIZE * qy, Direction::Down);
        let top_seam = if qy == 0 {
            self.grid.get_horizontal_seam(HALF_GRID_SIZE, Direction::Down)
        } else {
            self.grid.get_horizontal_seam(GRID_SIZE - 1, Direction::Up)
        };
        let left_seam = self.grid.get_vertical_seam(HALF_GRID_SIZE * qx, Direction::Left);
        let right_seam = if qx == 0 {
            self.grid.get_vertical_seam(HALF_GRID_SIZE, Direction::Left)
        } else {
            self.grid.get_vertical_seam(GRID_SIZE - 1, Direction::Right)
        };

        proof {
            lemma_pow2_unfold((self.level + 1) as nat);
            lemma_pow2_strictly_increases(self.level as nat, 30);
            lemma2_to64();
        }
        let mut child = Tile::new();
        child.level = self.level + 1;
        child.x = 2 * self.x + qx;
        child.y = 2 * self.y + qy;
        let ghost g_fresh = child.grid;

        child.grid.set_boundary(
            &right_seam.as_slice()[(qy * HALF_GRID_SIZE)..(qy * HALF_GRID_SIZE + HALF_GRID_SIZE)],
            &top_seam.as_slice()[(qx * HALF_GRID_SIZE)..(qx * HALF_GRID_SIZE + HALF_GRID_SIZE)],
            &left_seam.as_slice()[(qy * HALF_GRID_SIZE)..(qy * HALF_GRID_SIZE + HALF_GRID_SIZE)],
            &bottom_seam.as_slice()[(qx * HALF_GRID_SIZE)..(qx * HALF_GRID_SIZE + HALF_GRID_SIZE)],
        );
        let ghost g_bd = child.grid;

        self.grid.propagate_interior(
            &mut child.grid,
            (qx * HALF_GRID_SIZE)..(qx * HALF_GRID_SIZE + HALF_GRID_SIZE),
            (qy * HALF_GRID_SIZE)..(qy * HALF_GRID_SIZE + HALF_GRID_SIZE),
        );
        let ghost g_pi = child.grid;

        proof {
            lemma_child_precarve_regular(
                self.grid,
                g_fresh,
                g_bd,
                g_pi,
                qx as int,
                qy as int,
            );
        }

        maze_gen.maze_fill(&mut child.grid);
        proof {
            assert forall|c2: GridCoords, d2: Direction| c2.can_step(d2) implies (
            #[trigger] g_pi.conn(c2, d2)).blocked == child.grid.conn(c2, d2).blocked by {
                assert(child.grid.conn(c2, d2).blocked == g_pi.conn(c2, d2).blocked);
            }
            lemma_component_count_same_blocked(g_pi, child.grid, CELL_COUNT as int);
        }

        proof {
            let parent = self.grid;
            let qxi = qx as int;
            let qyi = qy as int;
            assert forall|j: int| 0 <= j < GRID_SIZE implies #[trigger] child.grid.conn_xy(
                j,
                0,
                Direction::Down,
            ) == split_of(
                parent_bottom_edge(parent, qxi, qyi, j),
                Connection::default_spec(),
                j % 2,
            ) by {
                let c = GridCoords { x: j as usize, y: 0 };
                assert(boundary_facing(c, Direction::Down));
                assert(g_fresh.conn_xy(j, 0, Direction::Down) == g_fresh.conn(c, Direction::Down));
                assert(g_fresh.conn(c, Direction::Down) == Connection::default_spec());
                assert(g_bd.conn_xy(j, 0, Direction::Down) == g_bd.conn(c, Direction::Down));
                assert(!crate::grid::wall_blocks(
                    parent,
                    4 * qxi,
                    4 * qyi,
                    c.x as int,
                    c.y as int,
                    Direction::Down,
                ));
                assert(g_pi.conn(c, Direction::Down) == g_bd.conn(c, Direction::Down));
                lemma_carving_keeps_boundary(g_pi, child.grid, c, Direction::Down);
                assert(child.grid.conn_xy(j, 0, Direction::Down) == child.grid.conn(
                    c,
                    Direction::Down,
                ));
            }
            assert forall|j: int| 0 <= j < GRID_SIZE implies #[trigger] child.grid.conn_xy(
                j,
                GRID_SIZE - 1,
                Direction::Up,
            ) == split_of(
                parent_top_edge(parent, qxi, qyi, j),
                Connection::default_spec(),
                j % 2,
            ) by {
                let c = GridCoords { x: j as usize, y: (GRID_SIZE - 1) as usize };
                assert(boundary_facing(c, Direction::Up));
                assert(g_fresh.conn_xy(j, GRID_SIZE - 1, Direction::Up) == g_fresh.conn(
                    c,
                    Direction::Up,
                ));
                assert(g_fresh.conn(c, Direction::Up) == Connection::default_spec());
                assert(g_bd.conn_xy(j, GRID_SIZE - 1, Direction::Up) == g_bd.conn(
                    c,
                    Direction::Up,
                ));
                assert(!crate::grid::wall_blocks(
                    parent,
                    4 * qxi,
                    4 * qyi,
                    c.x as int,
                    c.y as int,
                    Direction::Up,
                ));
                assert(g_pi.conn(c, Direction::Up) == g_bd.conn(c, Direction::Up));
                lemma_carving_keeps_boundary(g_pi, child.grid, c, Direction::Up);
                assert(child.grid.conn_xy(j, GRID_SIZE - 1, Direction::Up) == child.grid.conn(
                    c,
                    Direction::Up,
                ));
            }
            assert forall|j: int| 0 <= j < GRID_SIZE implies #[trigger] child.grid.conn_xy(
                0,
                j,
                Direction::Left,
            ) == split_of(
                parent_left_edge(parent, qxi, qyi, j),
                Connection::default_spec(),
                j % 2,
            ) by {
                let c = GridCoords { x: 0, y: j as usize };
                assert(boundary_facing(c, Direction::Left));
                assert(g_fresh.conn_xy(0, j, Direction::Left) == g_fresh.conn(c, Direction::Left));
                assert(g_fresh.conn(c, Direction::Left) == Connection::default_spec());
                assert(g_bd.conn_xy(0, j, Direction::Left) == g_bd.conn(c, Direction::Left));
                assert(!crate::grid::wall_blocks(
                    parent,
                    4 * qxi,
                    4 * qyi,
                    c.x as int,
                    c.y as int,
                    Direction::Left,
                ));
                assert(g_pi.conn(c, Direction::Left) == g_bd.conn(c, Direction::Left));
                lemma_carving_keeps_boundary(g_pi, child.grid, c, Direction::Left);
                assert(child.grid.conn_xy(0, j, Direction::Left) == child.grid.conn(
                    c,
                    Direction::Left,
                ));
            }
            assert forall|j: int| 0 <= j < GRID_SIZE implies #[trigger] child.grid.conn_xy(
                GRID_SIZE - 1,
                j,
                Direction::Right,
            ) == split_of(
                parent_right_edge(parent, qxi, qyi, j),
                Connection::default_spec(),
                j % 2,
            ) by {
                let c = GridCoords { x: (GRID_SIZE - 1) as usize, y: j as usize };
                assert(boundary_facing(c, Direction::Right));
                assert(g_fresh.conn_xy(GRID_SIZE - 1, j, Direction::Right) == g_fresh.conn(
                    c,
                    Direction::Right,
                ));
                assert(g_fresh.conn(c, Direction::Right) == Connection::default_spec());
                assert(g_bd.conn_xy(GRID_SIZE - 1, j, Direction::Right) == g_bd.conn(
                    c,
                    Direction::Right,
                ));
                assert(!crate::grid::wall_blocks(
                    parent,
                    4 * qxi,
                    4 * qyi,
                    c.x as int,
                    c.y as int,
                    Direction::Right,
                ));
                assert(g_pi.conn(c, Direction::Right) == g_bd.conn(c, Direction::Right));
                lemma_carving_keeps_boundary(g_pi, child.grid, c, Direction::Right);
                assert(child.grid.conn_xy(GRID_SIZE - 1, j, Direction::Right) == child.grid.conn(
                    c,
                    Direction::Right,
                ));
            }
        }
        child
    }

    /// Split this tile into its four children at the next quadtree level, in
    /// the canonical order southwest, southeast, northwest, northeast. Each
    /// child's outer walls are the doubled form of the parent's seams at the
    /// matching place, so two siblings that share an edge always agree on it,
    /// and each child's interior is an independently carved maze respecting
    /// the parent's interior walls.
    pub fn subdivide(&self, maze_gen: &mut DFSMaze) -> (r: (Tile, Tile, Tile, Tile))
        requires
            self.wf(),
            self.level < 30,
            old(maze_gen).wf(),
        ensures
            final(maze_gen).wf(),
            r.0.wf() && r.1.wf() && r.2.wf() && r.3.wf(),
            r.0.level == self.level + 1 && r.1.level == self.level + 1 && r.2.level == self.level
                + 1 && r.3.level == self.level + 1,
            r.0.x == 2 * self.x && r.0.y == 2 * self.y,
            r.1.x == 2 * self.x + 1 && r.1.y == 2 * self.y,
            r.2.x == 2 * self.x && r.2.y == 2 * self.y + 1,
            r.3.x == 2 * self.x + 1 && r.3.y == 2 * self.y + 1,
            child_boundary_matches(r.0.grid, self.grid, 0, 0),
            child_boundary_matches(r.1.grid, self.grid, 1, 0),
            child_boundary_matches(r.2.grid, self.grid, 0, 1),
            child_boundary_matches(r.3.grid, self.grid, 1, 1),
            r.0.grid.connection_symmetry() && r.1.grid.connection_symmetry()
                && r.2.grid.connection_symmetry() && r.3.grid.connection_symmetry(),
            forall|a: GridCoords, d: Direction|
                #[trigger] open_adjacent(r.0.grid, a, d) ==> reachable_connected(
                    r.0.grid,
                    a,
                    a.stepped(d),
                ),
            forall|a: GridCoords, d: Direction|
                #[trigger] open_adjacent(r.1.grid, a, d) ==> reachable_connected(
                    r.1.grid,
                    a,
                    a.stepped(d),
                ),
            forall|a: GridCoords, d: Direction|
                #[trigger] open_adjacent(r.2.grid, a, d) ==> reachable_connected(
                    r.2.grid,
                    a,
                    a.stepped(d),
                ),
            forall|a: GridCoords, d: Direction|
                #[trigger] open_adjacent(r.3.grid, a, d) ==> reachable_connected(
                    r.3.grid,
                    a,
                    a.stepped(d),
                ),
            connected_slot_count(r.0.grid) + 2 * open_component_count(r.0.grid) == 2 * CELL_COUNT,
            connected_slot_count(r.1.grid) + 2 * open_component_count(r.1.grid) == 2 * CELL_COUNT,
            connected_slot_count(r.2.grid) + 2 * open_component_count(r.2.grid) == 2 * CELL_COUNT,
            connected_slot_count(r.3.grid) + 2 * open_component_count(r.3.grid) == 2 * CELL_COUNT,
    {
        let sw = self.make_child(maze_gen, 0, 0);
        let se = self.make_child(maze_gen, 1, 0);
        let nw = self.make_child(maze_gen, 0, 1);
        let ne = self.make_child(maze_gen, 1, 1);
        (sw, se, nw, ne)
    }

    /// Bytes needed to pad a chunk of the given length up to the next
    /// four-byte boundary.
    pub fn get_padding_length(length: u32) -> (r: u32)
        requires
            length >= 1,
        ensures
            r < 4,
            (length + r) % 4 == 0,
    {
        let leftover = (length - 1) % 4 + 1;
        4 - leftover
    }

    /// A run of identical padding bytes of the given length.
    pub fn make_padding(length: u32, padding_char: u8) -> (r: Vec<u8>)
        ensures
            r@.len() == length,
            forall|i: int| 0 <= i < length ==> r@[i] == padding_char,
    {
        let mut result: Vec<u8> = Vec::new();
        let mut i: u32 = 0;
        while i < length
            invariant
                i <= length,
                result@.len() == i,
                forall|j: int| 0 <= j < i ==> result@[j] == padding_char,
            decreases length - i,
        {
            result.push(padding_char);
            i += 1;
        }
        result
    }
}

/// A freshly seeded child grid, before carving: its interior carries no
/// passages, and the doubled parent walls land on mirrored record pairs, so
/// its walls are symmetric and its `connected` flags trivially so.
#[verifier::rlimit(50)]
proof fn lemma_child_precarve_regular(
    parent: Grid,
    g_fresh: Grid,
    g_bd: Grid,
    g_pi: Grid,
    qx: int,
    qy: int,
)
    requires
        qx == 0 || qx == 1,
        qy == 0 || qy == 1,
        forall|c: GridCoords, d: Direction|
            c.in_grid() ==> #[trigger] g_fresh.conn(c, d) == Connection::default_spec(),
        forall|c: GridCoords, d: Direction|
            c.in_grid() && !boundary_facing(c, d) ==> #[trigger] g_bd.conn(c, d) == g_fresh.conn(
                c,
                d,
            ),
        forall|c: GridCoords, d: Direction|
            c.in_grid() ==> #[trigger] g_pi.conn(c, d) == (if crate::grid::wall_blocks(
                parent,
                4 * qx,
                4 * qy,
                c.x as int,
                c.y as int,
                d,
            ) {
                g_bd.conn(c, d).with_blocked()
            } else {
                g_bd.conn(c, d)
            }),
    ensures
        interior_unconnected(g_pi),
        wall_symmetric(g_pi),
        g_pi.connection_symmetry(),
{
    assert forall|c: GridCoords, d: Direction| c.can_step(d) implies !(#[trigger] g_pi.conn(
        c,
        d,
    )).connected by {
        assert(!boundary_facing(c, d));
        assert(g_bd.conn(c, d) == g_fresh.conn(c, d));
        assert(g_pi.conn(c, d).connected == g_bd.conn(c, d).connected);
    }
    assert forall|c: GridCoords, d: Direction| c.can_step(d) implies (#[trigger] g_pi.conn(
        c,
        d,
    )).blocked == g_pi.conn(c.stepped(d), d.opposite()).blocked by {
        let m = c.stepped(d);
        let md = d.opposite();
        assert(m.can_step(md));
        assert(!boundary_facing(c, d) && !boundary_facing(m, md));
        assert(g_bd.conn(c, d) == g_fresh.conn(c, d));
        assert(g_bd.conn(m, md) == g_fresh.conn(m, md));
        assert(g_pi.conn(c, d) == (if crate::grid::wall_blocks(
            parent,
            4 * qx,
            4 * qy,
            c.x as int,
            c.y as int,
            d,
        ) {
            g_bd.conn(c, d).with_blocked()
        } else {
            g_bd.conn(c, d)
        }));
        assert(g_pi.conn(m, md) == (if crate::grid::wall_blocks(
            parent,
            4 * qx,
            4 * qy,
            m.x as int,
            m.y as int,
            md,
        ) {
            g_bd.conn(m, md).with_blocked()
        } else {
            g_bd.conn(m, md)
        }));
        assert(crate::grid::wall_blocks(parent, 4 * qx, 4 * qy, c.x as int, c.y as int, d)
            == crate::grid::wall_blocks(parent, 4 * qx, 4 * qy, m.x as int, m.y as int, md));
    }
    assert forall|c: GridCoords, d: Direction| c.can_step(d) implies #[trigger] g_pi.conn(
        c,
        d,
    ).connected == g_pi.conn(c.stepped(d), d.opposite()).connected by {
        assert(!g_pi.conn(c, d).connected);
        assert(c.stepped(d).can_step(d.opposite()));
        assert(!g_pi.conn(c.stepped(d), d.opposite()).connected);
    }
}

/// For two sibling tiles out of the same subdivision that touch along an
/// internal seam, the shared edge holds the same connection record on both
/// sides: a passage across a tile-tile boundary is never walled on one side
/// only.
pub proof fn lemma_sibling_boundary_agreement(
    parent: Grid,
    sw: Grid,
    se: Grid,
    nw: Grid,
    ne: Grid,
)
    requires
        child_boundary_matches(sw, parent, 0, 0),
        child_boundary_matches(se, parent, 1, 0),
        child_boundary_matches(nw, parent, 0, 1),
        child_boundary_matches(ne, parent, 1, 1),
    ensures
        forall|j: int|
            0 <= j < GRID_SIZE ==> #[trigger] sw.conn_xy(GRID_SIZE - 1, j, Direction::Right)
                == se.conn_xy(0, j, Direction::Left),
        forall|j: int|
            0 <= j < GRID_SIZE ==> #[trigger] nw.conn_xy(GRID_SIZE - 1, j, Direction::Right)
                == ne.conn_xy(0, j, Direction::Left),
        forall|j: int|
            0 <= j < GRID_SIZE ==> #[trigger] sw.conn_xy(j, GRID_SIZE - 1, Direction::Up)
                == nw.conn_xy(j, 0, Direction::Down),
        forall|j: int|
            0 <= j < GRID_SIZE ==> #[trigger] se.conn_xy(j, GRID_SIZE - 1, Direction::Up)
                == ne.conn_xy(j, 0, Direction::Down),
{
    assert forall|j: int| 0 <= j < GRID_SIZE implies #[trigger] sw.conn_xy(
        GRID_SIZE - 1,
        j,
        Direction::Right,
    ) == se.conn_xy(0, j, Direction::Left) by {
        assert(parent_right_edge(parent, 0, 0, j) == parent_left_edge(parent, 1, 0, j));
    }
    assert forall|j: int| 0 <= j < GRID_SIZE implies #[trigger] nw.conn_xy(
        GRID_SIZE - 1,
        j,
        Direction::Right,
    ) == ne.conn_xy(0, j, Direction::Left) by {
        assert(parent_right_edge(parent, 0, 1, j) == parent_left_edge(parent, 1, 1, j));
    }
    assert forall|j: int| 0 <= j < GRID_SIZE implies #[trigger] sw.conn_xy(
        j,
        GRID_SIZE - 1,
        Direction::Up,
    ) == nw.conn_xy(j, 0, Direction::Down) by {
        assert(parent_top_edge(parent, 0, 0, j) == parent_bottom_edge(parent, 0, 1, j));
    }
    assert forall|j: int| 0 <= j < GRID_SIZE implies #[trigger] se.conn_xy(
        j,
        GRID_SIZE - 1,
        Direction::Up,
    ) == ne.conn_xy(j, 0, Direction::Down) by {
        assert(parent_top_edge(parent, 1, 0, j) == parent_bottom_edge(parent, 1, 1, j));
    }
}

/// An exit on an open parent boundary edge survives one halving of the
/// resolution as exactly one exit edge among its two child sub-edges: never
/// zero, never both. The surviving sub-edge keeps the remaining split bits,
/// so the same holds again at every further level.
pub proof fn lemma_exit_preserved_one_level(p: Connection)
    requires
        !p.blocked,
        p.is_maze_exit,
    ensures
        ({
            let b = (p.split_bits & 1) as int;
            let kept = split_of(p, Connection::default_spec(), b);
            let other = split_of(p, Connection::default_spec(), 1 - b);
            &&& 0 <= b < 2
            &&& kept.is_maze_exit
            &&& kept.connected == p.connected
            &&& kept.is_solution_connection == p.is_solution_connection
            &&& kept.split_bits == p.split_bits >> 1
            &&& !other.is_maze_exit
            &&& !other.connected
            &&& !other.is_solution_connection
        }),
{
    crate::grid::lemma_split_round_trip(p);
}

/// A grid whose only exit-like boundary edges are one on the bottom side and
/// one on the top side is scanned into exactly those two entries, bottom
/// exit first.
proof fn lemma_two_exit_scan(g: Grid, cd: GridCoords, cu: GridCoords)
    requires
        g.wf(),
        cd == exit_coords(Direction::Down, ROOT_EXIT_DOWN_INDEX),
        cu == exit_coords(Direction::Up, ROOT_EXIT_UP_INDEX),
        g.conn(cd, Direction::Down).exit_like(),
        g.conn(cu, Direction::Up).exit_like(),
        forall|c: GridCoords, d: Direction|
            boundary_facing(c, d) && !(c == cd && d == Direction::Down) && !(c == cu
                && d == Direction::Up) ==> !(#[trigger] g.conn(c, d)).exit_like(),
    ensures
        g.all_exits() == seq![(cd, Direction::Down), (cu, Direction::Up)],
{
    assert forall|i: int| 0 <= i < GRID_SIZE implies g.exits_at_index(i) == (if i
        == ROOT_EXIT_DOWN_INDEX {
        seq![(cd, Direction::Down)]
    } else if i == ROOT_EXIT_UP_INDEX {
        seq![(cu, Direction::Up)]
    } else {
        Seq::<(GridCoords, Direction)>::empty()
    }) by {
        let cb = GridCoords { x: i as usize, y: 0 };
        let ct = GridCoords { x: i as usize, y: (GRID_SIZE - 1) as usize };
        let cl = GridCoords { x: 0, y: i as usize };
        let cr = GridCoords { x: (GRID_SIZE - 1) as usize, y: i as usize };
        assert(g.conn_xy(i, 0, Direction::Down) == g.conn(cb, Direction::Down));
        assert(g.conn_xy(i, GRID_SIZE - 1, Direction::Up) == g.conn(ct, Direction::Up));
        assert(g.conn_xy(0, i, Direction::Left) == g.conn(cl, Direction::Left));
        assert(g.conn_xy(GRID_SIZE - 1, i, Direction::Right) == g.conn(cr, Direction::Right));
        assert(boundary_facing(cb, Direction::Down));
        assert(boundary_facing(ct, Direction::Up));
        assert(boundary_facing(cl, Direction::Left));
        assert(boundary_facing(cr, Direction::Right));
        if i == ROOT_EXIT_DOWN_INDEX {
            assert(cb == cd);
            assert(!g.conn(ct, Direction::Up).exit_like());
            assert(g.exits_at_index(i) =~= seq![(cd, Direction::Down)]);
        } else if i == ROOT_EXIT_UP_INDEX {
            assert(ct == cu);
            assert(!g.conn(cb, Direction::Down).exit_like());
            assert(g.exits_at_index(i) =~= seq![(cu, Direction::Up)]);
        } else {
            assert(g.exits_at_index(i) =~= Seq::<(GridCoords, Direction)>::empty());
        }
    }
    assert(g.exits_up_to(0) =~= Seq::<(GridCoords, Direction)>::empty());
    assert(g.exits_up_to(1) =~= Seq::<(GridCoords, Direction)>::empty());
    assert(g.exits_up_to(2) =~= Seq::<(GridCoords, Direction)>::empty());
    assert(g.exits_up_to(3) =~= Seq::<(GridCoords, Direction)>::empty());
    assert(g.exits_up_to(4) =~= seq![(cd, Direction::Down)]);
    assert(g.exits_up_to(5) =~= seq![(cd, Direction::Down)]);
    assert(g.exits_up_to(6) =~= seq![(cd, Direction::Down), (cu, Direction::Up)]);
    assert(g.exits_up_to(7) =~= seq![(cd, Direction::Down), (cu, Direction::Up)]);
    assert(g.exits_up_to(8) =~= seq![(cd, Direction::Down), (cu, Direction::Up)]);
    assert(g.all_exits() =~= seq![(cd, Direction::Down), (cu, Direction::Up)]);
}

} // verus!
