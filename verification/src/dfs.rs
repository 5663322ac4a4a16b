use vstd::prelude::*;

use crate::direction::Direction;
use crate::grid::{Grid, CELL_COUNT};
use crate::grid_coords::{lemma_dir_between_stepped, GridCoords, GRID_SIZE};
use crate::rng::random_below;

verus! {

/// Carving changes nothing but the `connected` flags: walls, exit and
/// solution markers and split bits all stay as they were.
pub open spec fn same_walls(pre: Grid, post: Grid) -> bool {
    forall|c: GridCoords, d: Direction|
        c.in_grid() ==> {
            let p = pre.conn(c, d);
            let q = #[trigger] post.conn(c, d);
            &&& q.blocked == p.blocked
            &&& q.is_solution_connection == p.is_solution_connection
            &&& q.is_maze_exit == p.is_maze_exit
            &&& q.split_bits == p.split_bits
        }
}

/// Carving never closes a passage that was already open.
pub open spec fn connections_preserved(pre: Grid, post: Grid) -> bool {
    forall|c: GridCoords, d: Direction|
        c.in_grid() && pre.conn(c, d).connected ==> #[trigger] post.conn(c, d).connected
}

/// Every passage that carving opens crosses an interior edge that was not
/// walled off: the edge joins two in-grid cells and at least one of its two
/// facing records was unblocked (the carver checks the record on the side it
/// steps from).
pub open spec fn new_connections_carved(pre: Grid, post: Grid) -> bool {
    forall|c: GridCoords, d: Direction|
        c.in_grid() && !pre.conn(c, d).connected && #[trigger] post.conn(c, d).connected ==> {
            &&& c.can_step(d)
            &&& (!pre.conn(c, d).blocked || !pre.conn(c.stepped(d), d.opposite()).blocked)
        }
}

/// `post` is reachable from `pre` by zero or more carving steps.
pub open spec fn carved_from(pre: Grid, post: Grid) -> bool {
    &&& same_walls(pre, post)
    &&& connections_preserved(pre, post)
    &&& new_connections_carved(pre, post)
}

/// Carving steps compose.
pub proof fn lemma_carved_trans(g0: Grid, g1: Grid, g2: Grid)
    requires
        carved_from(g0, g1),
        carved_from(g1, g2),
    ensures
        carved_from(g0, g2),
{
    assert forall|c: GridCoords, d: Direction|
        c.in_grid() && !g0.conn(c, d).connected && #[trigger] g2.conn(c, d).connected implies {
        &&& c.can_step(d)
        &&& (!g0.conn(c, d).blocked || !g0.conn(c.stepped(d), d.opposite()).blocked)
    } by {
        if g1.conn(c, d).connected {
        } else {
            assert(g1.conn(c, d).blocked == g0.conn(c, d).blocked);
            if c.can_step(d) {
                assert(g1.conn(c.stepped(d), d.opposite()).blocked == g0.conn(
                    c.stepped(d),
                    d.opposite(),
                ).blocked);
            }
        }
    }
}

/// Cell `b` can be reached from cell `a` through recorded passages within
/// `n` steps.
pub open spec fn reach_conn(g: Grid, a: GridCoords, b: GridCoords, n: nat) -> bool
    decreases n,
{
    a == b || (n > 0 && exists|d: Direction|
        a.can_step(d) && (#[trigger] g.conn(a, d)).connected && reach_conn(
            g,
            a.stepped(d),
            b,
            (n - 1) as nat,
        ))
}

/// Some chain of recorded passages joins `a` to `b`.
pub open spec fn reachable_connected(g: Grid, a: GridCoords, b: GridCoords) -> bool {
    exists|n: nat| reach_conn(g, a, b, n)
}

/// The edge from `a` in direction `d` joins two in-grid cells and is walled
/// off on neither side.
pub open spec fn open_adjacent(g: Grid, a: GridCoords, d: Direction) -> bool {
    a.can_step(d) && !g.conn(a, d).blocked && !g.conn(a.stepped(d), d.opposite()).blocked
}

/// Cell `b` can be reached from cell `a` within `n` steps across edges that
/// are open on both sides.
pub open spec fn reach_open(g: Grid, a: GridCoords, b: GridCoords, n: nat) -> bool
    decreases n,
{
    a == b || (n > 0 && exists|d: Direction|
        #[trigger] open_adjacent(g, a, d) && reach_open(g, a.stepped(d), b, (n - 1) as nat))
}

/// The visit table is closed under stepping across unblocked edges: no
/// visited cell has an unvisited neighbor its side of the wall would let it
/// reach.
pub open spec fn visited_closed(vis: Seq<bool>, g: Grid) -> bool {
    forall|c: GridCoords, d: Direction|
        c.in_grid() && vis[c.idx()] && c.can_step(d) && !(#[trigger] g.conn(c, d)).blocked
            ==> vis[c.stepped(d).idx()]
}

/// As `visited_closed`, except that cells still on the traversal stack are
/// not yet required to be closed.
spec fn visited_closed_except(vis: Seq<bool>, stack: Seq<GridCoords>, g: Grid) -> bool {
    forall|c: GridCoords, d: Direction|
        c.in_grid() && vis[c.idx()] && !stack.contains(c) && c.can_step(d) && !(#[trigger] g.conn(
            c,
            d,
        )).blocked ==> vis[c.stepped(d).idx()]
}

/// Every two visited cells joined by an edge open on both sides are joined
/// by a chain of carved passages.
pub open spec fn visited_component_connected(vis: Seq<bool>, g: Grid) -> bool {
    forall|a: GridCoords, d: Direction|
        a.in_grid() && vis[a.idx()] && #[trigger] open_adjacent(g, a, d) && vis[a.stepped(
            d,
        ).idx()] ==> reachable_connected(g, a, a.stepped(d))
}

/// The cell whose row-major position is `i`.
pub open spec fn coords_of_index(i: int) -> GridCoords {
    GridCoords { x: (i % 8) as usize, y: (i / 8) as usize }
}

/// The direction whose position in a cell's connection table is `i`.
pub open spec fn dir_of_index(i: int) -> Direction {
    if i == 0 {
        Direction::Right
    } else if i == 1 {
        Direction::Up
    } else if i == 2 {
        Direction::Left
    } else {
        Direction::Down
    }
}

/// Slot `k` of the grid's 256 interior edge records (four per cell) carries
/// an open passage.
pub open spec fn slot_connected(g: Grid, k: int) -> bool {
    let c = coords_of_index(k / 4);
    let d = dir_of_index(k % 4);
    c.can_step(d) && g.conn(c, d).connected
}

/// How many of the first `k` edge records carry an open passage.
pub open spec fn connected_slots_up_to(g: Grid, k: int) -> nat
    decreases k,
{
    if k <= 0 {
        0
    } else {
        connected_slots_up_to(g, k - 1) + (if slot_connected(g, k - 1) {
            1nat
        } else {
            0nat
        })
    }
}

/// How many interior edge records of the grid carry an open passage. Every
/// passage is recorded symmetrically on its two facing records, so a grid
/// with symmetric connections holds twice as many connected records as
/// passages.
pub open spec fn connected_slot_count(g: Grid) -> nat {
    connected_slots_up_to(g, 4 * CELL_COUNT)
}

/// Both endpoints of every recorded passage have been visited.
pub open spec fn edges_inside_visited(vis: Seq<bool>, g: Grid) -> bool {
    forall|c: GridCoords, d: Direction|
        c.can_step(d) && (#[trigger] g.conn(c, d)).connected ==> vis[c.idx()] && vis[c.stepped(
            d,
        ).idx()]
}

/// No interior edge of the grid is walled off on either side.
pub open spec fn interior_unblocked(g: Grid) -> bool {
    forall|c: GridCoords, d: Direction| c.can_step(d) ==> !(#[trigger] g.conn(c, d)).blocked
}

/// No interior edge of the grid carries a passage yet.
pub open spec fn interior_unconnected(g: Grid) -> bool {
    forall|c: GridCoords, d: Direction| c.can_step(d) ==> !(#[trigger] g.conn(c, d)).connected
}

/// Every wall is recorded on both facing edge records identically.
pub open spec fn wall_symmetric(g: Grid) -> bool {
    forall|c: GridCoords, d: Direction|
        c.can_step(d) ==> (#[trigger] g.conn(c, d)).blocked == g.conn(
            c.stepped(d),
            d.opposite(),
        ).blocked
}

/// Every recorded passage crosses an edge open on both sides.
pub open spec fn connections_open(g: Grid) -> bool {
    forall|c: GridCoords, d: Direction|
        c.can_step(d) && (#[trigger] g.conn(c, d)).connected ==> !g.conn(c, d).blocked && !g.conn(
            c.stepped(d),
            d.opposite(),
        ).blocked
}

/// Some chain of edges open on both sides joins `a` to `b`.
pub open spec fn reachable_open(g: Grid, a: GridCoords, b: GridCoords) -> bool {
    exists|n: nat| reach_open(g, a, b, n)
}

/// The position of a cell in the carver's scan order (column-major, bottom
/// to top).
pub open spec fn scan_index(c: GridCoords) -> int {
    c.x * GRID_SIZE + c.y
}

/// The cell at position `i` of the carver's scan order.
pub open spec fn scan_coords(i: int) -> GridCoords {
    GridCoords { x: (i / 8) as usize, y: (i % 8) as usize }
}

/// No cell scanned earlier can reach `c` through edges open on both sides:
/// `c` is the first cell of its open component that the scan meets.
pub open spec fn is_component_root(g: Grid, c: GridCoords) -> bool {
    forall|b: GridCoords|
        b.in_grid() && scan_index(b) < scan_index(c) ==> !(#[trigger] reachable_open(g, b, c))
}

/// How many open components have their first cell among the first `k` scan
/// positions.
pub open spec fn component_count_up_to(g: Grid, k: int) -> nat
    decreases k,
{
    if k <= 0 {
        0
    } else {
        component_count_up_to(g, k - 1) + (if is_component_root(g, scan_coords(k - 1)) {
            1nat
        } else {
            0nat
        })
    }
}

/// The number of components that the grid's walls cut it into: cells count
/// toward one component exactly when a chain of edges open on both sides
/// joins them.
pub open spec fn open_component_count(g: Grid) -> nat {
    component_count_up_to(g, CELL_COUNT as int)
}

/// Open reachability depends on the walls alone: it carries over to any
/// grid whose edges hold the same wall state.
proof fn lemma_reach_open_same_blocked(ga: Grid, gb: Grid, a: GridCoords, b: GridCoords, n: nat)
    requires
        forall|c: GridCoords, d: Direction|
            c.can_step(d) ==> (#[trigger] ga.conn(c, d)).blocked == gb.conn(c, d).blocked,
        reach_open(ga, a, b, n),
    ensures
        reach_open(gb, a, b, n),
    decreases n,
{
    if a != b {
        let d = choose|d: Direction|
            #[trigger] open_adjacent(ga, a, d) && reach_open(ga, a.stepped(d), b, (n - 1) as nat);
        let m = a.stepped(d);
        assert(ga.conn(a, d).blocked == gb.conn(a, d).blocked);
        assert(ga.conn(m, d.opposite()).blocked == gb.conn(m, d.opposite()).blocked);
        assert(m.can_step(d.opposite()));
        lemma_reach_open_same_blocked(ga, gb, m, b, (n - 1) as nat);
        assert(open_adjacent(gb, a, d) && reach_open(gb, m, b, (n - 1) as nat));
    }
}

/// A closed visit table that holds one cell holds everything that cell can
/// reach through open edges.
proof fn lemma_closed_lift(vis: Seq<bool>, g: Grid, a: GridCoords, b: GridCoords, n: nat)
    requires
        visited_closed(vis, g),
        a.in_grid(),
        vis[a.idx()],
        reach_open(g, a, b, n),
    ensures
        vis[b.idx()],
    decreases n,
{
    if a != b {
        let d = choose|d: Direction|
            #[trigger] open_adjacent(g, a, d) && reach_open(g, a.stepped(d), b, (n - 1) as nat);
        assert(vis[a.stepped(d).idx()]);
        lemma_closed_lift(vis, g, a.stepped(d), b, (n - 1) as nat);
    }
}

/// The number of open components depends on the walls alone: it is the same
/// on any grid whose edges hold the same wall state.
pub proof fn lemma_component_count_same_blocked(ga: Grid, gb: Grid, k: int)
    requires
        forall|c: GridCoords, d: Direction|
            c.can_step(d) ==> (#[trigger] ga.conn(c, d)).blocked == gb.conn(c, d).blocked,
        0 <= k <= CELL_COUNT,
    ensures
        component_count_up_to(ga, k) == component_count_up_to(gb, k),
    decreases k,
{
    if k > 0 {
        lemma_component_count_same_blocked(ga, gb, k - 1);
        let c = scan_coords(k - 1);
        if is_component_root(ga, c) {
            assert forall|b: GridCoords|
                b.in_grid() && scan_index(b) < scan_index(c) implies !(#[trigger] reachable_open(
                gb,
                b,
                c,
            )) by {
                if reachable_open(gb, b, c) {
                    let n = choose|n: nat| reach_open(gb, b, c, n);
                    lemma_reach_open_same_blocked(gb, ga, b, c, n);
                    assert(reach_open(ga, b, c, n));
                    assert(!reachable_open(ga, b, c));
                }
            }
            assert(is_component_root(gb, c));
        }
        if is_component_root(gb, c) {
            assert forall|b: GridCoords|
                b.in_grid() && scan_index(b) < scan_index(c) implies !(#[trigger] reachable_open(
                ga,
                b,
                c,
            )) by {
                if reachable_open(ga, b, c) {
                    let n = choose|n: nat| reach_open(ga, b, c, n);
                    lemma_reach_open_same_blocked(ga, gb, b, c, n);
                    assert(reach_open(gb, b, c, n));
                    assert(!reachable_open(gb, b, c));
                }
            }
            assert(is_component_root(ga, c));
        }
        assert(is_component_root(ga, c) == is_component_root(gb, c));
    }
}

/// One scan step of the whole-grid carve over a cell that was still
/// unvisited: the cell is the first of a fresh open component, the visit
/// table absorbs exactly that component, and the passage count grows by one
/// less than the cells absorbed.
proof fn lemma_fill_step_fresh(
    g0: Grid,
    g_mid: Grid,
    g_new: Grid,
    v_mid: Seq<bool>,
    v_new: Seq<bool>,
    coords: GridCoords,
    pos: int,
)
    requires
        wall_symmetric(g0),
        carved_from(g0, g_mid),
        carved_from(g_mid, g_new),
        coords.in_grid(),
        pos == scan_index(coords),
        0 <= pos < CELL_COUNT,
        v_mid.len() == CELL_COUNT,
        v_new.len() == CELL_COUNT,
        !v_mid[coords.idx()],
        v_new[coords.idx()],
        wall_symmetric(g_mid),
        forall|c: GridCoords|
            c.in_grid() && #[trigger] v_mid[c.idx()] ==> exists|b: GridCoords|
                b.in_grid() && scan_index(b) < pos && reachable_open(g0, b, c),
        forall|b: GridCoords, c: GridCoords|
            b.in_grid() && c.in_grid() && scan_index(b) < pos && #[trigger] reachable_open(
                g0,
                b,
                c,
            ) ==> v_mid[c.idx()],
        connected_slot_count(g_mid) + 2 * count_unvisited(v_mid) + 2 * component_count_up_to(
            g0,
            pos,
        ) == 2 * CELL_COUNT,
        forall|i: int| 0 <= i < CELL_COUNT && v_mid[i] ==> v_new[i],
        forall|c: GridCoords|
            c.in_grid() && v_new[c.idx()] && !v_mid[c.idx()] ==> reachable_open(g_mid, coords, c),
        visited_closed(v_new, g_new),
        connected_slot_count(g_new) + 2 * count_unvisited(v_new) + 2int == connected_slot_count(
            g_mid,
        ) + 2 * count_unvisited(v_mid),
    ensures
        wall_symmetric(g_new),
        forall|c: GridCoords|
            c.in_grid() && #[trigger] v_new[c.idx()] ==> exists|b: GridCoords|
                b.in_grid() && scan_index(b) < pos + 1 && reachable_open(g0, b, c),
        forall|b: GridCoords, c: GridCoords|
            b.in_grid() && c.in_grid() && scan_index(b) < pos + 1 && #[trigger] reachable_open(
                g0,
                b,
                c,
            ) ==> v_new[c.idx()],
        connected_slot_count(g_new) + 2 * count_unvisited(v_new) + 2 * component_count_up_to(
            g0,
            pos + 1,
        ) == 2 * CELL_COUNT,
{
    assert forall|c: GridCoords, d: Direction| c.can_step(d) implies (#[trigger] g_new.conn(
        c,
        d,
    )).blocked == g_new.conn(c.stepped(d), d.opposite()).blocked by {
        let m = c.stepped(d);
        assert(m.can_step(d.opposite()));
        assert(g_new.conn(c, d).blocked == g_mid.conn(c, d).blocked);
        assert(g_new.conn(m, d.opposite()).blocked == g_mid.conn(m, d.opposite()).blocked);
    }
    assert forall|c: GridCoords, d: Direction| c.can_step(d) implies (#[trigger] g_mid.conn(
        c,
        d,
    )).blocked == g0.conn(c, d).blocked by {}
    assert forall|c: GridCoords, d: Direction| c.can_step(d) implies (#[trigger] g_new.conn(
        c,
        d,
    )).blocked == g0.conn(c, d).blocked by {
        assert(g_new.conn(c, d).blocked == g_mid.conn(c, d).blocked);
    }
    assert(pos / 8 == coords.x && pos % 8 == coords.y);
    assert(scan_coords(pos) == coords);

    // The cell the scan just carved from opens a fresh component: nothing
    // scanned earlier reaches it.
    assert forall|b: GridCoords|
        b.in_grid() && scan_index(b) < scan_index(coords) implies !(#[trigger] reachable_open(
        g0,
        b,
        coords,
    )) by {
        if reachable_open(g0, b, coords) {
            assert(v_mid[coords.idx()]);
        }
    }
    assert(is_component_root(g0, coords));
    assert(component_count_up_to(g0, pos + 1) == component_count_up_to(g0, pos) + 1);

    assert forall|c: GridCoords| c.in_grid() && #[trigger] v_new[c.idx()] implies exists|
        b: GridCoords,
    |
        b.in_grid() && scan_index(b) < pos + 1 && reachable_open(g0, b, c) by {
        if v_mid[c.idx()] {
            let b = choose|b: GridCoords|
                b.in_grid() && scan_index(b) < pos && reachable_open(g0, b, c);
            assert(b.in_grid() && scan_index(b) < pos + 1 && reachable_open(g0, b, c));
        } else {
            assert(reachable_open(g_mid, coords, c));
            let n = choose|n: nat| reach_open(g_mid, coords, c, n);
            lemma_reach_open_same_blocked(g_mid, g0, coords, c, n);
            assert(reach_open(g0, coords, c, n));
            assert(coords.in_grid() && scan_index(coords) < pos + 1 && reachable_open(
                g0,
                coords,
                c,
            ));
        }
    }

    assert forall|c2: GridCoords, d2: Direction|
        c2.in_grid() && v_new[c2.idx()] && c2.can_step(d2) && !(#[trigger] g0.conn(
            c2,
            d2,
        )).blocked implies v_new[c2.stepped(d2).idx()] by {
        assert(g_new.conn(c2, d2).blocked == g0.conn(c2, d2).blocked);
    }
    assert forall|b: GridCoords, c: GridCoords|
        b.in_grid() && c.in_grid() && scan_index(b) < pos + 1 && #[trigger] reachable_open(
        g0,
        b,
        c,
    ) implies v_new[c.idx()] by {
        if scan_index(b) < pos {
            assert(v_mid[c.idx()]);
        } else {
            assert(b.x == pos / 8 && b.y == pos % 8);
            assert(b == coords);
            let n = choose|n: nat| reach_open(g0, b, c, n);
            lemma_closed_lift(v_new, g0, coords, c, n);
        }
    }
}

/// One scan step over a cell that was already visited: everything it can
/// reach was absorbed when its component was carved, and nothing changes.
proof fn lemma_fill_step_skip(g0: Grid, g: Grid, vis: Seq<bool>, coords: GridCoords, pos: int)
    requires
        carved_from(g0, g),
        coords.in_grid(),
        pos == scan_index(coords),
        0 <= pos < CELL_COUNT,
        vis.len() == CELL_COUNT,
        vis[coords.idx()],
        visited_closed(vis, g),
        forall|c: GridCoords|
            c.in_grid() && #[trigger] vis[c.idx()] ==> exists|b: GridCoords|
                b.in_grid() && scan_index(b) < pos && reachable_open(g0, b, c),
        forall|b: GridCoords, c: GridCoords|
            b.in_grid() && c.in_grid() && scan_index(b) < pos && #[trigger] reachable_open(
                g0,
                b,
                c,
            ) ==> vis[c.idx()],
        connected_slot_count(g) + 2 * count_unvisited(vis) + 2 * component_count_up_to(g0, pos)
            == 2 * CELL_COUNT,
    ensures
        forall|c: GridCoords|
            c.in_grid() && #[trigger] vis[c.idx()] ==> exists|b: GridCoords|
                b.in_grid() && scan_index(b) < pos + 1 && reachable_open(g0, b, c),
        forall|b: GridCoords, c: GridCoords|
            b.in_grid() && c.in_grid() && scan_index(b) < pos + 1 && #[trigger] reachable_open(
                g0,
                b,
                c,
            ) ==> vis[c.idx()],
        connected_slot_count(g) + 2 * count_unvisited(vis) + 2 * component_count_up_to(
            g0,
            pos + 1,
        ) == 2 * CELL_COUNT,
{
    assert(pos / 8 == coords.x && pos % 8 == coords.y);
    assert(scan_coords(pos) == coords);

    // The scanned cell was absorbed earlier, so it is not the first cell of
    // a fresh component and the component count does not move.
    let b0 = choose|b: GridCoords|
        b.in_grid() && scan_index(b) < pos && reachable_open(g0, b, coords);
    assert(!is_component_root(g0, coords));
    assert(component_count_up_to(g0, pos + 1) == component_count_up_to(g0, pos));

    assert forall|c: GridCoords| c.in_grid() && #[trigger] vis[c.idx()] implies exists|
        b: GridCoords,
    |
        b.in_grid() && scan_index(b) < pos + 1 && reachable_open(g0, b, c) by {
        let b = choose|b: GridCoords| b.in_grid() && scan_index(b) < pos && reachable_open(g0, b, c);
        assert(b.in_grid() && scan_index(b) < pos + 1 && reachable_open(g0, b, c));
    }

    assert forall|c2: GridCoords, d2: Direction|
        c2.in_grid() && vis[c2.idx()] && c2.can_step(d2) && !(#[trigger] g0.conn(
            c2,
            d2,
        )).blocked implies vis[c2.stepped(d2).idx()] by {
        assert(g.conn(c2, d2).blocked == g0.conn(c2, d2).blocked);
    }
    assert forall|b: GridCoords, c: GridCoords|
        b.in_grid() && c.in_grid() && scan_index(b) < pos + 1 && #[trigger] reachable_open(
        g0,
        b,
        c,
    ) implies vis[c.idx()] by {
        if scan_index(b) < pos {
        } else {
            assert(b.x == pos / 8 && b.y == pos % 8);
            assert(b == coords);
            let n = choose|n: nat| reach_open(g0, b, c, n);
            lemma_closed_lift(vis, g0, coords, c, n);
        }
    }
}

/// An all-false visit table reports every cell unvisited.
proof fn lemma_count_unvisited_all_false(s: Seq<bool>)
    requires
        forall|i: int| 0 <= i < s.len() ==> !s[i],
    ensures
        count_unvisited(s) == s.len(),
    decreases s.len(),
{
    if s.len() > 0 {
        lemma_count_unvisited_all_false(s.drop_last());
    }
}

/// An all-true visit table reports no cell unvisited.
proof fn lemma_count_unvisited_all_true(s: Seq<bool>)
    requires
        forall|i: int| 0 <= i < s.len() ==> s[i],
    ensures
        count_unvisited(s) == 0,
    decreases s.len(),
{
    if s.len() > 0 {
        lemma_count_unvisited_all_true(s.drop_last());
    }
}

/// A grid with no interior passages has no connected edge records.
proof fn lemma_count_slots_zero(g: Grid, k: int)
    requires
        interior_unconnected(g),
        0 <= k <= 4 * CELL_COUNT,
    ensures
        connected_slots_up_to(g, k) == 0,
    decreases k,
{
    if k > 0 {
        lemma_count_slots_zero(g, k - 1);
        let c = coords_of_index((k - 1) / 4);
        let d = dir_of_index((k - 1) % 4);
        if c.can_step(d) {
            assert(!g.conn(c, d).connected);
        }
    }
}

/// Opening exactly the two facing records of one passage raises the
/// connected record count by exactly two.
proof fn lemma_count_two_slots(g1: Grid, g2: Grid, k1: int, k2: int, k: int)
    requires
        0 <= k <= 4 * CELL_COUNT,
        0 <= k1 < 4 * CELL_COUNT,
        0 <= k2 < 4 * CELL_COUNT,
        k1 != k2,
        !slot_connected(g1, k1) && slot_connected(g2, k1),
        !slot_connected(g1, k2) && slot_connected(g2, k2),
        forall|j: int|
            0 <= j < 4 * CELL_COUNT && j != k1 && j != k2 ==> #[trigger] slot_connected(g1, j)
                == slot_connected(g2, j),
    ensures
        connected_slots_up_to(g2, k) == connected_slots_up_to(g1, k) + (if k1 < k {
            1int
        } else {
            0int
        }) + (if k2 < k {
            1int
        } else {
            0int
        }),
    decreases k,
{
    if k > 0 {
        lemma_count_two_slots(g1, g2, k1, k2, k - 1);
        if k - 1 != k1 && k - 1 != k2 {
            assert(slot_connected(g1, k - 1) == slot_connected(g2, k - 1));
        }
    }
}

/// On a grid with no interior walls, a closed visit table that holds the
/// origin holds every cell: walk right along the bottom row and then up.
proof fn lemma_closed_covers(vis: Seq<bool>, g: Grid, c: GridCoords)
    requires
        visited_closed(vis, g),
        interior_unblocked(g),
        vis[GridCoords { x: 0, y: 0 }.idx()],
        c.in_grid(),
    ensures
        vis[c.idx()],
    decreases c.x + c.y,
{
    if c.x > 0 {
        let p = GridCoords { x: (c.x - 1) as usize, y: c.y };
        lemma_closed_covers(vis, g, p);
        assert(p.can_step(Direction::Right) && p.stepped(Direction::Right) == c);
        assert(!g.conn(p, Direction::Right).blocked);
    } else if c.y > 0 {
        let p = GridCoords { x: c.x, y: (c.y - 1) as usize };
        lemma_closed_covers(vis, g, p);
        assert(p.can_step(Direction::Up) && p.stepped(Direction::Up) == c);
        assert(!g.conn(p, Direction::Up).blocked);
    }
}

/// Reaching within `n` steps also reaches within any larger budget.
proof fn lemma_reach_fuel_mono(g: Grid, a: GridCoords, b: GridCoords, n: nat, m: nat)
    requires
        reach_conn(g, a, b, n),
        n <= m,
    ensures
        reach_conn(g, a, b, m),
    decreases n,
{
    if a != b {
        let d = choose|d: Direction|
            a.can_step(d) && (#[trigger] g.conn(a, d)).connected && reach_conn(
                g,
                a.stepped(d),
                b,
                (n - 1) as nat,
            );
        lemma_reach_fuel_mono(g, a.stepped(d), b, (n - 1) as nat, (m - 1) as nat);
        assert(a.can_step(d) && g.conn(a, d).connected && reach_conn(
            g,
            a.stepped(d),
            b,
            (m - 1) as nat,
        ));
    }
}

/// A chain of passages survives any carving that only adds passages.
proof fn lemma_reach_grows(g1: Grid, g2: Grid, a: GridCoords, b: GridCoords, n: nat)
    requires
        connections_preserved(g1, g2),
        reach_conn(g1, a, b, n),
    ensures
        reach_conn(g2, a, b, n),
    decreases n,
{
    if a != b {
        let d = choose|d: Direction|
            a.can_step(d) && (#[trigger] g1.conn(a, d)).connected && reach_conn(
                g1,
                a.stepped(d),
                b,
                (n - 1) as nat,
            );
        lemma_reach_grows(g1, g2, a.stepped(d), b, (n - 1) as nat);
        assert(a.can_step(d) && g2.conn(a, d).connected && reach_conn(
            g2,
            a.stepped(d),
            b,
            (n - 1) as nat,
        ));
    }
}

/// Chains of passages compose.
proof fn lemma_reach_trans(g: Grid, a: GridCoords, b: GridCoords, c: GridCoords, n: nat, m: nat)
    requires
        reach_conn(g, a, b, n),
        reach_conn(g, b, c, m),
    ensures
        reach_conn(g, a, c, (n + m) as nat),
    decreases n,
{
    if a == b {
        lemma_reach_fuel_mono(g, b, c, m, (n + m) as nat);
    } else {
        let d = choose|d: Direction|
            a.can_step(d) && (#[trigger] g.conn(a, d)).connected && reach_conn(
                g,
                a.stepped(d),
                b,
                (n - 1) as nat,
            );
        lemma_reach_trans(g, a.stepped(d), b, c, (n - 1) as nat, m);
        assert(a.can_step(d) && g.conn(a, d).connected && reach_conn(
            g,
            a.stepped(d),
            c,
            (n + m - 1) as nat,
        ));
    }
}

/// On a grid with symmetric passages, a chain from `a` to `b` can be walked
/// backwards.
proof fn lemma_reach_sym(g: Grid, a: GridCoords, b: GridCoords, n: nat)
    requires
        g.connection_symmetry(),
        reach_conn(g, a, b, n),
    ensures
        reach_conn(g, b, a, n),
    decreases n,
{
    if a != b {
        let d = choose|d: Direction|
            a.can_step(d) && (#[trigger] g.conn(a, d)).connected && reach_conn(
                g,
                a.stepped(d),
                b,
                (n - 1) as nat,
            );
        let m = a.stepped(d);
        lemma_reach_sym(g, m, b, (n - 1) as nat);
        assert(g.conn(m, d.opposite()).connected);
        assert(m.can_step(d.opposite()) && m.stepped(d.opposite()) == a);
        assert(reach_conn(g, m, a, 1nat)) by {
            assert(m.can_step(d.opposite()) && g.conn(m, d.opposite()).connected && reach_conn(
                g,
                a,
                a,
                0nat,
            ));
        }
        lemma_reach_trans(g, b, m, a, (n - 1) as nat, 1nat);
        lemma_reach_fuel_mono(g, b, a, n, n);
    }
}

/// Every cell reaches itself.
proof fn lemma_rc_refl(g: Grid, a: GridCoords)
    ensures
        reachable_connected(g, a, a),
{
    assert(reach_conn(g, a, a, 0nat));
}

/// A reachable cell with one more recorded passage out of it reaches the
/// cell across that passage.
proof fn lemma_rc_extend(g: Grid, a: GridCoords, b: GridCoords, d: Direction)
    requires
        reachable_connected(g, a, b),
        b.can_step(d),
        g.conn(b, d).connected,
    ensures
        reachable_connected(g, a, b.stepped(d)),
{
    let n = choose|n: nat| reach_conn(g, a, b, n);
    assert(reach_conn(g, b, b.stepped(d), 1nat)) by {
        assert(b.can_step(d) && g.conn(b, d).connected && reach_conn(
            g,
            b.stepped(d),
            b.stepped(d),
            0nat,
        ));
    }
    lemma_reach_trans(g, a, b, b.stepped(d), n, 1nat);
}

/// Reachability survives any carving that only adds passages.
proof fn lemma_rc_grows(g1: Grid, g2: Grid, a: GridCoords, b: GridCoords)
    requires
        connections_preserved(g1, g2),
        reachable_connected(g1, a, b),
    ensures
        reachable_connected(g2, a, b),
{
    let n = choose|n: nat| reach_conn(g1, a, b, n);
    lemma_reach_grows(g1, g2, a, b, n);
    assert(reach_conn(g2, a, b, n));
}

/// On a grid with symmetric passages, reachability is symmetric.
proof fn lemma_rc_sym(g: Grid, a: GridCoords, b: GridCoords)
    requires
        g.connection_symmetry(),
        reachable_connected(g, a, b),
    ensures
        reachable_connected(g, b, a),
{
    let n = choose|n: nat| reach_conn(g, a, b, n);
    lemma_reach_sym(g, a, b, n);
    assert(reach_conn(g, b, a, n));
}

/// Reachability composes.
proof fn lemma_rc_trans(g: Grid, a: GridCoords, b: GridCoords, c: GridCoords)
    requires
        reachable_connected(g, a, b),
        reachable_connected(g, b, c),
    ensures
        reachable_connected(g, a, c),
{
    let n = choose|n: nat| reach_conn(g, a, b, n);
    let m = choose|m: nat| reach_conn(g, b, c, m);
    lemma_reach_trans(g, a, b, c, n, m);
    assert(reach_conn(g, a, c, (n + m) as nat));
}

/// The spanning property of carving, lifted from adjacent pairs to whole
/// components: on a grid where every edge open on both sides joins two cells
/// already linked by carved passages, every two cells joined by any chain of
/// such open edges are linked by carved passages. Combined with the carver's
/// own guarantee over adjacent pairs, every cell reachable from another
/// through non-blocked edges is connected to it after full carving.
pub proof fn lemma_open_components_connected(g: Grid, a: GridCoords, b: GridCoords, n: nat)
    requires
        forall|c: GridCoords, d: Direction|
            #[trigger] open_adjacent(g, c, d) ==> reachable_connected(g, c, c.stepped(d)),
        reach_open(g, a, b, n),
    ensures
        reachable_connected(g, a, b),
    decreases n,
{
    if a == b {
        lemma_rc_refl(g, a);
    } else {
        let d = choose|d: Direction|
            #[trigger] open_adjacent(g, a, d) && reach_open(g, a.stepped(d), b, (n - 1) as nat);
        lemma_open_components_connected(g, a.stepped(d), b, (n - 1) as nat);
        lemma_rc_trans(g, a, a.stepped(d), b);
    }
}

/// On a grid whose walls are symmetric and whose passages all cross open
/// edges, any amount of carving keeps every passage on an open edge: a new
/// passage only ever crosses an edge the carver found unblocked, and the
/// mirror record holds the same wall state.
proof fn lemma_carved_connections_open(g0: Grid, g1: Grid)
    requires
        connections_open(g0),
        wall_symmetric(g0),
        carved_from(g0, g1),
    ensures
        connections_open(g1),
{
    assert forall|c: GridCoords, d: Direction|
        c.can_step(d) && (#[trigger] g1.conn(c, d)).connected implies !g1.conn(c, d).blocked
        && !g1.conn(c.stepped(d), d.opposite()).blocked by {
        let m = c.stepped(d);
        assert(g1.conn(c, d).blocked == g0.conn(c, d).blocked);
        assert(g1.conn(m, d.opposite()).blocked == g0.conn(m, d.opposite()).blocked);
        if g0.conn(c, d).connected {
        } else {
            assert(!g0.conn(c, d).blocked || !g0.conn(m, d.opposite()).blocked);
            assert(g0.conn(m, d.opposite()).blocked == g0.conn(c, d).blocked);
        }
    }
}

/// A chain of passages on a grid whose passages all cross open edges is a
/// chain of open edges on any grid with the same walls.
proof fn lemma_reach_conn_to_open(gf: Grid, g0: Grid, a: GridCoords, b: GridCoords, n: nat)
    requires
        connections_open(gf),
        same_walls(g0, gf),
        reach_conn(gf, a, b, n),
    ensures
        reach_open(g0, a, b, n),
    decreases n,
{
    if a != b {
        let d = choose|d: Direction|
            a.can_step(d) && (#[trigger] gf.conn(a, d)).connected && reach_conn(
                gf,
                a.stepped(d),
                b,
                (n - 1) as nat,
            );
        let m = a.stepped(d);
        assert(gf.conn(a, d).blocked == g0.conn(a, d).blocked);
        assert(gf.conn(m, d.opposite()).blocked == g0.conn(m, d.opposite()).blocked);
        assert(open_adjacent(g0, a, d));
        lemma_reach_conn_to_open(gf, g0, m, b, (n - 1) as nat);
        assert(open_adjacent(g0, a, d) && reach_open(g0, m, b, (n - 1) as nat));
    }
}

/// Carving leaves every outward-facing boundary edge entirely untouched: it
/// only ever opens passages between two in-grid cells.
pub proof fn lemma_carving_keeps_boundary(pre: Grid, post: Grid, c: GridCoords, d: Direction)
    requires
        carved_from(pre, post),
        crate::grid::boundary_facing(c, d),
    ensures
        post.conn(c, d) == pre.conn(c, d),
{
    let p = pre.conn(c, d);
    let q = post.conn(c, d);
    if !p.connected && q.connected {
        assert(c.can_step(d));
    }
    assert(q.connected == p.connected && q.blocked == p.blocked && q.is_solution_connection
        == p.is_solution_connection && q.is_maze_exit == p.is_maze_exit && q.split_bits
        == p.split_bits);
}

/// One `connect` call along an unblocked edge is a carving step.
proof fn lemma_connect_carves(pre: Grid, post: Grid, a: GridCoords, b: GridCoords)
    requires
        pre.wf(),
        post.wf(),
        a.in_grid(),
        b.in_grid(),
        GridCoords::is_adjacent(a, b),
        !pre.conn(a, GridCoords::dir_between(a, b).unwrap()).blocked,
        ({
            let d = GridCoords::dir_between(a, b).unwrap();
            &&& post.conn(a, d) == pre.conn(a, d).with_connected()
            &&& post.conn(b, d.opposite()) == pre.conn(b, d.opposite()).with_connected()
            &&& forall|c: GridCoords, dd: Direction|
                c.in_grid() && !(c == a && dd == d) && !(c == b && dd == d.opposite())
                    ==> #[trigger] post.conn(c, dd) == pre.conn(c, dd)
        }),
    ensures
        carved_from(pre, post),
{
    let d = GridCoords::dir_between(a, b).unwrap();
    lemma_dir_between_stepped(a, b, d);
    assert forall|c: GridCoords, dd: Direction|
        c.in_grid() && !pre.conn(c, dd).connected && #[trigger] post.conn(c, dd).connected implies {
        &&& c.can_step(dd)
        &&& (!pre.conn(c, dd).blocked || !pre.conn(c.stepped(dd), dd.opposite()).blocked)
    } by {
        if c == a && dd == d {
            assert(c.can_step(dd));
        } else {
            assert(c == b && dd == d.opposite());
            assert(c.stepped(dd) == a && dd.opposite() == d);
        }
    }
}

/// How many cells the visit table still reports unvisited.
pub open spec fn count_unvisited(s: Seq<bool>) -> nat
    decreases s.len(),
{
    if s.len() == 0 {
        0
    } else {
        count_unvisited(s.drop_last()) + (if s.last() {
            0nat
        } else {
            1nat
        })
    }
}

/// Marking one cell visited lowers the unvisited count exactly when the cell
/// was unvisited before.
proof fn lemma_count_unvisited_update(s: Seq<bool>, i: int)
    requires
        0 <= i < s.len(),
    ensures
        count_unvisited(s.update(i, true)) == count_unvisited(s) - (if s[i] {
            0int
        } else {
            1int
        }),
    decreases s.len(),
{
    let t = s.update(i, true);
    if i == s.len() - 1 {
        assert(t.drop_last() =~= s.drop_last());
    } else {
        assert(t.drop_last() =~= s.drop_last().update(i, true));
        lemma_count_unvisited_update(s.drop_last(), i);
    }
}

/// Randomized depth-first maze carving over a grid with pre-set walls.
pub struct DFSMaze {
    pub visited: Vec<bool>,
    pub stack: Vec<GridCoords>,
}

impl DFSMaze {
    /// One visit flag per grid cell.
    pub open spec fn wf(self) -> bool {
        self.visited@.len() == CELL_COUNT
    }

    pub open spec fn is_visited(self, c: GridCoords) -> bool {
        self.visited@[c.idx()]
    }

    pub fn new() -> (r: Self)
        ensures
            r.wf(),
            r.stack@.len() == 0,
            forall|i: int| 0 <= i < CELL_COUNT ==> !r.visited@[i],
    {
        Self { visited: make_flag_table(CELL_COUNT), stack: Vec::new() }
    }

    /// Carve one connected component by randomized depth-first traversal from
    /// `start_cell`, never opening an edge whose record is walled off on the
    /// side it steps from, and never touching anything but `connected` flags.
    #[verifier::rlimit(100)]
    pub fn make_maze(&mut self, grid: &mut Grid, start_cell: GridCoords)
        requires
            old(self).wf(),
            old(grid).wf(),
            start_cell.in_grid(),
        ensures
            final(self).wf(),
            final(grid).wf(),
            final(self).stack@.len() == 0,
            carved_from(*old(grid), *final(grid)),
            old(grid).connection_symmetry() ==> final(grid).connection_symmetry(),
            forall|i: int|
                0 <= i < CELL_COUNT && old(self).visited@[i] ==> final(self).visited@[i],
            final(self).visited@[start_cell.idx()],
            forall|c: GridCoords|
                c.in_grid() && final(self).visited@[c.idx()] && !old(self).visited@[c.idx()]
                    ==> reachable_connected(*final(grid), start_cell, c),
            visited_closed(old(self).visited@, *old(grid)) ==> visited_closed(
                final(self).visited@,
                *final(grid),
            ),
            edges_inside_visited(old(self).visited@, *old(grid)) ==> {
                &&& edges_inside_visited(final(self).visited@, *final(grid))
                &&& connected_slot_count(*final(grid)) + 2 * count_unvisited(final(self).visited@)
                    + (if old(self).visited@[start_cell.idx()] {
                    0int
                } else {
                    2int
                }) == connected_slot_count(*old(grid)) + 2 * count_unvisited(old(self).visited@)
            },
            connections_open(*old(grid)) && wall_symmetric(*old(grid)) ==> {
                &&& connections_open(*final(grid))
                &&& forall|c: GridCoords|
                    c.in_grid() && final(self).visited@[c.idx()] && !old(self).visited@[c.idx()]
                        ==> reachable_open(*old(grid), start_cell, c)
            },
    {
        let ghost g0 = *grid;
        let ghost v0 = self.visited@;
        self.stack.clear();
        self.stack.push(start_cell);
        let ghost vis_start = self.visited@;
        let si = start_cell.to_index();
        self.visited[si] = true;
        proof {
            lemma_count_unvisited_update(vis_start, si as int);
            lemma_rc_refl(*grid, start_cell);
            if edges_inside_visited(v0, g0) {
                assert forall|c: GridCoords, d: Direction|
                    c.can_step(d) && (#[trigger] grid.conn(c, d)).connected
                    implies self.visited@[c.idx()] && self.visited@[c.stepped(d).idx()] by {
                    assert(v0[c.idx()] && v0[c.stepped(d).idx()]);
                }
            }
            if visited_closed(v0, g0) {
                assert forall|c: GridCoords, d: Direction|
                    c.in_grid() && self.visited@[c.idx()] && !self.stack@.contains(c)
                        && c.can_step(d) && !(#[trigger] g0.conn(c, d)).blocked
                    implies self.visited@[c.stepped(d).idx()] by {
                    if c == start_cell {
                        assert(self.stack@[0] == c);
                        assert(false);
                    } else {
                        if c.idx() == start_cell.idx() {
                            crate::grid_coords::lemma_idx_injective(c, start_cell);
                        }
                        assert(v0[c.idx()]);
                        assert(v0[c.stepped(d).idx()]);
                    }
                }
            }
        }

        let ghost cu1 = count_unvisited(self.visited@);

        while self.stack.len() > 0
            invariant
                self.wf(),
                grid.wf(),
                start_cell.in_grid(),
                forall|j: int| 0 <= j < self.stack@.len() ==> (#[trigger] self.stack@[j]).in_grid(),
                self.visited@[start_cell.idx()],
                carved_from(g0, *grid),
                g0.connection_symmetry() ==> grid.connection_symmetry(),
                forall|i: int| 0 <= i < CELL_COUNT && v0[i] ==> self.visited@[i],
                forall|j: int|
                    0 <= j < self.stack@.len() ==> self.visited@[(#[trigger] self.stack@[j]).idx()],
                forall|j: int|
                    0 <= j < self.stack@.len() ==> reachable_connected(
                        *grid,
                        start_cell,
                        #[trigger] self.stack@[j],
                    ),
                forall|c: GridCoords|
                    c.in_grid() && #[trigger] self.visited@[c.idx()] && !v0[c.idx()]
                        ==> reachable_connected(*grid, start_cell, c),
                visited_closed(v0, g0) ==> visited_closed_except(self.visited@, self.stack@, g0),
                edges_inside_visited(v0, g0) ==> {
                    &&& edges_inside_visited(self.visited@, *grid)
                    &&& connected_slot_count(*grid) + 2 * count_unvisited(self.visited@)
                        == connected_slot_count(g0) + 2 * cu1
                },
            decreases count_unvisited(self.visited@), self.stack@.len(),
        {
            let ghost vis_entry = self.visited@;
            let ghost stack_entry = self.stack@;
            let current = self.stack[self.stack.len() - 1];
            let ci = current.to_index();

            let neighbors = current.get_neighbors();
            let mut unvisited_neighbors: Vec<GridCoords> = Vec::new();
            let ghost grid_snap = *grid;
            let ghost self_snap = *self;
            let mut k: usize = 0;
            while k < neighbors.len()
                invariant
                    *self == self_snap,
                    *grid == grid_snap,
                    self.wf(),
                    grid.wf(),
                    current.in_grid(),
                    k <= neighbors@.len(),
                    forall|j: int|
                        0 <= j < neighbors@.len() ==> (#[trigger] neighbors@[j]).in_grid()
                            && GridCoords::is_adjacent(current, neighbors@[j]),
                    forall|j: int|
                        0 <= j < unvisited_neighbors@.len() ==> {
                            let n = #[trigger] unvisited_neighbors@[j];
                            &&& n.in_grid()
                            &&& GridCoords::is_adjacent(current, n)
                            &&& !self.visited@[n.idx()]
                            &&& !grid.conn(current, GridCoords::dir_between(current, n).unwrap()).blocked
                        },
                    forall|j: int|
                        0 <= j < k ==> self.visited@[(#[trigger] neighbors@[j]).idx()] || grid.conn(
                            current,
                            GridCoords::dir_between(current, neighbors@[j]).unwrap(),
                        ).blocked || unvisited_neighbors@.contains(neighbors@[j]),
                decreases neighbors@.len() - k,
            {
                let n = neighbors[k];
                if !self.visited[n.to_index()] && grid.can_connect(current, n) {
                    let ghost prev = unvisited_neighbors@;
                    unvisited_neighbors.push(n);
                    proof {
                        assert(unvisited_neighbors@.last() == n);
                        assert forall|x: GridCoords| prev.contains(x)
                            implies unvisited_neighbors@.contains(x) by {
                            let i = choose|i: int| 0 <= i < prev.len() && prev[i] == x;
                            assert(unvisited_neighbors@[i] == x);
                        }
                    }
                }
                k += 1;
            }

            if unvisited_neighbors.len() == 0 {
                // Out of options, so backtrack. The cell leaving the stack
                // has had every reachable neighbor visited.
                let ghost stack_before = self.stack@;
                self.stack.pop();
                proof {
                    if visited_closed(v0, g0) {
                        assert forall|c: GridCoords, d: Direction|
                            c.in_grid() && self.visited@[c.idx()] && !self.stack@.contains(c)
                                && c.can_step(d) && !(#[trigger] g0.conn(c, d)).blocked
                            implies self.visited@[c.stepped(d).idx()] by {
                            if stack_before.contains(c) {
                                let i = choose|i: int|
                                    0 <= i < stack_before.len() && stack_before[i] == c;
                                if i < stack_before.len() - 1 {
                                    assert(self.stack@[i] == c);
                                    assert(self.stack@.contains(c));
                                } else {
                                    assert(c == current);
                                    let t = c.stepped(d);
                                    crate::grid_coords::lemma_neighbors_complete(c, d);
                                    let j = choose|j: int|
                                        0 <= j < neighbors@.len() && neighbors@[j] == t;
                                    assert(GridCoords::dir_between(current, t) == Some(d));
                                    assert(grid.conn(current, d).blocked == g0.conn(
                                        current,
                                        d,
                                    ).blocked);
                                    assert(!unvisited_neighbors@.contains(t));
                                    assert(self.visited@[t.idx()]);
                                }
                            }
                        }
                    }
                }
            } else {
                // Two roads diverged in a wood, and the generator picks one
                // uniformly at random.
                let rand_index = random_below(unvisited_neighbors.len());
                let neighbor = unvisited_neighbors[rand_index];
                let ghost grid_before = *grid;
                let ghost d = GridCoords::dir_between(current, neighbor).unwrap();
                let ghost vis_entry_push = self.visited@;
                grid.connect(current, neighbor);
                proof {
                    lemma_connect_carves(grid_before, *grid, current, neighbor);
                    lemma_carved_trans(g0, grid_before, *grid);
                    lemma_dir_between_stepped(current, neighbor, d);
                    if edges_inside_visited(v0, g0) {
                        let k1 = current.idx() * 4 + d.index();
                        let k2 = neighbor.idx() * 4 + d.opposite().index();
                        assert(coords_of_index(k1 / 4) == current && dir_of_index(k1 % 4) == d);
                        assert(coords_of_index(k2 / 4) == neighbor && dir_of_index(k2 % 4)
                            == d.opposite());
                        assert(!grid_before.conn(current, d).connected) by {
                            if grid_before.conn(current, d).connected {
                                assert(vis_entry_push[neighbor.idx()]);
                            }
                        }
                        assert(!grid_before.conn(neighbor, d.opposite()).connected) by {
                            if grid_before.conn(neighbor, d.opposite()).connected {
                                assert(vis_entry_push[neighbor.idx()]);
                            }
                        }
                        assert(!slot_connected(grid_before, k1) && slot_connected(*grid, k1));
                        assert(!slot_connected(grid_before, k2) && slot_connected(*grid, k2));
                        assert forall|j: int|
                            0 <= j < 4 * CELL_COUNT && j != k1 && j != k2
                            implies #[trigger] slot_connected(grid_before, j) == slot_connected(
                            *grid,
                            j,
                        ) by {
                            let cj = coords_of_index(j / 4);
                            let dj = dir_of_index(j % 4);
                            assert(cj.in_grid());
                            assert(cj.idx() == j / 4 && dj.index() == j % 4);
                            if cj == current && dj == d {
                                assert(j == k1);
                            } else if cj == neighbor && dj == d.opposite() {
                                assert(j == k2);
                            } else {
                                assert(grid.conn(cj, dj) == grid_before.conn(cj, dj));
                            }
                        }
                        lemma_count_two_slots(grid_before, *grid, k1, k2, 4 * CELL_COUNT);
                    }

                    assert forall|j: int| 0 <= j < self.stack@.len() implies reachable_connected(
                        *grid,
                        start_cell,
                        #[trigger] self.stack@[j],
                    ) by {
                        lemma_rc_grows(grid_before, *grid, start_cell, self.stack@[j]);
                    }
                    assert forall|c: GridCoords|
                        c.in_grid() && #[trigger] self.visited@[c.idx()] && !v0[c.idx()]
                        implies reachable_connected(*grid, start_cell, c) by {
                        lemma_rc_grows(grid_before, *grid, start_cell, c);
                    }
                    lemma_rc_extend(*grid, start_cell, current, d);
                }
                let ghost vis_mid = self.visited@;
                let ni = neighbor.to_index();
                self.visited[ni] = true;
                proof {
                    lemma_count_unvisited_update(vis_mid, ni as int);
                }
                self.stack.push(neighbor);
                proof {
                    if edges_inside_visited(v0, g0) {
                        assert forall|c: GridCoords, d2: Direction|
                            c.can_step(d2) && (#[trigger] grid.conn(c, d2)).connected
                            implies self.visited@[c.idx()] && self.visited@[c.stepped(d2).idx()] by {
                            if c == current && d2 == d {
                                assert(self.visited@[neighbor.idx()]);
                            } else if c == neighbor && d2 == d.opposite() {
                                assert(self.visited@[current.idx()]);
                            } else {
                                assert(grid.conn(c, d2) == grid_before.conn(c, d2));
                                assert(vis_entry_push[c.idx()] && vis_entry_push[c.stepped(
                                    d2,
                                ).idx()]);
                            }
                        }
                    }
                    if visited_closed(v0, g0) {
                        assert forall|c: GridCoords, d2: Direction|
                            c.in_grid() && self.visited@[c.idx()] && !self.stack@.contains(c)
                                && c.can_step(d2) && !(#[trigger] g0.conn(c, d2)).blocked
                            implies self.visited@[c.stepped(d2).idx()] by {
                            if c.idx() == neighbor.idx() {
                                crate::grid_coords::lemma_idx_injective(c, neighbor);
                                assert(self.stack@.last() == c);
                                assert(false);
                            } else {
                                assert(vis_entry[c.idx()]);
                                if stack_entry.contains(c) {
                                    let i = choose|i: int|
                                        0 <= i < stack_entry.len() && stack_entry[i] == c;
                                    assert(self.stack@[i] == c);
                                    assert(false);
                                }
                                assert(vis_entry[c.stepped(d2).idx()]);
                            }
                        }
                    }
                }
            }
        }
        proof {
            if visited_closed(v0, g0) {
                assert forall|c: GridCoords, d: Direction|
                    c.in_grid() && self.visited@[c.idx()] && c.can_step(d) && !(#[trigger] grid.conn(
                        c,
                        d,
                    )).blocked implies self.visited@[c.stepped(d).idx()] by {
                    assert(grid.conn(c, d).blocked == g0.conn(c, d).blocked);
                    assert(!self.stack@.contains(c));
                }
            }
            if connections_open(g0) && wall_symmetric(g0) {
                lemma_carved_connections_open(g0, *grid);
                assert forall|c: GridCoords|
                    c.in_grid() && self.visited@[c.idx()] && !v0[c.idx()]
                    implies reachable_open(g0, start_cell, c) by {
                    assert(reachable_connected(*grid, start_cell, c));
                    let n = choose|n: nat| reach_conn(*grid, start_cell, c, n);
                    lemma_reach_conn_to_open(*grid, g0, start_cell, c, n);
                    assert(reach_open(g0, start_cell, c, n));
                }
            }
        }
    }

    /// Carve the whole grid as a depth-first forest: retry from every still
    /// unvisited cell so no cell is left out even when pre-set walls split
    /// the grid into disjoint regions.
    #[verifier::rlimit(100)]
    pub fn maze_fill(&mut self, grid: &mut Grid)
        requires
            old(self).wf(),
            old(grid).wf(),
        ensures
            final(self).wf(),
            final(grid).wf(),
            carved_from(*old(grid), *final(grid)),
            old(grid).connection_symmetry() ==> final(grid).connection_symmetry(),
            forall|c: GridCoords| c.in_grid() ==> final(self).is_visited(c),
            old(grid).connection_symmetry() ==> forall|a: GridCoords, d: Direction|
                #[trigger] open_adjacent(*final(grid), a, d) ==> reachable_connected(
                    *final(grid),
                    a,
                    a.stepped(d),
                ),
            interior_unblocked(*old(grid)) && interior_unconnected(*old(grid))
                ==> connected_slot_count(*final(grid)) == 2 * (CELL_COUNT - 1),
            wall_symmetric(*old(grid)) && interior_unconnected(*old(grid))
                ==> connected_slot_count(*final(grid)) + 2 * open_component_count(*old(grid)) == 2
                * CELL_COUNT,
    {
        let ghost g0 = *grid;
        let ghost nb = interior_unblocked(g0) && interior_unconnected(g0);
        let ghost hy = wall_symmetric(g0) && interior_unconnected(g0);
        self.visited = make_flag_table(CELL_COUNT);
        proof {
            if nb || hy {
                lemma_count_slots_zero(g0, 4 * CELL_COUNT as int);
                lemma_count_unvisited_all_false(self.visited@);
                assert forall|c: GridCoords, d: Direction|
                    c.can_step(d) && (#[trigger] grid.conn(c, d)).connected
                    implies self.visited@[c.idx()] && self.visited@[c.stepped(d).idx()] by {
                    assert(!grid.conn(c, d).connected);
                }
            }
            if hy {
                assert forall|c: GridCoords, d: Direction|
                    c.can_step(d) && (#[trigger] g0.conn(c, d)).connected implies !g0.conn(
                    c,
                    d,
                ).blocked && !g0.conn(c.stepped(d), d.opposite()).blocked by {
                    assert(!g0.conn(c, d).connected);
                }
                assert(connections_open(g0));
            }
        }

        let mut x: usize = 0;
        while x < GRID_SIZE
            invariant
                self.wf(),
                grid.wf(),
                x <= GRID_SIZE,
                carved_from(g0, *grid),
                g0.connection_symmetry() ==> grid.connection_symmetry(),
                forall|c: GridCoords|
                    c.in_grid() && c.x < x ==> #[trigger] self.visited@[c.idx()],
                visited_closed(self.visited@, *grid),
                g0.connection_symmetry() ==> visited_component_connected(self.visited@, *grid),
                nb == (interior_unblocked(g0) && interior_unconnected(g0)),
                nb ==> edges_inside_visited(self.visited@, *grid),
                nb && x > 0 ==> (forall|c: GridCoords|
                    c.in_grid() ==> #[trigger] self.visited@[c.idx()]) && connected_slot_count(
                    *grid,
                ) == 2 * (CELL_COUNT - 1),
                nb && x == 0 ==> connected_slot_count(*grid) == 0 && (forall|i: int|
                    0 <= i < CELL_COUNT ==> !self.visited@[i]),
                hy == (wall_symmetric(g0) && interior_unconnected(g0)),
                hy ==> connections_open(*grid) && wall_symmetric(*grid) && edges_inside_visited(
                    self.visited@,
                    *grid,
                ),
                hy ==> forall|c: GridCoords|
                    c.in_grid() && #[trigger] self.visited@[c.idx()] ==> exists|b: GridCoords|
                        b.in_grid() && scan_index(b) < x * GRID_SIZE && reachable_open(g0, b, c),
                hy ==> forall|b: GridCoords, c: GridCoords|
                    b.in_grid() && c.in_grid() && scan_index(b) < x * GRID_SIZE
                        && #[trigger] reachable_open(g0, b, c) ==> self.visited@[c.idx()],
                hy ==> connected_slot_count(*grid) + 2 * count_unvisited(self.visited@) + 2
                    * component_count_up_to(g0, x * GRID_SIZE) == 2 * CELL_COUNT,
            decreases GRID_SIZE - x,
        {
            let mut y: usize = 0;
            while y < GRID_SIZE
                invariant
                    self.wf(),
                    grid.wf(),
                    x < GRID_SIZE,
                    y <= GRID_SIZE,
                    carved_from(g0, *grid),
                    g0.connection_symmetry() ==> grid.connection_symmetry(),
                    forall|c: GridCoords|
                        c.in_grid() && c.x < x ==> #[trigger] self.visited@[c.idx()],
                    forall|c: GridCoords|
                        c.in_grid() && c.x == x && c.y < y ==> #[trigger] self.visited@[c.idx()],
                    visited_closed(self.visited@, *grid),
                    g0.connection_symmetry() ==> visited_component_connected(self.visited@, *grid),
                    nb == (interior_unblocked(g0) && interior_unconnected(g0)),
                    nb ==> edges_inside_visited(self.visited@, *grid),
                    nb && (x > 0 || y > 0) ==> (forall|c: GridCoords|
                        c.in_grid() ==> #[trigger] self.visited@[c.idx()]) && connected_slot_count(
                        *grid,
                    ) == 2 * (CELL_COUNT - 1),
                    nb && x == 0 && y == 0 ==> connected_slot_count(*grid) == 0 && (forall|i: int|
                        0 <= i < CELL_COUNT ==> !self.visited@[i]),
                    hy == (wall_symmetric(g0) && interior_unconnected(g0)),
                    hy ==> connections_open(*grid) && wall_symmetric(*grid)
                        && edges_inside_visited(self.visited@, *grid),
                    hy ==> forall|c: GridCoords|
                        c.in_grid() && #[trigger] self.visited@[c.idx()] ==> exists|b: GridCoords|
                            b.in_grid() && scan_index(b) < x * GRID_SIZE + y && reachable_open(
                                g0,
                                b,
                                c,
                            ),
                    hy ==> forall|b: GridCoords, c: GridCoords|
                        b.in_grid() && c.in_grid() && scan_index(b) < x * GRID_SIZE + y
                            && #[trigger] reachable_open(g0, b, c) ==> self.visited@[c.idx()],
                    hy ==> connected_slot_count(*grid) + 2 * count_unvisited(self.visited@) + 2
                        * component_count_up_to(g0, x * GRID_SIZE + y) == 2 * CELL_COUNT,
                decreases GRID_SIZE - y,
            {
                let coords = GridCoords { x, y };
                if !self.visited[coords.to_index()] {
                    let ghost g_mid = *grid;
                    let ghost v_mid = self.visited@;
                    self.make_maze(grid, coords);
                    proof {
                        lemma_carved_trans(g0, g_mid, *grid);
                        if hy {
                            assert(scan_index(coords) == x * GRID_SIZE + y);
                            lemma_fill_step_fresh(
                                g0,
                                g_mid,
                                *grid,
                                v_mid,
                                self.visited@,
                                coords,
                                x * GRID_SIZE + y,
                            );
                        }
                        if nb {
                            // Only the very first scan position finds an
                            // unvisited cell: on a grid with no interior
                            // walls the first carve covers everything.
                            assert(x == 0 && y == 0);
                            assert forall|c2: GridCoords, d2: Direction|
                                c2.can_step(d2) implies !(#[trigger] grid.conn(c2, d2)).blocked by {
                                assert(grid.conn(c2, d2).blocked == g0.conn(c2, d2).blocked);
                            }
                            assert forall|c2: GridCoords| c2.in_grid()
                                implies #[trigger] self.visited@[c2.idx()] by {
                                lemma_closed_covers(self.visited@, *grid, c2);
                            }
                            assert forall|i: int| 0 <= i < CELL_COUNT
                                implies self.visited@[i] by {
                                let c2 = coords_of_index(i);
                                assert(c2.in_grid());
                                assert(c2.idx() == i);
                                assert(self.visited@[c2.idx()]);
                            }
                            lemma_count_unvisited_all_true(self.visited@);
                            lemma_count_unvisited_all_false(v_mid);
                            assert(connected_slot_count(*grid) + 2 * count_unvisited(self.visited@)
                                + 2int == connected_slot_count(g_mid) + 2 * count_unvisited(v_mid));
                            assert(connected_slot_count(*grid) == 2 * (CELL_COUNT - 1));
                        }
                        if g0.connection_symmetry() {
                            assert forall|a: GridCoords, d: Direction|
                                a.in_grid() && self.visited@[a.idx()] && #[trigger] open_adjacent(
                                    *grid,
                                    a,
                                    d,
                                ) && self.visited@[a.stepped(d).idx()]
                                implies reachable_connected(*grid, a, a.stepped(d)) by {
                                let b = a.stepped(d);
                                assert(grid.conn(a, d).blocked == g_mid.conn(a, d).blocked);
                                assert(grid.conn(b, d.opposite()).blocked == g_mid.conn(
                                    b,
                                    d.opposite(),
                                ).blocked);
                                assert(b.can_step(d.opposite()) && b.stepped(d.opposite()) == a);
                                if v_mid[a.idx()] && v_mid[b.idx()] {
                                    assert(open_adjacent(g_mid, a, d));
                                    assert(reachable_connected(g_mid, a, b));
                                    lemma_rc_grows(g_mid, *grid, a, b);
                                } else if !v_mid[a.idx()] && !v_mid[b.idx()] {
                                    assert(reachable_connected(*grid, coords, a));
                                    assert(reachable_connected(*grid, coords, b));
                                    lemma_rc_sym(*grid, coords, a);
                                    lemma_rc_trans(*grid, a, coords, b);
                                } else if v_mid[a.idx()] {
                                    assert(!g_mid.conn(a, d).blocked);
                                    assert(v_mid[b.idx()]);
                                    assert(false);
                                } else {
                                    assert(!g_mid.conn(b, d.opposite()).blocked);
                                    assert(v_mid[a.idx()]);
                                    assert(false);
                                }
                            }
                        }
                    }
                } else {
                    proof {
                        if hy {
                            assert(scan_index(coords) == x * GRID_SIZE + y);
                            lemma_fill_step_skip(
                                g0,
                                *grid,
                                self.visited@,
                                coords,
                                x * GRID_SIZE + y,
                            );
                        }
                    }
                }
                y += 1;
            }
            x += 1;
        }
        proof {
            assert forall|c: GridCoords| c.in_grid() implies self.is_visited(c) by {
                assert(self.visited@[c.idx()]);
            }
            if hy {
                assert forall|i: int| 0 <= i < CELL_COUNT implies self.visited@[i] by {
                    let c2 = coords_of_index(i);
                    assert(c2.in_grid());
                    assert(c2.idx() == i);
                    assert(self.visited@[c2.idx()]);
                }
                lemma_count_unvisited_all_true(self.visited@);
                assert(connected_slot_count(*grid) + 2 * open_component_count(g0) == 2
                    * CELL_COUNT);
            }
            if g0.connection_symmetry() {
                assert forall|a: GridCoords, d: Direction| #[trigger] open_adjacent(
                    *grid,
                    a,
                    d,
                ) implies reachable_connected(*grid, a, a.stepped(d)) by {
                    assert(self.visited@[a.idx()]);
                    assert(self.visited@[a.stepped(d).idx()]);
                }
            }
        }
    }
}

/// Solution marking changes nothing but the `is_solution_connection` flags.
pub open spec fn same_except_solution(pre: Grid, post: Grid) -> bool {
    forall|c: GridCoords, d: Direction|
        c.in_grid() ==> {
            let p = pre.conn(c, d);
            let q = #[trigger] post.conn(c, d);
            &&& q.connected == p.connected
            &&& q.blocked == p.blocked
            &&& q.is_maze_exit == p.is_maze_exit
            &&& q.split_bits == p.split_bits
        }
}

/// Solution marking never clears a marker that was already set.
pub open spec fn solutions_preserved(pre: Grid, post: Grid) -> bool {
    forall|c: GridCoords, d: Direction|
        c.in_grid() && pre.conn(c, d).is_solution_connection ==> #[trigger] post.conn(
            c,
            d,
        ).is_solution_connection
}

/// Every marker the solver adds lies on an interior edge that carried an
/// open passage on at least one of its two facing records.
pub open spec fn new_solutions_on_connections(pre: Grid, post: Grid) -> bool {
    forall|c: GridCoords, d: Direction|
        c.in_grid() && !pre.conn(c, d).is_solution_connection && #[trigger] post.conn(
            c,
            d,
        ).is_solution_connection ==> {
            &&& c.can_step(d)
            &&& (pre.conn(c, d).connected || pre.conn(c.stepped(d), d.opposite()).connected)
        }
}

/// `post` is reachable from `pre` by zero or more solution-marking steps.
pub open spec fn solved_from(pre: Grid, post: Grid) -> bool {
    &&& same_except_solution(pre, post)
    &&& solutions_preserved(pre, post)
    &&& new_solutions_on_connections(pre, post)
}

/// Solution-marking steps compose.
pub proof fn lemma_solved_trans(g0: Grid, g1: Grid, g2: Grid)
    requires
        solved_from(g0, g1),
        solved_from(g1, g2),
    ensures
        solved_from(g0, g2),
{
    assert forall|c: GridCoords, d: Direction|
        c.in_grid() && !g0.conn(c, d).is_solution_connection && #[trigger] g2.conn(
        c,
        d,
    ).is_solution_connection implies {
        &&& c.can_step(d)
        &&& (g0.conn(c, d).connected || g0.conn(c.stepped(d), d.opposite()).connected)
    } by {
        if g1.conn(c, d).is_solution_connection {
        } else {
            assert(g1.conn(c, d).connected == g0.conn(c, d).connected);
            if c.can_step(d) {
                assert(g1.conn(c.stepped(d), d.opposite()).connected == g0.conn(
                    c.stepped(d),
                    d.opposite(),
                ).connected);
            }
        }
    }
}

/// One `connect_solution` call along an open edge is a solution-marking step.
proof fn lemma_connect_solution_solves(pre: Grid, post: Grid, a: GridCoords, b: GridCoords)
    requires
        pre.wf(),
        post.wf(),
        a.in_grid(),
        b.in_grid(),
        GridCoords::is_adjacent(a, b),
        pre.conn(a, GridCoords::dir_between(a, b).unwrap()).connected,
        ({
            let d = GridCoords::dir_between(a, b).unwrap();
            &&& post.conn(a, d) == pre.conn(a, d).with_solution()
            &&& post.conn(b, d.opposite()) == pre.conn(b, d.opposite()).with_solution()
            &&& forall|c: GridCoords, dd: Direction|
                c.in_grid() && !(c == a && dd == d) && !(c == b && dd == d.opposite())
                    ==> #[trigger] post.conn(c, dd) == pre.conn(c, dd)
        }),
    ensures
        solved_from(pre, post),
{
    let d = GridCoords::dir_between(a, b).unwrap();
    lemma_dir_between_stepped(a, b, d);
    assert forall|c: GridCoords, dd: Direction|
        c.in_grid() && !pre.conn(c, dd).is_solution_connection && #[trigger] post.conn(
        c,
        dd,
    ).is_solution_connection implies {
        &&& c.can_step(dd)
        &&& (pre.conn(c, dd).connected || pre.conn(c.stepped(dd), dd.opposite()).connected)
    } by {
        if c == a && dd == d {
            assert(c.can_step(dd));
        } else {
            assert(c == b && dd == d.opposite());
            assert(c.stepped(dd) == a && dd.opposite() == d);
        }
    }
}

/// The position of the edge record at `c` in direction `d` in the finder's
/// table of consumed exits.
pub open spec fn exit_slot(c: GridCoords, d: Direction) -> int {
    c.idx() * 4 + d.index()
}

/// Cell `b` can be reached from `a` within `n` steps along recorded
/// passages, stepping only onto cells the given visit table does not hold
/// (the starting cell itself may be held).
pub open spec fn reach_conn_fresh(
    g: Grid,
    vis: Seq<bool>,
    a: GridCoords,
    b: GridCoords,
    n: nat,
) -> bool
    decreases n,
{
    a == b || (n > 0 && exists|d: Direction|
        a.can_step(d) && (#[trigger] g.conn(a, d)).connected && !vis[a.stepped(d).idx()]
            && reach_conn_fresh(g, vis, a.stepped(d), b, (n - 1) as nat))
}

/// Some chain of passages over cells the visit table does not hold joins
/// `a` to `b`.
pub open spec fn reachable_conn_fresh(g: Grid, vis: Seq<bool>, a: GridCoords, b: GridCoords) -> bool {
    exists|n: nat| reach_conn_fresh(g, vis, a, b, n)
}

/// Some exit-like edge not yet in the consumed table sits on a cell that a
/// search from `start` can still reach: passages only, over cells the visit
/// table does not hold.
pub open spec fn unconsumed_exit_in_reach(
    g: Grid,
    vis: Seq<bool>,
    exits: Seq<bool>,
    start: GridCoords,
) -> bool {
    exists|c: GridCoords, d: Direction|
        c.in_grid() && reachable_conn_fresh(g, vis, start, c) && (#[trigger] g.conn(
            c,
            d,
        )).exit_like() && !exits[exit_slot(c, d)]
}

/// Cell `b` can be reached from `a` within `n` steps along recorded
/// passages that are all flagged as part of the solution.
pub open spec fn reach_solution(g: Grid, a: GridCoords, b: GridCoords, n: nat) -> bool
    decreases n,
{
    a == b || (n > 0 && exists|d: Direction|
        a.can_step(d) && (#[trigger] g.conn(a, d)).connected && g.conn(
            a,
            d,
        ).is_solution_connection && reach_solution(g, a.stepped(d), b, (n - 1) as nat))
}

/// Some chain of solution-flagged passages joins `a` to `b`.
pub open spec fn reachable_solution(g: Grid, a: GridCoords, b: GridCoords) -> bool {
    exists|n: nat| reach_solution(g, a, b, n)
}

/// A solution chain survives further solution marking: passages never
/// change and markers are never cleared.
proof fn lemma_reach_solution_grows(g1: Grid, g2: Grid, a: GridCoords, b: GridCoords, n: nat)
    requires
        solved_from(g1, g2),
        reach_solution(g1, a, b, n),
    ensures
        reach_solution(g2, a, b, n),
    decreases n,
{
    if a != b {
        let d = choose|d: Direction|
            a.can_step(d) && (#[trigger] g1.conn(a, d)).connected && g1.conn(
                a,
                d,
            ).is_solution_connection && reach_solution(g1, a.stepped(d), b, (n - 1) as nat);
        lemma_reach_solution_grows(g1, g2, a.stepped(d), b, (n - 1) as nat);
        assert(g2.conn(a, d).connected == g1.conn(a, d).connected);
        assert(a.can_step(d) && g2.conn(a, d).connected && g2.conn(a, d).is_solution_connection
            && reach_solution(g2, a.stepped(d), b, (n - 1) as nat));
    }
}

/// A solution chain extended by one flagged passage at its far end is still
/// a solution chain.
proof fn lemma_reach_solution_snoc(g: Grid, s: GridCoords, b: GridCoords, d: Direction, n: nat)
    requires
        reach_solution(g, s, b, n),
        b.can_step(d),
        g.conn(b, d).connected,
        g.conn(b, d).is_solution_connection,
    ensures
        reach_solution(g, s, b.stepped(d), (n + 1) as nat),
    decreases n,
{
    if s == b {
        assert(b.can_step(d) && g.conn(b, d).connected && g.conn(b, d).is_solution_connection
            && reach_solution(g, b.stepped(d), b.stepped(d), n));
    } else {
        let d0 = choose|d0: Direction|
            s.can_step(d0) && (#[trigger] g.conn(s, d0)).connected && g.conn(
                s,
                d0,
            ).is_solution_connection && reach_solution(g, s.stepped(d0), b, (n - 1) as nat);
        lemma_reach_solution_snoc(g, s.stepped(d0), b, d, (n - 1) as nat);
        assert(s.can_step(d0) && g.conn(s, d0).connected && g.conn(s, d0).is_solution_connection
            && reach_solution(g, s.stepped(d0), b.stepped(d), n));
    }
}

/// A search path whose pushed cells were all unvisited when entered is a
/// chain of passages over unheld cells.
proof fn lemma_path_fresh_reaches(
    g: Grid,
    vis: Seq<bool>,
    start: GridCoords,
    path: Seq<Direction>,
    k: int,
)
    requires
        path_ok(g, start, path),
        0 <= k <= path.len(),
        forall|j: int| 1 <= j <= path.len() ==> !vis[(#[trigger] walk_to(start, path, j)).idx()],
    ensures
        reach_conn_fresh(g, vis, start, walk_to(start, path, k), k as nat),
    decreases k,
{
    if k > 0 {
        lemma_path_fresh_reaches(g, vis, start, path, k - 1);
        let w = walk_to(start, path, k - 1);
        assert(w.can_step(path[k - 1]) && g.conn(w, path[k - 1]).connected);
        assert(walk_to(start, path, k) == w.stepped(path[k - 1]));
        assert(!vis[walk_to(start, path, k).idx()]);
        lemma_fresh_snoc(g, vis, start, w, path[k - 1], (k - 1) as nat);
    }
}

/// A chain over unheld cells extended by one passage to an unheld cell is
/// still such a chain.
proof fn lemma_fresh_snoc(
    g: Grid,
    vis: Seq<bool>,
    s: GridCoords,
    b: GridCoords,
    d: Direction,
    n: nat,
)
    requires
        reach_conn_fresh(g, vis, s, b, n),
        b.can_step(d),
        g.conn(b, d).connected,
        !vis[b.stepped(d).idx()],
    ensures
        reach_conn_fresh(g, vis, s, b.stepped(d), (n + 1) as nat),
    decreases n,
{
    if s == b {
        assert(b.can_step(d) && g.conn(b, d).connected && !vis[b.stepped(d).idx()]
            && reach_conn_fresh(g, vis, b.stepped(d), b.stepped(d), n));
    } else {
        let d0 = choose|d0: Direction|
            s.can_step(d0) && (#[trigger] g.conn(s, d0)).connected && !vis[s.stepped(d0).idx()]
                && reach_conn_fresh(g, vis, s.stepped(d0), b, (n - 1) as nat);
        lemma_fresh_snoc(g, vis, s.stepped(d0), b, d, (n - 1) as nat);
        assert(s.can_step(d0) && g.conn(s, d0).connected && !vis[s.stepped(d0).idx()]
            && reach_conn_fresh(g, vis, s.stepped(d0), b.stepped(d), n));
    }
}

/// Over a table that holds nothing, a chain of passages is already a chain
/// over unheld cells.
proof fn lemma_reach_conn_all_fresh(
    g: Grid,
    vis: Seq<bool>,
    a: GridCoords,
    b: GridCoords,
    n: nat,
)
    requires
        forall|i: int| 0 <= i < CELL_COUNT ==> !vis[i],
        reach_conn(g, a, b, n),
    ensures
        reach_conn_fresh(g, vis, a, b, n),
    decreases n,
{
    if a != b {
        let d = choose|d: Direction|
            a.can_step(d) && (#[trigger] g.conn(a, d)).connected && reach_conn(
                g,
                a.stepped(d),
                b,
                (n - 1) as nat,
            );
        lemma_reach_conn_all_fresh(g, vis, a.stepped(d), b, (n - 1) as nat);
        assert(a.stepped(d).in_grid());
        assert(!vis[a.stepped(d).idx()]);
        assert(a.can_step(d) && g.conn(a, d).connected && !vis[a.stepped(d).idx()]
            && reach_conn_fresh(g, vis, a.stepped(d), b, (n - 1) as nat));
    }
}

/// A finished search has pushed every cell its chains over unheld cells can
/// reach: the visit table is closed under passage steps out of cells the
/// search pushed.
proof fn lemma_fresh_search_covers(
    g: Grid,
    vc0: Seq<bool>,
    vis: Seq<bool>,
    start: GridCoords,
    a: GridCoords,
    b: GridCoords,
    n: nat,
)
    requires
        vis[a.idx()],
        a == start || !vc0[a.idx()],
        forall|c: GridCoords, d: Direction|
            c.in_grid() && vis[c.idx()] && (c == start || !vc0[c.idx()]) && c.can_step(d) && (
            #[trigger] g.conn(c, d)).connected ==> vis[c.stepped(d).idx()],
        a.in_grid(),
        reach_conn_fresh(g, vc0, a, b, n),
    ensures
        vis[b.idx()],
        b == start || !vc0[b.idx()],
        b.in_grid(),
    decreases n,
{
    if a != b {
        let d = choose|d: Direction|
            a.can_step(d) && (#[trigger] g.conn(a, d)).connected && !vc0[a.stepped(d).idx()]
                && reach_conn_fresh(g, vc0, a.stepped(d), b, (n - 1) as nat);
        assert(vis[a.stepped(d).idx()]);
        lemma_fresh_search_covers(g, vc0, vis, start, a.stepped(d), b, (n - 1) as nat);
    }
}

/// Solution marking leaves every outward-facing boundary record entirely
/// untouched: markers are only ever added on edges between two in-grid
/// cells.
pub proof fn lemma_solving_keeps_boundary(pre: Grid, post: Grid, c: GridCoords, d: Direction)
    requires
        solved_from(pre, post),
        crate::grid::boundary_facing(c, d),
    ensures
        post.conn(c, d) == pre.conn(c, d),
{
    let p = pre.conn(c, d);
    let q = post.conn(c, d);
    if !p.is_solution_connection && q.is_solution_connection {
        assert(c.can_step(d));
    }
    assert(q.connected == p.connected && q.blocked == p.blocked && q.is_solution_connection
        == p.is_solution_connection && q.is_maze_exit == p.is_maze_exit && q.split_bits
        == p.split_bits);
}

/// The cell reached from `start` after following the first `k` directions of
/// `path`.
pub open spec fn walk_to(start: GridCoords, path: Seq<Direction>, k: int) -> GridCoords
    decreases k,
{
    if k <= 0 {
        start
    } else {
        walk_to(start, path, k - 1).stepped(path[k - 1])
    }
}

/// Every step of `path` from `start` stays inside the grid and crosses an
/// edge recorded as connected on the side it steps from.
pub open spec fn path_ok(g: Grid, start: GridCoords, path: Seq<Direction>) -> bool {
    forall|k: int|
        0 <= k < path.len() ==> (#[trigger] walk_to(start, path, k)).can_step(path[k]) && g.conn(
            walk_to(start, path, k),
            path[k],
        ).connected
}

/// Appending a direction does not change where the earlier prefix leads.
proof fn lemma_walk_to_push(start: GridCoords, path: Seq<Direction>, d: Direction, k: int)
    requires
        0 <= k <= path.len(),
    ensures
        walk_to(start, path.push(d), k) == walk_to(start, path, k),
    decreases k,
{
    if k > 0 {
        lemma_walk_to_push(start, path, d, k - 1);
        assert(path.push(d)[k - 1] == path[k - 1]);
    }
}

/// A valid path extended by one connected step is still a valid path.
proof fn lemma_path_ok_push(g: Grid, start: GridCoords, path: Seq<Direction>, d: Direction)
    requires
        path_ok(g, start, path),
        walk_to(start, path, path.len() as int).can_step(d),
        g.conn(walk_to(start, path, path.len() as int), d).connected,
    ensures
        path_ok(g, start, path.push(d)),
        walk_to(start, path.push(d), path.len() as int + 1) == walk_to(
            start,
            path,
            path.len() as int,
        ).stepped(d),
        forall|k: int|
            0 <= k <= path.len() ==> walk_to(start, path.push(d), k) == #[trigger] walk_to(
                start,
                path,
                k,
            ),
{
    let p2 = path.push(d);
    assert forall|k: int| 0 <= k < p2.len() implies (#[trigger] walk_to(start, p2, k)).can_step(
        p2[k],
    ) && g.conn(walk_to(start, p2, k), p2[k]).connected by {
        lemma_walk_to_push(start, path, d, k);
        if k < path.len() {
            assert(walk_to(start, path, k).can_step(path[k]) && g.conn(
                walk_to(start, path, k),
                path[k],
            ).connected);
        }
    }
    lemma_walk_to_push(start, path, d, path.len() as int);
    assert forall|k: int| 0 <= k <= path.len() implies walk_to(start, p2, k) == #[trigger] walk_to(
        start,
        path,
        k,
    ) by {
        lemma_walk_to_push(start, path, d, k);
    }
}

/// A valid path shortened by its last step is still a valid path, leading
/// through the same cells.
proof fn lemma_path_ok_pop(g: Grid, start: GridCoords, path: Seq<Direction>)
    requires
        path_ok(g, start, path),
        path.len() > 0,
    ensures
        path_ok(g, start, path.drop_last()),
        forall|k: int|
            0 <= k < path.len() ==> walk_to(start, path.drop_last(), k) == #[trigger] walk_to(
                start,
                path,
                k,
            ),
{
    let p = path.drop_last();
    assert(path =~= p.push(path.last()));
    assert forall|k: int| 0 <= k < path.len() implies walk_to(start, p, k) == #[trigger] walk_to(
        start,
        path,
        k,
    ) by {
        lemma_walk_to_push(start, p, path.last(), k);
    }
    assert forall|k: int| 0 <= k < p.len() implies (#[trigger] walk_to(start, p, k)).can_step(p[k])
        && g.conn(walk_to(start, p, k), p[k]).connected by {
        assert(walk_to(start, path, k).can_step(path[k]) && g.conn(
            walk_to(start, path, k),
            path[k],
        ).connected);
    }
}

/// Every cell along a valid path lies inside the grid.
proof fn lemma_walk_to_in_grid(g: Grid, start: GridCoords, path: Seq<Direction>, k: int)
    requires
        start.in_grid(),
        path_ok(g, start, path),
        0 <= k <= path.len(),
    ensures
        walk_to(start, path, k).in_grid(),
    decreases k,
{
    if k > 0 {
        lemma_walk_to_in_grid(g, start, path, k - 1);
        assert(walk_to(start, path, k - 1).can_step(path[k - 1]));
    }
}

/// A path valid in one grid is valid in any grid with the same `connected`
/// flags.
proof fn lemma_path_ok_same_connections(g0: Grid, g1: Grid, start: GridCoords, path: Seq<Direction>)
    requires
        start.in_grid(),
        path_ok(g0, start, path),
        same_except_solution(g0, g1),
    ensures
        path_ok(g1, start, path),
{
    assert forall|k: int| 0 <= k < path.len() implies (#[trigger] walk_to(start, path, k)).can_step(
        path[k],
    ) && g1.conn(walk_to(start, path, k), path[k]).connected by {
        lemma_walk_to_in_grid(g0, start, path, k);
        assert(walk_to(start, path, k).can_step(path[k]) && g0.conn(
            walk_to(start, path, k),
            path[k],
        ).connected);
    }
}

/// Depth-first search that discovers a path between boundary exits and marks
/// it as the canonical solution overlay.
pub struct DFSSolutionFinder {
    pub stack: Vec<GridCoords>,
    pub path: Vec<Direction>,
    pub visited_cells: Vec<bool>,
    pub visited_exits: Vec<bool>,
}

impl DFSSolutionFinder {
    /// One visit flag per cell, and one per cell-direction pair for exits.
    pub open spec fn wf(self) -> bool {
        self.visited_cells@.len() == CELL_COUNT && self.visited_exits@.len() == 4 * CELL_COUNT
    }

    pub fn new() -> (r: Self)
        ensures
            r.wf(),
            r.stack@.len() == 0,
            r.path@.len() == 0,
            forall|i: int| 0 <= i < CELL_COUNT ==> !r.visited_cells@[i],
            forall|i: int| 0 <= i < 4 * CELL_COUNT ==> !r.visited_exits@[i],
    {
        Self {
            path: Vec::new(),
            visited_cells: make_flag_table(CELL_COUNT),
            visited_exits: make_flag_table(4 * CELL_COUNT),
            stack: Vec::new(),
        }
    }

    /// For every distinct boundary exit not yet consumed, search for another
    /// exit and mark the discovered connecting path, touching nothing but
    /// solution markers, which only ever get set, and only on open interior
    /// edges. Every exit the perimeter scan reports ends up consumed and the
    /// scan itself is unchanged; when the first reported exit can reach a
    /// different exit-like edge through passages, the final grid carries a
    /// chain of flagged passages from that exit's cell to a cell bearing
    /// such an edge.
    #[verifier::rlimit(100)]
    pub fn solve_all_paths(&mut self, grid: &mut Grid)
        requires
            old(self).wf(),
            old(grid).wf(),
        ensures
            final(self).wf(),
            final(grid).wf(),
            solved_from(*old(grid), *final(grid)),
            old(grid).solution_symmetry() ==> final(grid).solution_symmetry(),
            final(grid).all_exits() == old(grid).all_exits(),
            forall|j: int|
                0 <= j < old(grid).all_exits().len() ==> final(self).visited_exits@[exit_slot(
                    (#[trigger] old(grid).all_exits()[j]).0,
                    old(grid).all_exits()[j].1,
                )],
            (old(grid).all_exits().len() > 0 && exists|c: GridCoords, d: Direction|
                c.in_grid() && reachable_connected(*old(grid), old(grid).all_exits()[0].0, c) && (
                #[trigger] old(grid).conn(c, d)).exit_like() && !(c == old(grid).all_exits()[0].0
                    && d == old(grid).all_exits()[0].1)) ==> exists|c: GridCoords, d: Direction|
                {
                    &&& c.in_grid()
                    &&& (#[trigger] final(grid).conn(c, d)).exit_like()
                    &&& !(c == old(grid).all_exits()[0].0 && d == old(grid).all_exits()[0].1)
                    &&& reachable_solution(*final(grid), old(grid).all_exits()[0].0, c)
                },
    {
        let ghost g0 = *grid;
        self.visited_exits = make_flag_table(4 * CELL_COUNT);
        self.visited_cells = make_flag_table(CELL_COUNT);
        let exits = grid.get_all_exits();
        proof {
            crate::grid::lemma_all_exits_in_grid(*grid);
        }
        let mut k: usize = 0;
        while k < exits.len()
            invariant
                self.wf(),
                grid.wf(),
                g0 == *old(grid),
                k <= exits@.len(),
                exits@ == g0.all_exits(),
                forall|j: int| 0 <= j < exits@.len() ==> (#[trigger] exits@[j]).0.in_grid(),
                solved_from(g0, *grid),
                g0.solution_symmetry() ==> grid.solution_symmetry(),
                k == 0 ==> *grid == g0,
                k == 0 ==> (forall|i: int| 0 <= i < 4 * CELL_COUNT ==> !self.visited_exits@[i])
                    && (forall|i: int| 0 <= i < CELL_COUNT ==> !self.visited_cells@[i]),
                forall|j: int|
                    0 <= j < k ==> self.visited_exits@[exit_slot(
                        (#[trigger] exits@[j]).0,
                        exits@[j].1,
                    )],
                (exits@.len() > 0 && exists|c: GridCoords, d: Direction|
                    c.in_grid() && reachable_connected(g0, exits@[0].0, c) && (#[trigger] g0.conn(
                        c,
                        d,
                    )).exit_like() && !(c == exits@[0].0 && d == exits@[0].1)) ==> (k == 0
                    || exists|c: GridCoords, d: Direction|
                    {
                        &&& c.in_grid()
                        &&& (#[trigger] grid.conn(c, d)).exit_like()
                        &&& !(c == exits@[0].0 && d == exits@[0].1)
                        &&& reachable_solution(*grid, exits@[0].0, c)
                    }),
            decreases exits@.len() - k,
        {
            let exit = exits[k];
            let ei = exit.0.to_index() * 4 + exit.1.to_index();
            proof {
                assert(ei == exit_slot(exit.0, exit.1));
            }
            if !self.visited_exits[ei] {
                self.visited_exits[ei] = true;
                let ghost g_mid = *grid;
                let ghost vc_entry = self.visited_cells@;
                let ghost ve_entry = self.visited_exits@;
                self.solve_single_path(grid, exit);
                proof {
                    lemma_solved_trans(g0, g_mid, *grid);
                    let e0 = exits@[0];
                    let h0 = exits@.len() > 0 && exists|c: GridCoords, d: Direction|
                        c.in_grid() && reachable_connected(g0, e0.0, c) && (#[trigger] g0.conn(
                            c,
                            d,
                        )).exit_like() && !(c == e0.0 && d == e0.1);
                    if k == 0 && h0 {
                        // The very first search runs on untouched tables, so
                        // plain reachability is reachability over unheld
                        // cells, and the only consumed exit is the entrance.
                        let (c, d) = choose|c: GridCoords, d: Direction|
                            c.in_grid() && reachable_connected(g0, e0.0, c) && (#[trigger] g0.conn(
                                c,
                                d,
                            )).exit_like() && !(c == e0.0 && d == e0.1);
                        let n = choose|n: nat| reach_conn(g0, e0.0, c, n);
                        lemma_reach_conn_all_fresh(g0, vc_entry, e0.0, c, n);
                        assert(reach_conn_fresh(g0, vc_entry, e0.0, c, n));
                        assert(exit == e0);
                        assert(g_mid == g0);
                        assert(reach_conn_fresh(g_mid, vc_entry, exit.0, c, n));
                        assert(reachable_conn_fresh(g_mid, vc_entry, exit.0, c));
                        assert(g_mid.conn(c, d).exit_like());
                        if exit_slot(c, d) == exit_slot(e0.0, e0.1) {
                            assert(c.idx() == e0.0.idx() && d.index() == e0.1.index());
                            crate::grid_coords::lemma_idx_injective(c, e0.0);
                            assert(d == e0.1);
                            assert(false);
                        }
                        assert(!ve_entry[exit_slot(c, d)]);
                        assert(unconsumed_exit_in_reach(g_mid, vc_entry, ve_entry, exit.0));
                        let (c2, d2) = choose|c2: GridCoords, d2: Direction|
                            {
                                &&& c2.in_grid()
                                &&& (#[trigger] grid.conn(c2, d2)).exit_like()
                                &&& !ve_entry[exit_slot(c2, d2)]
                                &&& self.visited_exits@[exit_slot(c2, d2)]
                                &&& reachable_solution(*grid, exit.0, c2)
                            };
                        if c2 == e0.0 && d2 == e0.1 {
                            assert(ve_entry[exit_slot(c2, d2)]);
                            assert(false);
                        }
                        assert(grid.conn(c2, d2).exit_like() && !(c2 == e0.0 && d2 == e0.1)
                            && reachable_solution(*grid, e0.0, c2));
                    }
                    if k >= 1 && h0 {
                        let (c2, d2) = choose|c2: GridCoords, d2: Direction|
                            {
                                &&& c2.in_grid()
                                &&& (#[trigger] g_mid.conn(c2, d2)).exit_like()
                                &&& !(c2 == e0.0 && d2 == e0.1)
                                &&& reachable_solution(g_mid, e0.0, c2)
                            };
                        let n2 = choose|n2: nat| reach_solution(g_mid, e0.0, c2, n2);
                        lemma_reach_solution_grows(g_mid, *grid, e0.0, c2, n2);
                        assert(reach_solution(*grid, e0.0, c2, n2));
                        assert(grid.conn(c2, d2).is_maze_exit == g_mid.conn(c2, d2).is_maze_exit);
                        if g_mid.conn(c2, d2).is_solution_connection {
                            assert(grid.conn(c2, d2).is_solution_connection);
                        }
                        assert(grid.conn(c2, d2).exit_like() && !(c2 == e0.0 && d2 == e0.1)
                            && reachable_solution(*grid, e0.0, c2));
                    }
                }
            }
            k += 1;
        }
        proof {
            assert forall|c: GridCoords, d: Direction|
                crate::grid::boundary_facing(c, d) implies #[trigger] grid.conn(c, d) == g0.conn(
                c,
                d,
            ) by {
                lemma_solving_keeps_boundary(g0, *grid, c, d);
            }
            crate::grid::lemma_same_boundary_same_exits(*grid, g0);
        }
    }

    /// Search depth-first from one exit's cell for a different exit-like
    /// edge; when one is found, mark the recorded path from the start cell
    /// as the solution. If any unconsumed exit-like edge is reachable
    /// through passages over cells this search may still enter, one is
    /// found, consumed, and joined to the start by a chain of flagged
    /// passages; otherwise the stack empties and the grid is returned
    /// exactly as it came: a valid terminal state, not a failure.
    #[verifier::rlimit(100)]
    fn solve_single_path(&mut self, grid: &mut Grid, first_exit: (GridCoords, Direction))
        requires
            old(self).wf(),
            old(grid).wf(),
            first_exit.0.in_grid(),
        ensures
            final(self).wf(),
            final(grid).wf(),
            solved_from(*old(grid), *final(grid)),
            old(grid).solution_symmetry() ==> final(grid).solution_symmetry(),
            forall|i: int|
                0 <= i < 4 * CELL_COUNT && old(self).visited_exits@[i]
                    ==> final(self).visited_exits@[i],
            !unconsumed_exit_in_reach(
                *old(grid),
                old(self).visited_cells@,
                old(self).visited_exits@,
                first_exit.0,
            ) ==> *final(grid) == *old(grid) && final(self).visited_exits@ == old(
                self,
            ).visited_exits@,
            unconsumed_exit_in_reach(
                *old(grid),
                old(self).visited_cells@,
                old(self).visited_exits@,
                first_exit.0,
            ) ==> exists|c: GridCoords, d: Direction|
                {
                    &&& c.in_grid()
                    &&& (#[trigger] final(grid).conn(c, d)).exit_like()
                    &&& !old(self).visited_exits@[exit_slot(c, d)]
                    &&& final(self).visited_exits@[exit_slot(c, d)]
                    &&& reachable_solution(*final(grid), first_exit.0, c)
                },
    {
        let ghost g0 = *grid;
        let ghost vc0 = self.visited_cells@;
        let ghost ve0 = self.visited_exits@;
        self.stack.clear();
        self.path.clear();

        let start_cell = first_exit.0;
        self.stack.push(start_cell);
        let ghost vis_start = self.visited_cells@;
        let si = start_cell.to_index();
        self.visited_cells[si] = true;
        proof {
            lemma_count_unvisited_update(vis_start, si as int);
            assert(self.stack@[0] == start_cell);
            assert forall|c: GridCoords|
                c.in_grid() && self.visited_cells@[c.idx()] && (c == start_cell || !vc0[c.idx()])
                    && !self.stack@.contains(c) implies false by {
                if c == start_cell {
                    assert(self.stack@[0] == c);
                } else {
                    if c.idx() == start_cell.idx() {
                        crate::grid_coords::lemma_idx_injective(c, start_cell);
                    }
                    assert(vc0[c.idx()]);
                }
            }
        }

        while self.stack.len() > 0
            invariant
                self.wf(),
                grid.wf(),
                *grid == g0,
                g0 == *old(grid),
                vc0 == old(self).visited_cells@,
                ve0 == old(self).visited_exits@,
                self.visited_exits@ == ve0,
                start_cell == first_exit.0,
                start_cell.in_grid(),
                self.visited_cells@[start_cell.idx()],
                forall|i: int| 0 <= i < CELL_COUNT && vc0[i] ==> self.visited_cells@[i],
                self.stack@.len() == 0 || self.stack@.len() == self.path@.len() + 1,
                forall|j: int|
                    0 <= j < self.stack@.len() ==> #[trigger] self.stack@[j] == walk_to(
                        start_cell,
                        self.path@,
                        j,
                    ),
                forall|j: int| 0 <= j < self.stack@.len() ==> (#[trigger] self.stack@[j]).in_grid(),
                forall|j: int|
                    0 <= j < self.stack@.len() ==> self.visited_cells@[(#[trigger] self.stack@[j]).idx()],
                path_ok(g0, start_cell, self.path@),
                forall|j: int|
                    1 <= j <= self.path@.len() ==> !vc0[(#[trigger] walk_to(
                        start_cell,
                        self.path@,
                        j,
                    )).idx()],
                forall|c: GridCoords, d: Direction|
                    c.in_grid() && self.visited_cells@[c.idx()] && (c == start_cell
                        || !vc0[c.idx()]) && !self.stack@.contains(c) && (#[trigger] g0.conn(
                        c,
                        d,
                    )).exit_like() ==> ve0[exit_slot(c, d)],
                forall|c: GridCoords, d: Direction|
                    c.in_grid() && self.visited_cells@[c.idx()] && (c == start_cell
                        || !vc0[c.idx()]) && !self.stack@.contains(c) && c.can_step(d) && (
                    #[trigger] g0.conn(c, d)).connected ==> self.visited_cells@[c.stepped(d).idx()],
            decreases count_unvisited(self.visited_cells@), self.stack@.len(),
        {
            let current = self.stack[self.stack.len() - 1];
            let ci = current.to_index();
            proof {
                assert(current == walk_to(start_cell, self.path@, self.path@.len() as int));
            }

            // Check whether this cell exposes an exit other than one already
            // consumed; if so, the search is done and the recorded path is
            // marked as the solution.
            let exit_dirs = grid.get_exit_directions(current);
            let ghost stack_snap = self.stack@;
            let ghost path_snap = self.path@;
            let ghost cells_snap = self.visited_cells@;
            let mut e: usize = 0;
            while e < exit_dirs.len()
                invariant
                    self.wf(),
                    grid.wf(),
                    *grid == g0,
                    g0 == *old(grid),
                    vc0 == old(self).visited_cells@,
                    ve0 == old(self).visited_exits@,
                    self.visited_exits@ == ve0,
                    start_cell == first_exit.0,
                    start_cell.in_grid(),
                    current.in_grid(),
                    ci == current.idx(),
                    e <= exit_dirs@.len(),
                    exit_dirs@ == crate::grid::exit_directions_seq(g0.cells@[current.idx()]),
                    self.stack@ == stack_snap,
                    self.path@ == path_snap,
                    self.visited_cells@ == cells_snap,
                    path_ok(g0, start_cell, self.path@),
                    self.stack@.len() == self.path@.len() + 1,
                    current == walk_to(start_cell, self.path@, self.path@.len() as int),
                    forall|j: int|
                        1 <= j <= self.path@.len() ==> !vc0[(#[trigger] walk_to(
                            start_cell,
                            self.path@,
                            j,
                        )).idx()],
                    forall|j: int|
                        0 <= j < e ==> ve0[exit_slot(current, #[trigger] exit_dirs@[j])],
                decreases exit_dirs@.len() - e,
            {
                let exit_dir = exit_dirs[e];
                let ei = ci * 4 + exit_dir.to_index();
                if !self.visited_exits[ei] {
                    // Found a way out: consume it and trace the solution.
                    proof {
                        crate::grid::lemma_exit_directions_sound(
                            g0.cells@[current.idx()],
                            e as int,
                        );
                        assert(g0.conn(current, exit_dir).exit_like());
                        assert(ei == exit_slot(current, exit_dir));
                        lemma_path_fresh_reaches(
                            g0,
                            vc0,
                            start_cell,
                            self.path@,
                            self.path@.len() as int,
                        );
                        assert(reachable_conn_fresh(g0, vc0, start_cell, current));
                        assert(unconsumed_exit_in_reach(g0, vc0, ve0, start_cell));
                    }
                    self.visited_exits[ei] = true;
                    let ghost path_found = self.path@;
                    self.connect_solution_path(grid, start_cell);
                    proof {
                        assert(reach_solution(
                            *grid,
                            start_cell,
                            walk_to(start_cell, path_found, path_found.len() as int),
                            path_found.len(),
                        ));
                        assert(reachable_solution(*grid, start_cell, current));
                        let fe = grid.conn(current, exit_dir);
                        assert(fe.is_maze_exit == g0.conn(current, exit_dir).is_maze_exit);
                        if g0.conn(current, exit_dir).is_solution_connection {
                            assert(fe.is_solution_connection);
                        }
                        assert(fe.exit_like());
                        assert(self.visited_exits@[exit_slot(current, exit_dir)]);
                        assert(!ve0[exit_slot(current, exit_dir)]);
                    }
                    return ;
                }
                proof {
                    assert(ve0[exit_slot(current, exit_dirs@[e as int])]);
                }
                e += 1;
            }

            let neighbors = current.get_neighbors();
            let mut unvisited_neighbors: Vec<GridCoords> = Vec::new();
            let ghost grid_snap = *grid;
            let ghost self_snap = *self;
            let mut k: usize = 0;
            while k < neighbors.len()
                invariant
                    *self == self_snap,
                    *grid == grid_snap,
                    self.wf(),
                    grid.wf(),
                    current.in_grid(),
                    k <= neighbors@.len(),
                    forall|j: int|
                        0 <= j < neighbors@.len() ==> (#[trigger] neighbors@[j]).in_grid()
                            && GridCoords::is_adjacent(current, neighbors@[j]),
                    forall|j: int|
                        0 <= j < unvisited_neighbors@.len() ==> {
                            let n = #[trigger] unvisited_neighbors@[j];
                            &&& n.in_grid()
                            &&& GridCoords::is_adjacent(current, n)
                            &&& !self.visited_cells@[n.idx()]
                            &&& grid.conn(current, GridCoords::dir_between(current, n).unwrap()).connected
                        },
                    forall|j: int|
                        0 <= j < k ==> self.visited_cells@[(#[trigger] neighbors@[j]).idx()]
                            || !grid.conn(
                            current,
                            GridCoords::dir_between(current, neighbors@[j]).unwrap(),
                        ).connected || unvisited_neighbors@.contains(neighbors@[j]),
                decreases neighbors@.len() - k,
            {
                let n = neighbors[k];
                if !self.visited_cells[n.to_index()] && grid.is_connected(current, n) {
                    let ghost prev = unvisited_neighbors@;
                    unvisited_neighbors.push(n);
                    proof {
                        assert(unvisited_neighbors@.last() == n);
                        assert forall|x: GridCoords| prev.contains(x)
                            implies unvisited_neighbors@.contains(x) by {
                            let i = choose|i: int| 0 <= i < prev.len() && prev[i] == x;
                            assert(unvisited_neighbors@[i] == x);
                        }
                    }
                }
                k += 1;
            }

            if unvisited_neighbors.len() == 0 {
                // Dead end: backtrack, keeping the stack and the direction
                // path in step. The cell leaving the stack has been scanned
                // for exits and has no unvisited open neighbor left.
                self.stack.pop();
                self.path.pop();
                proof {
                    if path_snap.len() > 0 {
                        lemma_path_ok_pop(g0, start_cell, path_snap);
                        assert(self.path@ =~= path_snap.drop_last());
                        assert forall|j: int|
                            1 <= j <= self.path@.len() implies !vc0[(#[trigger] walk_to(
                            start_cell,
                            self.path@,
                            j,
                        )).idx()] by {
                            assert(walk_to(start_cell, path_snap.drop_last(), j) == walk_to(
                                start_cell,
                                path_snap,
                                j,
                            ));
                            assert(!vc0[walk_to(start_cell, path_snap, j).idx()]);
                        }
                    }
                    assert forall|c: GridCoords, d: Direction|
                        c.in_grid() && self.visited_cells@[c.idx()] && (c == start_cell
                            || !vc0[c.idx()]) && !self.stack@.contains(c) && (#[trigger] g0.conn(
                            c,
                            d,
                        )).exit_like() implies ve0[exit_slot(c, d)] by {
                        if stack_snap.contains(c) {
                            let i = choose|i: int|
                                0 <= i < stack_snap.len() && stack_snap[i] == c;
                            if i < stack_snap.len() - 1 {
                                assert(self.stack@[i] == c);
                                assert(false);
                            } else {
                                assert(c == current);
                                crate::grid::lemma_exit_directions_complete(
                                    g0.cells@[current.idx()],
                                    d,
                                );
                                let j = choose|j: int|
                                    0 <= j < exit_dirs@.len() && exit_dirs@[j] == d;
                                assert(ve0[exit_slot(current, exit_dirs@[j])]);
                            }
                        }
                    }
                    assert forall|c: GridCoords, d: Direction|
                        c.in_grid() && self.visited_cells@[c.idx()] && (c == start_cell
                            || !vc0[c.idx()]) && !self.stack@.contains(c) && c.can_step(d) && (
                        #[trigger] g0.conn(c, d)).connected
                        implies self.visited_cells@[c.stepped(d).idx()] by {
                        if stack_snap.contains(c) {
                            let i = choose|i: int|
                                0 <= i < stack_snap.len() && stack_snap[i] == c;
                            if i < stack_snap.len() - 1 {
                                assert(self.stack@[i] == c);
                                assert(false);
                            } else {
                                assert(c == current);
                                let t = c.stepped(d);
                                crate::grid_coords::lemma_neighbors_complete(c, d);
                                let j = choose|j: int|
                                    0 <= j < neighbors@.len() && neighbors@[j] == t;
                                assert(GridCoords::dir_between(current, t) == Some(d));
                                assert(!unvisited_neighbors@.contains(t));
                                assert(self.visited_cells@[t.idx()]);
                            }
                        }
                    }
                }
            } else {
                // Expand to the first open unvisited neighbor.
                let selected_neighbor = unvisited_neighbors[0];
                let selected_direction = GridCoords::get_direction(current, selected_neighbor).unwrap();
                proof {
                    lemma_dir_between_stepped(current, selected_neighbor, selected_direction);
                    lemma_path_ok_push(g0, start_cell, path_snap, selected_direction);
                }
                let ghost vis_mid = self.visited_cells@;
                let ni = selected_neighbor.to_index();
                self.visited_cells[ni] = true;
                proof {
                    lemma_count_unvisited_update(vis_mid, ni as int);
                }
                self.stack.push(selected_neighbor);
                self.path.push(selected_direction);
                proof {
                    assert(!vis_mid[selected_neighbor.idx()]);
                    assert(!vc0[selected_neighbor.idx()]);
                    assert forall|j: int|
                        1 <= j <= self.path@.len() implies !vc0[(#[trigger] walk_to(
                        start_cell,
                        self.path@,
                        j,
                    )).idx()] by {
                        if j <= path_snap.len() {
                            assert(walk_to(start_cell, self.path@, j) == walk_to(
                                start_cell,
                                path_snap,
                                j,
                            ));
                        } else {
                            assert(walk_to(start_cell, self.path@, j) == selected_neighbor);
                        }
                    }
                    assert forall|c: GridCoords, d: Direction|
                        c.in_grid() && self.visited_cells@[c.idx()] && (c == start_cell
                            || !vc0[c.idx()]) && !self.stack@.contains(c) && (#[trigger] g0.conn(
                            c,
                            d,
                        )).exit_like() implies ve0[exit_slot(c, d)] by {
                        if c.idx() == selected_neighbor.idx() {
                            crate::grid_coords::lemma_idx_injective(c, selected_neighbor);
                            assert(self.stack@.last() == c);
                            assert(false);
                        } else {
                            assert(cells_snap[c.idx()]);
                            if stack_snap.contains(c) {
                                let i = choose|i: int|
                                    0 <= i < stack_snap.len() && stack_snap[i] == c;
                                assert(self.stack@[i] == c);
                                assert(false);
                            }
                        }
                    }
                    assert forall|c: GridCoords, d: Direction|
                        c.in_grid() && self.visited_cells@[c.idx()] && (c == start_cell
                            || !vc0[c.idx()]) && !self.stack@.contains(c) && c.can_step(d) && (
                        #[trigger] g0.conn(c, d)).connected
                        implies self.visited_cells@[c.stepped(d).idx()] by {
                        if c.idx() == selected_neighbor.idx() {
                            crate::grid_coords::lemma_idx_injective(c, selected_neighbor);
                            assert(self.stack@.last() == c);
                            assert(false);
                        } else {
                            assert(cells_snap[c.idx()]);
                            if stack_snap.contains(c) {
                                let i = choose|i: int|
                                    0 <= i < stack_snap.len() && stack_snap[i] == c;
                                assert(self.stack@[i] == c);
                                assert(false);
                            }
                            assert(cells_snap[c.stepped(d).idx()]);
                        }
                    }
                }
            }
        }
        proof {
            // The stack is spent and the grid untouched: were any unconsumed
            // exit still in reach over cells this search was allowed to
            // enter, the search would have pushed its cell, scanned it, and
            // found the exit unconsumed.
            if unconsumed_exit_in_reach(g0, vc0, ve0, start_cell) {
                let (c, d) = choose|c: GridCoords, d: Direction|
                    c.in_grid() && reachable_conn_fresh(g0, vc0, start_cell, c) && (
                    #[trigger] g0.conn(c, d)).exit_like() && !ve0[exit_slot(c, d)];
                let n = choose|n: nat| reach_conn_fresh(g0, vc0, start_cell, c, n);
                assert forall|c2: GridCoords, d2: Direction|
                    c2.in_grid() && self.visited_cells@[c2.idx()] && (c2 == start_cell
                        || !vc0[c2.idx()]) && c2.can_step(d2) && (#[trigger] g0.conn(
                        c2,
                        d2,
                    )).connected implies self.visited_cells@[c2.stepped(d2).idx()] by {
                    assert(!self.stack@.contains(c2));
                }
                lemma_fresh_search_covers(
                    g0,
                    vc0,
                    self.visited_cells@,
                    start_cell,
                    start_cell,
                    c,
                    n,
                );
                assert(!self.stack@.contains(c));
                assert(ve0[exit_slot(c, d)]);
                assert(false);
            }
        }
    }

    /// Walk the recorded direction path from the start cell, flagging every
    /// stepped edge as part of the solution: afterwards a chain of flagged
    /// passages runs from the start cell to the path's far end.
    fn connect_solution_path(&self, grid: &mut Grid, start_cell: GridCoords)
        requires
            old(grid).wf(),
            start_cell.in_grid(),
            path_ok(*old(grid), start_cell, self.path@),
        ensures
            final(grid).wf(),
            solved_from(*old(grid), *final(grid)),
            old(grid).solution_symmetry() ==> final(grid).solution_symmetry(),
            reach_solution(
                *final(grid),
                start_cell,
                walk_to(start_cell, self.path@, self.path@.len() as int),
                self.path@.len(),
            ),
    {
        let ghost g0 = *grid;
        let mut current_cell = start_cell;
        let mut k: usize = 0;
        while k < self.path.len()
            invariant
                grid.wf(),
                start_cell.in_grid(),
                k <= self.path@.len(),
                path_ok(g0, start_cell, self.path@),
                current_cell == walk_to(start_cell, self.path@, k as int),
                current_cell.in_grid(),
                solved_from(g0, *grid),
                g0.solution_symmetry() ==> grid.solution_symmetry(),
                reach_solution(*grid, start_cell, current_cell, k as nat),
            decreases self.path@.len() - k,
        {
            let direction = self.path[k];
            proof {
                assert(walk_to(start_cell, self.path@, k as int).can_step(self.path@[k as int])
                    && g0.conn(walk_to(start_cell, self.path@, k as int), self.path@[k as int]).connected);
            }
            let neighbor = current_cell.get_adjacent(direction);
            let ghost g_mid = *grid;
            grid.connect_solution(current_cell, neighbor);
            proof {
                assert(g_mid.conn(current_cell, direction).connected);
                lemma_connect_solution_solves(g_mid, *grid, current_cell, neighbor);
                lemma_solved_trans(g0, g_mid, *grid);
                assert(grid.conn(current_cell, direction).is_solution_connection && grid.conn(
                    current_cell,
                    direction,
                ).connected);
                lemma_reach_solution_grows(g_mid, *grid, start_cell, current_cell, k as nat);
                lemma_reach_solution_snoc(*grid, start_cell, current_cell, direction, k as nat);
            }
            current_cell = neighbor;
            k += 1;
        }
    }
}

/// A fresh table of `n` cleared visit flags.
fn make_flag_table(n: usize) -> (r: Vec<bool>)
    ensures
        r@.len() == n,
        forall|i: int| 0 <= i < n ==> !r@[i],
{
    let mut v: Vec<bool> = Vec::new();
    let mut i: usize = 0;
    while i < n
        invariant
            i <= n,
            v@.len() == i,
            forall|j: int| 0 <= j < i ==> !v@[j],
        decreases n - i,
    {
        v.push(false);
        i += 1;
    }
    v
}

} // verus!
