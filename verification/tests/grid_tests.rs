use nested_mazes::direction::Direction;
use nested_mazes::grid::{Connection, Grid};
use nested_mazes::grid_coords::{GridCoords, GRID_SIZE};

#[test]
fn direction_indices_cover_zero_to_three() {
    assert_eq!(Direction::Right.to_index(), 0);
    assert_eq!(Direction::Up.to_index(), 1);
    assert_eq!(Direction::Left.to_index(), 2);
    assert_eq!(Direction::Down.to_index(), 3);
}

#[test]
fn direction_opposite_is_involutive() {
    let dirs = [Direction::Right, Direction::Up, Direction::Left, Direction::Down];
    for d in dirs {
        assert_eq!(d.get_opposite().get_opposite(), d);
    }
    assert_eq!(Direction::Right.get_opposite(), Direction::Left);
    assert_eq!(Direction::Up.get_opposite(), Direction::Down);
}

#[test]
fn coords_to_index_is_row_major() {
    assert_eq!(GridCoords { x: 0, y: 0 }.to_index(), 0);
    assert_eq!(GridCoords { x: 7, y: 0 }.to_index(), 7);
    assert_eq!(GridCoords { x: 0, y: 1 }.to_index(), 8);
    assert_eq!(GridCoords { x: 3, y: 5 }.to_index(), 43);
}

#[test]
fn get_adjacent_steps_one_cell() {
    let c = GridCoords { x: 3, y: 4 };
    assert_eq!(c.get_adjacent(Direction::Right), GridCoords { x: 4, y: 4 });
    assert_eq!(c.get_adjacent(Direction::Left), GridCoords { x: 2, y: 4 });
    assert_eq!(c.get_adjacent(Direction::Up), GridCoords { x: 3, y: 5 });
    assert_eq!(c.get_adjacent(Direction::Down), GridCoords { x: 3, y: 3 });
}

#[test]
fn get_neighbors_respects_grid_edges() {
    let corner = GridCoords { x: 0, y: 0 };
    let ns = corner.get_neighbors();
    assert_eq!(ns.len(), 2);
    assert!(ns.contains(&GridCoords { x: 1, y: 0 }));
    assert!(ns.contains(&GridCoords { x: 0, y: 1 }));

    let edge = GridCoords { x: 4, y: 7 };
    let ns = edge.get_neighbors();
    assert_eq!(ns.len(), 3);

    let center = GridCoords { x: 3, y: 3 };
    let ns = center.get_neighbors();
    assert_eq!(ns.len(), 4);
    assert!(ns.contains(&GridCoords { x: 2, y: 3 }));
    assert!(ns.contains(&GridCoords { x: 3, y: 2 }));
    assert!(ns.contains(&GridCoords { x: 4, y: 3 }));
    assert!(ns.contains(&GridCoords { x: 3, y: 4 }));
}

#[test]
fn get_direction_detects_adjacency() {
    let a = GridCoords { x: 2, y: 2 };
    assert_eq!(GridCoords::get_direction(a, GridCoords { x: 3, y: 2 }), Some(Direction::Right));
    assert_eq!(GridCoords::get_direction(a, GridCoords { x: 1, y: 2 }), Some(Direction::Left));
    assert_eq!(GridCoords::get_direction(a, GridCoords { x: 2, y: 3 }), Some(Direction::Up));
    assert_eq!(GridCoords::get_direction(a, GridCoords { x: 2, y: 1 }), Some(Direction::Down));
    assert_eq!(GridCoords::get_direction(a, GridCoords { x: 3, y: 3 }), None);
    assert_eq!(GridCoords::get_direction(a, GridCoords { x: 2, y: 2 }), None);
    assert_eq!(GridCoords::get_direction(a, GridCoords { x: 5, y: 2 }), None);
}

#[test]
fn connection_new_is_fully_cleared() {
    let c = Connection::new();
    assert!(!c.connected);
    assert!(!c.blocked);
    assert!(!c.is_solution_connection);
    assert!(!c.is_maze_exit);
    assert_eq!(c.split_bits, 0);
    assert!(!c.is_boundary_exit());
}

#[test]
fn boundary_exit_reports_either_flag() {
    let mut c = Connection::new();
    c.is_maze_exit = true;
    assert!(c.is_boundary_exit());
    let mut c = Connection::new();
    c.is_solution_connection = true;
    assert!(c.is_boundary_exit());
}

#[test]
fn connect_writes_both_facing_edges() {
    let mut grid = Grid::new();
    let a = GridCoords { x: 2, y: 3 };
    let b = GridCoords { x: 3, y: 3 };
    assert!(!grid.is_connected(a, b));
    assert!(!grid.is_connected(b, a));
    grid.connect(a, b);
    // Symmetry: both sides report the passage identically.
    assert!(grid.is_connected(a, b));
    assert!(grid.is_connected(b, a));
    // An unrelated edge is untouched.
    let c = GridCoords { x: 2, y: 4 };
    assert!(!grid.is_connected(a, c));
}

#[test]
fn connect_solution_marks_both_sides() {
    let mut grid = Grid::new();
    let a = GridCoords { x: 5, y: 5 };
    let b = GridCoords { x: 5, y: 6 };
    grid.connect_solution(a, b);
    assert!(grid.get_conn_at(a, Direction::Up).is_solution_connection);
    assert!(grid.get_conn_at(b, Direction::Down).is_solution_connection);
    assert!(!grid.get_conn_at(a, Direction::Up).connected);
}

#[test]
fn mark_boundaries_blocks_the_perimeter() {
    let mut grid = Grid::new();
    grid.mark_boundaries();
    for i in 0..GRID_SIZE {
        assert!(grid.get_conn_at(GridCoords { x: i, y: 0 }, Direction::Down).blocked);
        assert!(grid.get_conn_at(GridCoords { x: i, y: 7 }, Direction::Up).blocked);
        assert!(grid.get_conn_at(GridCoords { x: 0, y: i }, Direction::Left).blocked);
        assert!(grid.get_conn_at(GridCoords { x: 7, y: i }, Direction::Right).blocked);
    }
    // Interior edges stay open.
    assert!(!grid.get_conn_at(GridCoords { x: 3, y: 3 }, Direction::Right).blocked);
    assert!(grid.can_connect(GridCoords { x: 3, y: 3 }, GridCoords { x: 4, y: 3 }));
}

#[test]
fn mark_exit_opens_one_boundary_edge() {
    let mut grid = Grid::new();
    grid.mark_boundaries();
    grid.mark_exit(Direction::Down, 3);
    let e = grid.get_conn_at(GridCoords { x: 3, y: 0 }, Direction::Down);
    assert!(e.connected);
    assert!(!e.blocked);
    assert!(e.is_maze_exit);
    assert!(e.is_solution_connection);
    // The neighboring boundary edge is still a wall.
    let w = grid.get_conn_at(GridCoords { x: 4, y: 0 }, Direction::Down);
    assert!(w.blocked);
    assert!(!w.is_maze_exit);
}

#[test]
fn get_exit_directions_scans_in_fixed_order() {
    let mut grid = Grid::new();
    grid.mark_boundaries();
    grid.mark_exit(Direction::Down, 0);
    grid.mark_exit(Direction::Left, 0);
    let dirs = grid.get_exit_directions(GridCoords { x: 0, y: 0 });
    assert_eq!(dirs.len(), 2);
    assert_eq!(dirs[0], Direction::Left);
    assert_eq!(dirs[1], Direction::Down);
}

#[test]
fn get_all_exits_reports_each_configured_exit_once() {
    let mut grid = Grid::new();
    grid.mark_boundaries();
    grid.mark_exit(Direction::Down, 3);
    grid.mark_exit(Direction::Up, 5);
    let exits = grid.get_all_exits();
    assert_eq!(exits.len(), 2);
    assert_eq!(exits[0], (GridCoords { x: 3, y: 0 }, Direction::Down));
    assert_eq!(exits[1], (GridCoords { x: 5, y: 7 }, Direction::Up));
}

#[test]
fn seams_read_a_full_row_and_column() {
    let mut grid = Grid::new();
    grid.connect(GridCoords { x: 2, y: 4 }, GridCoords { x: 2, y: 5 });
    let row = grid.get_horizontal_seam(4, Direction::Up);
    assert_eq!(row.len(), GRID_SIZE);
    assert!(row[2].connected);
    assert!(!row[3].connected);
    let col = grid.get_vertical_seam(2, Direction::Up);
    assert_eq!(col.len(), GRID_SIZE);
    assert!(col[4].connected);
    assert!(!col[5].connected);
}

#[test]
fn set_boundary_splits_open_edges_by_the_low_split_bit() {
    // One open exit edge with split bits 0b101: the low bit 1 sends the
    // edge to the odd sub-slot, the remaining bits travel along.
    let open = Connection {
        connected: true,
        blocked: false,
        is_solution_connection: true,
        is_maze_exit: true,
        split_bits: 0b101,
    };
    let wall = Connection {
        connected: false,
        blocked: true,
        is_solution_connection: false,
        is_maze_exit: false,
        split_bits: 0,
    };
    let clear = Connection::new();
    let bottom = vec![open, wall, clear, wall];
    let empty = vec![clear, clear, clear, clear];

    let mut child = Grid::new();
    child.set_boundary(&empty, &empty, &empty, &bottom);

    let seam = child.get_horizontal_seam(0, Direction::Down);
    // Parent slot 0 (open, low bit 1): sub-edge 1 inherits, sub-edge 0 clears.
    assert_eq!(seam[0], clear);
    assert!(seam[1].connected);
    assert!(seam[1].is_maze_exit);
    assert!(seam[1].is_solution_connection);
    assert!(!seam[1].blocked);
    assert_eq!(seam[1].split_bits, 0b10);
    // Parent slot 1 (a wall): both sub-edges are walls.
    assert!(seam[2].blocked);
    assert!(seam[3].blocked);
    // Parent slot 2 (clear, low bit 0): sub-edge 0 inherits the cleared
    // record, sub-edge 1 is reset; both end up fully cleared.
    assert_eq!(seam[4], clear);
    assert_eq!(seam[5], clear);
    // Parent slot 3 (a wall) again blocks both.
    assert!(seam[6].blocked && seam[7].blocked);
}

#[test]
fn set_boundary_split_is_reproducible() {
    let open = Connection {
        connected: true,
        blocked: false,
        is_solution_connection: false,
        is_maze_exit: true,
        split_bits: 0b0110,
    };
    let clear = Connection::new();
    let side = vec![open, clear, clear, clear];
    let empty = vec![clear, clear, clear, clear];

    let mut first = Grid::new();
    first.set_boundary(&side, &empty, &empty, &empty);
    let mut second = Grid::new();
    second.set_boundary(&side, &empty, &empty, &empty);

    let a = first.get_vertical_seam(GRID_SIZE - 1, Direction::Right);
    let b = second.get_vertical_seam(GRID_SIZE - 1, Direction::Right);
    assert_eq!(a, b);
    // Low bit 0: the even sub-slot inherits the exit.
    assert!(a[0].is_maze_exit);
    assert_eq!(a[0].split_bits, 0b011);
    assert_eq!(a[1], clear);
}

#[test]
fn propagate_interior_doubles_parent_walls() {
    // A parent with no passages at all: every interior parent edge is a
    // wall, so the child is split into sixteen 2x2 pockets.
    let parent = Grid::new();
    let mut child = Grid::new();
    parent.propagate_interior(&mut child, 0..4, 0..4);

    // The wall between parent cells (0,0) and (1,0) doubles onto child
    // column 1/2, rows 0 and 1, on both sides.
    assert!(child.get_conn_at(GridCoords { x: 1, y: 0 }, Direction::Right).blocked);
    assert!(child.get_conn_at(GridCoords { x: 1, y: 1 }, Direction::Right).blocked);
    assert!(child.get_conn_at(GridCoords { x: 2, y: 0 }, Direction::Left).blocked);
    assert!(child.get_conn_at(GridCoords { x: 2, y: 1 }, Direction::Left).blocked);
    // Inside a 2x2 pocket nothing is blocked.
    assert!(!child.get_conn_at(GridCoords { x: 0, y: 0 }, Direction::Right).blocked);
    assert!(!child.get_conn_at(GridCoords { x: 0, y: 0 }, Direction::Up).blocked);
    assert!(child.can_connect(GridCoords { x: 0, y: 0 }, GridCoords { x: 1, y: 0 }));
    assert!(!child.can_connect(GridCoords { x: 1, y: 0 }, GridCoords { x: 2, y: 0 }));
}

#[test]
fn image_bytes_pack_connection_and_solution_nibbles() {
    let mut grid = Grid::new();
    let a = GridCoords { x: 0, y: 0 };
    let b = GridCoords { x: 1, y: 0 };
    grid.connect(a, b);
    grid.connect_solution(a, b);
    let bytes = grid.to_image_bytes();
    assert_eq!(bytes.len(), 192);
    // Cell (0,0): right connection only -> bit 3.
    assert_eq!(bytes[0], 0b1000);
    assert_eq!(bytes[1], 0b1000);
    assert_eq!(bytes[2], 0);
    // Cell (1,0): left connection only -> bit 2.
    assert_eq!(bytes[3], 0b0100);
    assert_eq!(bytes[4], 0b0100);
    assert_eq!(bytes[5], 0);
    // Every other byte is zero.
    for i in 6..192 {
        assert_eq!(bytes[i], 0);
    }
}

#[test]
fn debug_image_bytes_shift_the_nibble_up() {
    let mut grid = Grid::new();
    grid.connect(GridCoords { x: 0, y: 0 }, GridCoords { x: 1, y: 0 });
    let plain = grid.to_image_bytes();
    let debug = grid.to_debug_image_bytes();
    assert_eq!(debug.len(), plain.len());
    for i in 0..plain.len() {
        assert_eq!(debug[i], plain[i] << 4);
    }
    assert_eq!(debug[0], 0b1000_0000);
}

#[test]
fn connection_bits_follow_the_documented_bit_order() {
    let mut grid = Grid::new();
    let c = GridCoords { x: 3, y: 3 };
    grid.connect(c, GridCoords { x: 3, y: 4 }); // up -> bit 0
    grid.connect(c, GridCoords { x: 3, y: 2 }); // down -> bit 1
    grid.connect(c, GridCoords { x: 2, y: 3 }); // left -> bit 2
    grid.connect(c, GridCoords { x: 4, y: 3 }); // right -> bit 3
    let cell = grid.get_cell(c);
    assert_eq!(cell.get_connection_bits(), 0b1111);
    assert_eq!(cell.get_solution_bits(), 0);

    let mut grid = Grid::new();
    grid.connect(c, GridCoords { x: 3, y: 2 });
    assert_eq!(grid.get_cell(c).get_connection_bits(), 0b0010);
}
