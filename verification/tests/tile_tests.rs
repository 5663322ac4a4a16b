use nested_mazes::dfs::{DFSMaze, DFSSolutionFinder};
use nested_mazes::direction::Direction;
use nested_mazes::grid::Grid;
use nested_mazes::grid_coords::{GridCoords, GRID_SIZE};
use nested_mazes::tile::Tile;

fn count_connected_pairs(grid: &Grid) -> usize {
    let mut bits: usize = 0;
    for y in 0..GRID_SIZE {
        for x in 0..GRID_SIZE {
            let cell = grid.get_cell(GridCoords { x, y });
            bits += cell.get_connection_bits().count_ones() as usize;
        }
    }
    // Interior passages are recorded on both facing edges; boundary exits
    // are the only single-sided records, and these grids have none or are
    // counted by the caller.
    bits
}

#[test]
fn maze_fill_spans_a_fully_open_grid() {
    // Spanning-tree check on one component: 64 cells, all interior edges
    // available, no exits. A spanning tree has exactly 63 passages, each
    // recorded twice.
    let mut grid = Grid::new();
    grid.mark_boundaries();
    let mut maze_gen = DFSMaze::new();
    maze_gen.maze_fill(&mut grid);

    for y in 0..GRID_SIZE {
        for x in 0..GRID_SIZE {
            assert!(grid.get_cell(GridCoords { x, y }).get_connection_bits() != 0);
        }
    }
    assert_eq!(count_connected_pairs(&grid), 63 * 2);
}

#[test]
fn maze_fill_spans_every_pocket_of_a_walled_grid() {
    // Pre-set blocked pattern: doubling an unconnected parent splits the
    // child into sixteen 2x2 pockets. Carving must span each pocket
    // separately: 16 spanning trees of 4 cells, 3 passages each.
    let parent = Grid::new();
    let mut child = Grid::new();
    child.mark_boundaries();
    parent.propagate_interior(&mut child, 0..4, 0..4);
    let mut maze_gen = DFSMaze::new();
    maze_gen.maze_fill(&mut child);

    for y in 0..GRID_SIZE {
        for x in 0..GRID_SIZE {
            assert!(child.get_cell(GridCoords { x, y }).get_connection_bits() != 0);
        }
    }
    assert_eq!(count_connected_pairs(&child), 16 * 3 * 2);
    // No passage crosses a pocket wall.
    assert!(!child.get_conn_at(GridCoords { x: 1, y: 0 }, Direction::Right).connected);
    assert!(!child.get_conn_at(GridCoords { x: 0, y: 1 }, Direction::Up).connected);
}

#[test]
fn make_root_reports_exactly_the_two_configured_exits() {
    let mut maze_gen = DFSMaze::new();
    let root = Tile::make_root(&mut maze_gen);
    assert_eq!(root.level, 0);
    assert_eq!(root.x, 0);
    assert_eq!(root.y, 0);
    let exits = root.grid.get_all_exits();
    assert_eq!(exits.len(), 2);
    assert_eq!(exits[0], (GridCoords { x: 3, y: 0 }, Direction::Down));
    assert_eq!(exits[1], (GridCoords { x: 5, y: 7 }, Direction::Up));
}

#[test]
fn root_scenario_connects_every_cell() {
    // An 8x8 grid with all boundaries blocked except the forced exits at
    // (Down, 3) and (Up, 5): after full carving every cell carries at
    // least one passage.
    let mut maze_gen = DFSMaze::new();
    let root = Tile::make_root(&mut maze_gen);
    for y in 0..GRID_SIZE {
        for x in 0..GRID_SIZE {
            assert!(root.grid.get_cell(GridCoords { x, y }).get_connection_bits() != 0);
        }
    }
}

#[test]
fn subdivide_assigns_quadrant_addresses() {
    let mut maze_gen = DFSMaze::new();
    let root = Tile::make_root(&mut maze_gen);
    let (sw, se, nw, ne) = root.subdivide(&mut maze_gen);
    assert_eq!((sw.level, sw.x, sw.y), (1, 0, 0));
    assert_eq!((se.level, se.x, se.y), (1, 1, 0));
    assert_eq!((nw.level, nw.x, nw.y), (1, 0, 1));
    assert_eq!((ne.level, ne.x, ne.y), (1, 1, 1));
}

#[test]
fn sibling_tiles_agree_on_shared_seams() {
    let mut maze_gen = DFSMaze::new();
    let root = Tile::make_root(&mut maze_gen);
    let (sw, se, nw, ne) = root.subdivide(&mut maze_gen);

    // Vertical seams: southwest's right side against southeast's left
    // side, and the same one row up.
    let sw_right = sw.grid.get_vertical_seam(GRID_SIZE - 1, Direction::Right);
    let se_left = se.grid.get_vertical_seam(0, Direction::Left);
    let nw_right = nw.grid.get_vertical_seam(GRID_SIZE - 1, Direction::Right);
    let ne_left = ne.grid.get_vertical_seam(0, Direction::Left);
    for j in 0..GRID_SIZE {
        assert_eq!(sw_right[j].connected, se_left[j].connected);
        assert_eq!(nw_right[j].connected, ne_left[j].connected);
    }

    // Horizontal seams: the lower tiles' top sides against the upper
    // tiles' bottom sides.
    let sw_top = sw.grid.get_horizontal_seam(GRID_SIZE - 1, Direction::Up);
    let nw_bottom = nw.grid.get_horizontal_seam(0, Direction::Down);
    let se_top = se.grid.get_horizontal_seam(GRID_SIZE - 1, Direction::Up);
    let ne_bottom = ne.grid.get_horizontal_seam(0, Direction::Down);
    for j in 0..GRID_SIZE {
        assert_eq!(sw_top[j].connected, nw_bottom[j].connected);
        assert_eq!(se_top[j].connected, ne_bottom[j].connected);
    }
}

fn count_bottom_exits(grid: &Grid) -> usize {
    let seam = grid.get_horizontal_seam(0, Direction::Down);
    seam.iter().filter(|c| c.is_maze_exit).count()
}

fn count_top_exits(grid: &Grid) -> usize {
    let seam = grid.get_horizontal_seam(GRID_SIZE - 1, Direction::Up);
    seam.iter().filter(|c| c.is_maze_exit).count()
}

#[test]
fn exits_survive_subdivision_exactly_once_per_level() {
    let mut maze_gen = DFSMaze::new();
    let root = Tile::make_root(&mut maze_gen);
    let (sw, se, nw, ne) = root.subdivide(&mut maze_gen);

    // The bottom exit sat at column 3, so it lands in the southwest child;
    // across the two lower children it must appear exactly once, never
    // duplicated into both sub-edges.
    assert_eq!(count_bottom_exits(&sw.grid) + count_bottom_exits(&se.grid), 1);
    assert_eq!(count_bottom_exits(&sw.grid), 1);
    // The top exit sat at column 5, in the northeast child's half.
    assert_eq!(count_top_exits(&nw.grid) + count_top_exits(&ne.grid), 1);
    assert_eq!(count_top_exits(&ne.grid), 1);

    // One level further down, the bottom exit still crosses the original
    // footprint exactly once.
    let (a, b, _, _) = sw.subdivide(&mut maze_gen);
    assert_eq!(count_bottom_exits(&a.grid) + count_bottom_exits(&b.grid), 1);
    let (_, _, c, d) = ne.subdivide(&mut maze_gen);
    assert_eq!(count_top_exits(&c.grid) + count_top_exits(&d.grid), 1);
}

#[test]
fn root_boundary_is_walled_except_the_exits() {
    let mut maze_gen = DFSMaze::new();
    let root = Tile::make_root(&mut maze_gen);
    let bottom = root.grid.get_horizontal_seam(0, Direction::Down);
    let top = root.grid.get_horizontal_seam(GRID_SIZE - 1, Direction::Up);
    for i in 0..GRID_SIZE {
        assert_eq!(bottom[i].blocked, i != 3);
        assert_eq!(bottom[i].is_maze_exit, i == 3);
        assert_eq!(top[i].blocked, i != 5);
        assert_eq!(top[i].is_maze_exit, i == 5);
    }
    let left = root.grid.get_vertical_seam(0, Direction::Left);
    let right = root.grid.get_vertical_seam(GRID_SIZE - 1, Direction::Right);
    for i in 0..GRID_SIZE {
        assert!(left[i].blocked && right[i].blocked);
    }
}

#[test]
fn solution_finder_marks_a_path_between_exits() {
    // A deterministic maze: one straight corridor along the left column,
    // with exits at its two ends.
    let mut grid = Grid::new();
    grid.mark_boundaries();
    grid.mark_exit(Direction::Down, 0);
    grid.mark_exit(Direction::Up, 0);
    for y in 0..GRID_SIZE - 1 {
        grid.connect(GridCoords { x: 0, y }, GridCoords { x: 0, y: y + 1 });
    }

    let mut finder = DFSSolutionFinder::new();
    finder.solve_all_paths(&mut grid);

    // Every corridor edge is flagged, on both sides.
    for y in 0..GRID_SIZE - 1 {
        assert!(grid.get_conn_at(GridCoords { x: 0, y }, Direction::Up).is_solution_connection);
        assert!(
            grid.get_conn_at(GridCoords { x: 0, y: y + 1 }, Direction::Down)
                .is_solution_connection
        );
    }
    // Nothing else is flagged.
    for y in 0..GRID_SIZE {
        assert!(!grid.get_conn_at(GridCoords { x: 1, y }, Direction::Up).is_solution_connection);
        assert!(!grid.get_conn_at(GridCoords { x: 1, y }, Direction::Right).is_solution_connection);
    }
}

#[test]
fn solution_finder_tolerates_a_dead_end_exit() {
    // A single exit with no partner: the search exhausts its component and
    // stops without marking anything new.
    let mut grid = Grid::new();
    grid.mark_boundaries();
    grid.mark_exit(Direction::Down, 2);
    grid.connect(GridCoords { x: 2, y: 0 }, GridCoords { x: 2, y: 1 });

    let mut finder = DFSSolutionFinder::new();
    finder.solve_all_paths(&mut grid);

    assert!(!grid.get_conn_at(GridCoords { x: 2, y: 0 }, Direction::Up).is_solution_connection);
    let exits = grid.get_all_exits();
    assert_eq!(exits.len(), 1);
}

#[test]
fn solution_finder_consumes_exits_pairwise() {
    // Three exits along the left corridor: the first search runs from the
    // bottom exit and stops at the first other exit it meets (the side exit
    // at height 3), marking only that stretch; the top exit's own search
    // then exhausts its region without finding a partner and marks nothing.
    let mut grid = Grid::new();
    grid.mark_boundaries();
    grid.mark_exit(Direction::Down, 0);
    grid.mark_exit(Direction::Up, 0);
    grid.mark_exit(Direction::Left, 3);
    for y in 0..GRID_SIZE - 1 {
        grid.connect(GridCoords { x: 0, y }, GridCoords { x: 0, y: y + 1 });
    }

    let mut finder = DFSSolutionFinder::new();
    finder.solve_all_paths(&mut grid);

    // Marked: the stretch from the bottom exit up to the side exit.
    for y in 0..3 {
        assert!(grid.get_conn_at(GridCoords { x: 0, y }, Direction::Up).is_solution_connection);
    }
    // Unmarked: the stretch between the side exit and the top exit.
    for y in 3..GRID_SIZE - 1 {
        assert!(!grid.get_conn_at(GridCoords { x: 0, y }, Direction::Up).is_solution_connection);
    }
    // The scan still reports all three exits afterwards.
    assert_eq!(grid.get_all_exits().len(), 3);
}

#[test]
fn image_buffer_is_png_encoded() {
    let mut maze_gen = DFSMaze::new();
    let root = Tile::make_root(&mut maze_gen);
    let buffer = root.make_image_buffer();
    // A PNG stream, not the raw pixel bytes: signature first, and a
    // different shape than the 192-byte pixel array.
    assert_eq!(&buffer[0..8], &[0x89, b'P', b'N', b'G', 0x0D, 0x0A, 0x1A, 0x0A]);
    assert_ne!(buffer, root.grid.to_image_bytes());
    // The same tile encodes to the same stream.
    assert_eq!(buffer, root.make_image_buffer());
}

#[test]
fn padding_length_rounds_up_to_four_bytes() {
    assert_eq!(Tile::get_padding_length(1), 3);
    assert_eq!(Tile::get_padding_length(2), 2);
    assert_eq!(Tile::get_padding_length(3), 1);
    assert_eq!(Tile::get_padding_length(4), 0);
    assert_eq!(Tile::get_padding_length(5), 3);
    assert_eq!(Tile::get_padding_length(192), 0);
}

#[test]
fn make_padding_repeats_the_padding_byte() {
    let pad = Tile::make_padding(3, b' ');
    assert_eq!(pad, vec![b' ', b' ', b' ']);
    let none = Tile::make_padding(0, 0);
    assert!(none.is_empty());
}
