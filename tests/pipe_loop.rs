use pipe_maze::direction::Direction;
use pipe_maze::grid::{Grid, GridError};
use pipe_maze::walk::farthest_point;

#[test]
fn scenario_crowded_five_by_five() {
    assert_eq!(farthest_point("-L|F7\n7S-7|\nL|7||\n-L-J|\nL|-JF"), Ok(4));
}

#[test]
fn scenario_square_loop_around_start() {
    let text = ".....\n.S-7.\n.|.|.\n.L-J.\n.....";
    let grid = Grid::from(text).unwrap();
    let (left, right) = grid.walk().unwrap();
    assert_eq!(left.len(), right.len());
    let mut cells: Vec<(usize, usize)> = left.clone();
    for p in right {
        if !cells.contains(&p) {
            cells.push(p);
        }
    }
    assert_eq!(cells.len(), 8);
    assert_eq!(grid.farthest_distance(), Ok(cells.len() / 2));
    assert_eq!(farthest_point(text), Ok(4));
}

#[test]
fn longer_loop_with_trailing_newline() {
    let text = "..F7.\n.FJ|.\nSJ.L7\n|F--J\nLJ...\n";
    assert_eq!(farthest_point(text), Ok(8));
}

#[test]
fn start_in_top_left_corner() {
    assert_eq!(farthest_point("S-7\n|.|\nL-J"), Ok(4));
    let grid = Grid::from("S7\nLJ").unwrap();
    assert_eq!(grid.connections_by_position(0, 0), vec![Direction::South, Direction::East]);
    assert_eq!(grid.farthest_distance(), Ok(2));
}

#[test]
fn start_in_bottom_right_corner() {
    assert_eq!(farthest_point("F-7\n|.|\nL-S"), Ok(4));
}

#[test]
fn start_in_leftmost_column() {
    assert_eq!(farthest_point("F-7\nS.|\nL-J"), Ok(4));
}

#[test]
fn unknown_glyph_is_malformed() {
    assert_eq!(farthest_point("S-7\n|X|\nL-J"), Err(GridError::MalformedGlyph));
    assert!(matches!(Grid::from("S-7\n|.|\nL-J\n..#"), Err(GridError::MalformedGlyph)));
}

#[test]
fn unequal_rows_are_refused() {
    assert!(matches!(Grid::from("S-7\n|.|.\nL-J"), Err(GridError::NonRectangularGrid)));
}

#[test]
fn missing_start_is_refused() {
    assert!(matches!(Grid::from("F-7\n|.|\nL-J"), Err(GridError::StartNotFound)));
    assert!(matches!(Grid::from(""), Err(GridError::StartNotFound)));
}

#[test]
fn start_with_three_pipes_pointing_at_it_is_ambiguous() {
    assert!(matches!(Grid::from(".|.\n-S-\n..."), Err(GridError::AmbiguousStartConnectivity)));
    assert!(matches!(Grid::from("S..\n...\n..."), Err(GridError::AmbiguousStartConnectivity)));
}

#[test]
fn loop_that_never_closes_is_broken() {
    assert_eq!(farthest_point("S-7\n|..\nL--"), Err(GridError::BrokenLoopInvariant));
}

#[test]
fn glyph_catalog() {
    assert_eq!(Grid::connections_by_char('|'), Ok(vec![Direction::North, Direction::South]));
    assert_eq!(Grid::connections_by_char('-'), Ok(vec![Direction::East, Direction::West]));
    assert_eq!(Grid::connections_by_char('L'), Ok(vec![Direction::North, Direction::East]));
    assert_eq!(Grid::connections_by_char('J'), Ok(vec![Direction::North, Direction::West]));
    assert_eq!(Grid::connections_by_char('7'), Ok(vec![Direction::South, Direction::West]));
    assert_eq!(Grid::connections_by_char('F'), Ok(vec![Direction::South, Direction::East]));
    assert_eq!(Grid::connections_by_char('.'), Ok(vec![]));
    assert_eq!(Grid::connections_by_char('S'), Ok(vec![]));
    assert_eq!(Grid::connections_by_char('x'), Err(GridError::MalformedGlyph));
}

#[test]
fn opposite_turns_around() {
    for d in [Direction::North, Direction::South, Direction::East, Direction::West] {
        assert_eq!(d.opposite().opposite(), d);
        assert_ne!(d.opposite(), d);
    }
    assert_eq!(Direction::North.opposite(), Direction::South);
    assert_eq!(Direction::East.opposite(), Direction::West);
}

#[test]
fn patched_start_has_two_connections() {
    let grid = Grid::from("-L|F7\n7S-7|\nL|7||\n-L-J|\nL|-JF").unwrap();
    let (row, col) = grid.start();
    assert_eq!((row, col), (1, 1));
    let tile = grid.get(row, col);
    assert_eq!(tile.glyph, 'S');
    assert_eq!(tile.connects, vec![Direction::South, Direction::East]);
    assert!(tile.connects_to(Direction::East));
    assert!(!tile.connects_to(Direction::North));
    assert_eq!(grid.height(), 5);
    assert_eq!(grid.width(), 5);
}

#[test]
fn loop_tiles_reciprocate() {
    let grid = Grid::from("..F7.\n.FJ|.\nSJ.L7\n|F--J\nLJ...").unwrap();
    let (left, right) = grid.walk().unwrap();
    for (row, col) in left.iter().chain(right.iter()) {
        assert!(grid.is_loop_tile(*row, *col));
        for d in grid.get(*row, *col).connects.clone() {
            let (r2, c2) = grid.neighbor_position(*row, *col, d).unwrap();
            assert!(grid.get(r2, c2).connects_to(d.opposite()));
        }
    }
}

#[test]
fn traversal_is_deterministic() {
    let text = "7-F7-\n.FJ|7\nSJLL7\n|F--J\nLJ.LJ";
    let first = farthest_point(text);
    assert_eq!(first, Ok(8));
    assert_eq!(farthest_point(text), first);
}

#[test]
fn surrounding_white_space_is_dropped() {
    assert_eq!(farthest_point("\n  \nS7\nLJ\n \t"), Ok(2));
}

#[test]
fn white_space_agrees_with_std() {
    for code in 0u32..=0x10ffff {
        if let Some(c) = char::from_u32(code) {
            assert_eq!(pipe_maze::text::is_white_space(c), c.is_whitespace(), "{:x}", code);
        }
    }
}

#[test]
fn white_space_inside_the_grid_is_malformed() {
    assert_eq!(farthest_point("  S-7\n|.|\nL-J\n\t"), Ok(4));
    assert_eq!(farthest_point("S7\nL J"), Err(GridError::MalformedGlyph));
    assert_eq!(farthest_point("S7\u{00a0}\nLJ"), Err(GridError::MalformedGlyph));
    assert_eq!(farthest_point("\u{3000}S7\nLJ\u{2028}"), Ok(2));
}
