use maze_solver::cell::{classify, decode, CellKind};
use maze_solver::error::MazeError;
use maze_solver::export::{build_maze_json, decode_grid, encode_grid, Cell, Position};
use maze_solver::grid::Maze;
use maze_solver::search::solve_maze;

fn grid(lines: &[&str]) -> Maze {
    let rows: Vec<Vec<char>> = lines.iter().map(|l| l.chars().collect()).collect();
    Maze::from_rows(rows).expect("rectangular grid")
}

fn check_route(maze: &Maze, route: &[(usize, usize)]) {
    assert!(!route.is_empty());
    assert_eq!(maze.data[route[0].0][route[0].1], 'S');
    let last = route[route.len() - 1];
    assert_eq!(maze.data[last.0][last.1], 'G');
    for w in route.windows(2) {
        let dr = (w[0].0 as i64 - w[1].0 as i64).abs();
        let dc = (w[0].1 as i64 - w[1].1 as i64).abs();
        assert_eq!(dr + dc, 1);
    }
    for (i, a) in route.iter().enumerate() {
        assert_ne!(maze.data[a.0][a.1], '#');
        for b in &route[i + 1..] {
            assert_ne!(a, b);
        }
    }
}

#[test]
fn classify_legal_symbols() {
    assert_eq!(classify('S'), Ok(0));
    assert_eq!(classify('G'), Ok(1));
    assert_eq!(classify('.'), Ok(2));
    assert_eq!(classify('#'), Ok(3));
}

#[test]
fn classify_rejects_fifth_symbol() {
    assert_eq!(classify('x'), Err(MazeError::UnknownSymbol('x')));
    assert_eq!(classify(' '), Err(MazeError::UnknownSymbol(' ')));
}

#[test]
fn decode_inverts_classify() {
    for c in ['S', 'G', '.', '#'] {
        let code = classify(c).unwrap();
        assert_eq!(decode(code), Some(c));
    }
    assert_eq!(decode(4), None);
    assert_eq!(decode(255), None);
}

#[test]
fn cell_kind_codes_and_symbols() {
    assert_eq!(CellKind::from_symbol('#'), Some(CellKind::Wall));
    assert_eq!(CellKind::from_symbol('?'), None);
    assert_eq!(CellKind::from_code(1), Some(CellKind::Goal));
    assert_eq!(CellKind::Open.symbol(), '.');
    assert_eq!(CellKind::Start.code(), 0);
}

#[test]
fn from_rows_sets_dimensions() {
    let m = grid(&["S..#", ".#.#", "..G#"]);
    assert_eq!(m.rows(), 3);
    assert_eq!(m.cols(), 4);
    assert_eq!(m.cell((2, 2)), 'G');
}

#[test]
fn from_rows_rejects_ragged_row() {
    let rows: Vec<Vec<char>> = vec!["S..".chars().collect(), "..".chars().collect(), "..G".chars().collect()];
    assert_eq!(Maze::from_rows(rows).err(), Some(MazeError::RaggedRow(1)));
}

#[test]
fn from_rows_accepts_empty_input() {
    let m = Maze::from_rows(Vec::new()).unwrap();
    assert_eq!(m.rows(), 0);
    assert_eq!(m.cols(), 0);
    assert_eq!(solve_maze(&m), Err(MazeError::NoStart));
}

#[test]
fn find_start_and_goal_scan_row_major() {
    let m = grid(&["..G", "S.S", "G.."]);
    assert_eq!(m.find_start(), Ok((1, 0)));
    assert_eq!(m.find_goal(), Ok((0, 2)));
    let none = grid(&["..", ".."]);
    assert_eq!(none.find_start(), Err(MazeError::NoStart));
    assert_eq!(none.find_goal(), Err(MazeError::NoGoal));
}

#[test]
fn solves_example_grid_in_depth_first_order() {
    let m = grid(&["S..#", ".#.#", "..G#"]);
    let route = solve_maze(&m).unwrap().unwrap();
    assert_eq!(route, vec![(0, 0), (0, 1), (0, 2), (1, 2), (2, 2)]);
    check_route(&m, &route);
}

#[test]
fn enclosed_goal_has_no_route() {
    let m = grid(&["S###", ".#G#", "..##"]);
    assert_eq!(solve_maze(&m), Ok(None));
}

#[test]
fn walled_off_start_has_no_route() {
    let m = grid(&["S#..", "##..", "...G"]);
    assert_eq!(solve_maze(&m), Ok(None));
}

#[test]
fn missing_start_is_a_fault() {
    let m = grid(&["..G", "..."]);
    assert_eq!(solve_maze(&m), Err(MazeError::NoStart));
}

#[test]
fn adjacent_goal_gives_two_cell_route() {
    let m = grid(&["SG"]);
    assert_eq!(solve_maze(&m), Ok(Some(vec![(0, 0), (0, 1)])));
}

#[test]
fn route_prefers_last_pushed_neighbour() {
    // Right is pushed last, so it is explored first: the route goes
    // right and down, though down and right is as short.
    let m = grid(&["S.", ".G"]);
    assert_eq!(solve_maze(&m), Ok(Some(vec![(0, 0), (0, 1), (1, 1)])));
}

#[test]
fn depth_first_route_need_not_be_shortest() {
    let m = grid(&["S..", "...", "G.."]);
    let route = solve_maze(&m).unwrap().unwrap();
    check_route(&m, &route);
    assert_eq!(route, vec![(0, 0), (0, 1), (0, 2), (1, 2), (2, 2), (2, 1), (2, 0)]);
}

#[test]
fn route_follows_last_in_first_out_order() {
    let m = grid(&["...", "S.G", "..."]);
    let route = solve_maze(&m).unwrap().unwrap();
    check_route(&m, &route);
    assert_eq!(route, vec![(1, 0), (1, 1), (1, 2)]);
    let m2 = grid(&["....", "S#.G", "...."]);
    let route2 = solve_maze(&m2).unwrap().unwrap();
    check_route(&m2, &route2);
    assert_eq!(route2, vec![(1, 0), (2, 0), (2, 1), (2, 2), (2, 3), (1, 3)]);
}

#[test]
fn longer_maze_route_is_valid() {
    let m = grid(&[
        "S.#.....",
        ".##.###.",
        "....#...",
        "#.#.#.#.",
        "..#...#G",
    ]);
    let route = solve_maze(&m).unwrap().unwrap();
    check_route(&m, &route);
}

#[test]
fn document_matches_grid() {
    let m = grid(&["S..#", ".#.#", "..G#"]);
    let route = solve_maze(&m).unwrap().unwrap();
    let doc = build_maze_json(&m, &route).unwrap();
    assert_eq!(doc.width, 4);
    assert_eq!(doc.height, 3);
    assert_eq!(doc.start, Position { x: 0, y: 0 });
    assert_eq!(doc.goal, Position { x: 2, y: 2 });
    assert_eq!(doc.maze.len(), 12);
    assert_eq!(doc.maze[0], Cell { x: 0, y: 0, cell_type: 0 });
    assert_eq!(doc.maze[3], Cell { x: 3, y: 0, cell_type: 3 });
    assert_eq!(doc.maze[5], Cell { x: 1, y: 1, cell_type: 3 });
    assert_eq!(doc.maze[10], Cell { x: 2, y: 2, cell_type: 1 });
    assert_eq!(doc.maze[11], Cell { x: 3, y: 2, cell_type: 3 });
    assert_eq!(
        doc.solution,
        vec![
            Position { x: 0, y: 0 },
            Position { x: 1, y: 0 },
            Position { x: 2, y: 0 },
            Position { x: 2, y: 1 },
            Position { x: 2, y: 2 },
        ]
    );
}

#[test]
fn document_size_of_wide_grid() {
    let m = grid(&["S....G"]);
    let doc = build_maze_json(&m, &vec![(0, 0)]).unwrap();
    assert_eq!(doc.width, 6);
    assert_eq!(doc.height, 1);
    assert_eq!(doc.maze.len(), 6);
    assert_eq!(doc.goal, Position { x: 5, y: 0 });
}

#[test]
fn document_rejects_unknown_symbol() {
    let m = grid(&["S.", "x?", "G."]);
    assert_eq!(build_maze_json(&m, &Vec::new()).err(), Some(MazeError::UnknownSymbol('x')));
}

#[test]
fn document_needs_start_and_goal() {
    let no_start = grid(&["..", ".G"]);
    assert_eq!(build_maze_json(&no_start, &Vec::new()).err(), Some(MazeError::NoStart));
    let no_goal = grid(&["S.", ".."]);
    assert_eq!(build_maze_json(&no_goal, &Vec::new()).err(), Some(MazeError::NoGoal));
}

#[test]
fn codes_round_trip_to_grid() {
    let m = grid(&["S..#", ".#.#", "..G#"]);
    let codes = encode_grid(&m).unwrap();
    assert_eq!(codes[0], vec![0, 2, 2, 3]);
    assert_eq!(codes[2], vec![2, 2, 1, 3]);
    let back = decode_grid(&codes).unwrap();
    assert_eq!(back, m.data);
}

#[test]
fn encode_rejects_unknown_symbol() {
    let m = grid(&["S.", ".*"]);
    assert_eq!(encode_grid(&m), Err(MazeError::UnknownSymbol('*')));
}

#[test]
fn decode_rejects_large_code() {
    assert_eq!(decode_grid(&vec![vec![0, 1], vec![2, 7]]), None);
    assert_eq!(decode_grid(&Vec::new()), Some(Vec::new()));
}

fn text(s: &str) -> Vec<char> {
    s.chars().collect()
}

#[test]
fn parse_reads_one_row_per_line() {
    let m = Maze::parse(&text("S..#\n.#.#\n..G#\n")).unwrap();
    assert_eq!(m.rows(), 3);
    assert_eq!(m.cols(), 4);
    assert_eq!(m.data[2], vec!['.', '.', 'G', '#']);
    assert_eq!(solve_maze(&m), Ok(Some(vec![(0, 0), (0, 1), (0, 2), (1, 2), (2, 2)])));
}

#[test]
fn parse_drops_carriage_returns_and_keeps_last_line() {
    let m = Maze::parse(&text("S.\r\n.G")).unwrap();
    assert_eq!(m.rows(), 2);
    assert_eq!(m.cols(), 2);
    assert_eq!(m.data, vec![vec!['S', '.'], vec!['.', 'G']]);
}

#[test]
fn parse_keeps_empty_inner_line_and_rejects_it() {
    assert_eq!(Maze::parse(&text("S.\n\n.G\n")).err(), Some(MazeError::RaggedRow(1)));
}

#[test]
fn parse_width_is_first_line_length() {
    assert_eq!(Maze::parse(&text("S.G\n...\n..\n")).err(), Some(MazeError::RaggedRow(2)));
    assert_eq!(Maze::parse(&text("S.\n...\n")).err(), Some(MazeError::RaggedRow(1)));
}

#[test]
fn parse_empty_text() {
    let m = Maze::parse(&Vec::new()).unwrap();
    assert_eq!(m.rows(), 0);
    assert_eq!(m.cols(), 0);
    let one = Maze::parse(&text("\n")).unwrap();
    assert_eq!(one.rows(), 1);
    assert_eq!(one.cols(), 0);
}
