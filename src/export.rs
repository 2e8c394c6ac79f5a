use vstd::prelude::*;

use crate::cell::{classify, code_symbol, decode, is_legal, symbol_code};
use crate::error::MazeError;
use crate::grid::{all_legal, at, before, has_symbol, in_grid, is_first, Maze, Pos};
use crate::search::solved;

verus! {

/// A point of the document: `x` is the column, `y` the row.
#[derive(Clone, Copy, Debug, PartialEq, Eq, Structural)]
pub struct Position {
    pub x: usize,
    pub y: usize,
}

/// One grid cell of the document with its class code.
#[derive(Clone, Copy, Debug, PartialEq, Eq, Structural)]
pub struct Cell {
    pub x: usize,
    pub y: usize,
    pub cell_type: u8,
}

/// The exported maze: its size, the start and goal, every cell in
/// row-major order, and the route from start to goal.
#[derive(Debug)]
pub struct MazeJson {
    pub width: usize,
    pub height: usize,
    pub start: Position,
    pub goal: Position,
    pub maze: Vec<Cell>,
    pub solution: Vec<Position>,
}

/// The class codes of a grid of legal symbols.
pub open spec fn code_grid(g: Seq<Seq<char>>) -> Seq<Seq<u8>> {
    g.map_values(|row: Seq<char>| row.map_values(|c: char| symbol_code(c).unwrap()))
}

/// The symbols of a grid of valid codes.
pub open spec fn symbol_grid(k: Seq<Seq<u8>>) -> Seq<Seq<char>> {
    k.map_values(|row: Seq<u8>| row.map_values(|b: u8| code_symbol(b).unwrap()))
}

pub open spec fn all_codes_valid(k: Seq<Seq<u8>>) -> bool {
    forall|i: int, j: int| 0 <= i < k.len() && 0 <= j < k[i].len() ==> #[trigger] k[i][j] < 4
}

/// `p` holds the first symbol, in row-major order, that is not legal.
pub open spec fn first_illegal(g: Seq<Seq<char>>, p: Pos) -> bool {
    &&& in_grid(g, p)
    &&& !is_legal(at(g, p))
    &&& forall|q: Pos| in_grid(g, q) && before(q, p) ==> is_legal(#[trigger] at(g, q))
}

/// The document entries of row `y`.
pub open spec fn row_entries(y: int, row: Seq<char>) -> Seq<Cell> {
    row.map(|x: int, c: char| Cell { x: x as usize, y: y as usize, cell_type: symbol_code(c).unwrap() })
}

/// The document entries of the first `n` rows, row after row.
pub open spec fn entries_upto(g: Seq<Seq<char>>, n: int) -> Seq<Cell> {
    g.subrange(0, n).map(|y: int, row: Seq<char>| row_entries(y, row)).flatten()
}

/// The document entries of every cell, in row-major order.
pub open spec fn cell_entries(g: Seq<Seq<char>>) -> Seq<Cell> {
    entries_upto(g, g.len() as int)
}

/// The document points of a route, in route order.
pub open spec fn route_entries(route: Seq<Pos>) -> Seq<Position> {
    route.map_values(|p: Pos| Position { x: p.1, y: p.0 })
}

pub open spec fn position_of(p: Pos) -> Position {
    Position { x: p.1, y: p.0 }
}

/// Decoding the codes of a grid of legal symbols gives the grid back, and
/// every code is valid.
pub proof fn lemma_codes_round_trip(g: Seq<Seq<char>>)
    requires
        all_legal(g),
    ensures
        all_codes_valid(code_grid(g)),
        symbol_grid(code_grid(g)) == g,
{
    let k = code_grid(g);
    assert forall|i: int, j: int| 0 <= i < k.len() && 0 <= j < k[i].len() implies #[trigger] k[i][j]
        < 4 by {
        assert(is_legal(g[i][j]));
    }
    assert forall|i: int| 0 <= i < g.len() implies #[trigger] symbol_grid(k)[i] == g[i] by {
        assert forall|j: int| 0 <= j < g[i].len() implies #[trigger] symbol_grid(k)[i][j] == g[i][j] by {
            assert(is_legal(g[i][j]));
        }
        assert(symbol_grid(k)[i] =~= g[i]);
    }
    assert(symbol_grid(k) =~= g);
}

/// The class codes of every cell, row by row. The first illegal symbol in
/// row-major order is a fault.
pub fn encode_grid(maze: &Maze) -> (r: Result<Vec<Vec<u8>>, MazeError>)
    requires
        maze.wf(),
    ensures
        match r {
            Ok(codes) => all_legal(maze@) && codes@.map_values(|row: Vec<u8>| row@) == code_grid(
                maze@,
            ),
            Err(e) => exists|p: Pos|
                first_illegal(maze@, p) && e == MazeError::UnknownSymbol(#[trigger] at(maze@, p)),
        },
{
    let mut out: Vec<Vec<u8>> = Vec::new();
    let mut y: usize = 0;
    while y < maze.rows
        invariant
            maze.wf(),
            y <= maze.rows,
            out@.len() == y,
            forall|i: int| 0 <= i < y ==> (#[trigger] out@[i])@ == code_grid(maze@)[i],
            forall|i: int, j: int| 0 <= i < y && 0 <= j < maze.cols ==> is_legal(#[trigger] maze@[i][j]),
        decreases maze.rows - y,
    {
        let mut row: Vec<u8> = Vec::new();
        let mut x: usize = 0;
        while x < maze.cols
            invariant
                maze.wf(),
                y < maze.rows,
                x <= maze.cols,
                row@.len() == x,
                forall|j: int| 0 <= j < x ==> #[trigger] row@[j] == code_grid(maze@)[y as int][j],
                forall|i: int, j: int|
                    (0 <= i < y && 0 <= j < maze.cols) || (i == y && 0 <= j < x) ==> is_legal(
                        #[trigger] maze@[i][j],
                    ),
            decreases maze.cols - x,
        {
            match classify(maze.data[y][x]) {
                Ok(code) => row.push(code),
                Err(e) => {
                    assert(first_illegal(maze@, (y, x)));
                    return Err(e);
                },
            }
            x += 1;
        }
        assert(row@ =~= code_grid(maze@)[y as int]);
        out.push(row);
        y += 1;
    }
    assert(out@.map_values(|row: Vec<u8>| row@) =~= code_grid(maze@));
    Ok(out)
}

/// The symbols that a grid of class codes stands for, or `None` when a
/// code is above 3.
pub fn decode_grid(codes: &Vec<Vec<u8>>) -> (r: Option<Vec<Vec<char>>>)
    ensures
        match r {
            Some(g) => {
                let k = codes@.map_values(|row: Vec<u8>| row@);
                &&& all_codes_valid(k)
                &&& g@.map_values(|row: Vec<char>| row@) == symbol_grid(k)
            },
            None => !all_codes_valid(codes@.map_values(|row: Vec<u8>| row@)),
        },
{
    let ghost k = codes@.map_values(|row: Vec<u8>| row@);
    let mut out: Vec<Vec<char>> = Vec::new();
    let mut y: usize = 0;
    while y < codes.len()
        invariant
            k == codes@.map_values(|row: Vec<u8>| row@),
            y <= codes@.len(),
            out@.len() == y,
            forall|i: int| 0 <= i < y ==> (#[trigger] out@[i])@ == symbol_grid(k)[i],
            forall|i: int, j: int| 0 <= i < y && 0 <= j < k[i].len() ==> #[trigger] k[i][j] < 4,
        decreases codes@.len() - y,
    {
        let mut row: Vec<char> = Vec::new();
        let mut x: usize = 0;
        while x < codes[y].len()
            invariant
                k == codes@.map_values(|row: Vec<u8>| row@),
                y < codes@.len(),
                x <= codes@[y as int]@.len(),
                row@.len() == x,
                forall|j: int| 0 <= j < x ==> #[trigger] row@[j] == symbol_grid(k)[y as int][j],
                forall|i: int, j: int|
                    (0 <= i < y && 0 <= j < k[i].len()) || (i == y && 0 <= j < x) ==> #[trigger] k[i][j]
                        < 4,
            decreases codes@[y as int]@.len() - x,
        {
            match decode(codes[y][x]) {
                Some(c) => row.push(c),
                None => {
                    assert(k[y as int][x as int] >= 4);
                    return None;
                },
            }
            x += 1;
        }
        assert(row@ =~= symbol_grid(k)[y as int]);
        out.push(row);
        y += 1;
    }
    assert(out@.map_values(|row: Vec<char>| row@) =~= symbol_grid(k));
    Some(out)
}

/// A document made from a route that the search returned begins its
/// route at the document's start point.
pub proof fn lemma_document_start_begins_route(g: Seq<Seq<char>>, route: Vec<Pos>, doc: MazeJson)
    requires
        solved(g, Ok(Some(route))),
        is_first(g, 'S', (doc.start.y, doc.start.x)),
        doc.solution@ == route_entries(route@),
    ensures
        doc.solution@.len() > 0,
        doc.solution@[0] == doc.start,
{
    crate::grid::lemma_first_unique(g, 'S', route@[0], (doc.start.y, doc.start.x));
}

/// Lays out `maze` and `solution` as a document: the grid's width and
/// height, the first `S` and first `G`, every cell with its class code in
/// row-major order, and the route's points in order.
///
/// The first illegal symbol in row-major order is a fault; on a grid of
/// legal symbols a missing `S`, and then a missing `G`, is one.
pub fn build_maze_json(maze: &Maze, solution: &Vec<Pos>) -> (r: Result<MazeJson, MazeError>)
    requires
        maze.wf(),
    ensures
        match r {
            Ok(doc) => {
                &&& all_legal(maze@)
                &&& doc.width == maze.cols
                &&& doc.height == maze.rows
                &&& doc.maze@ == cell_entries(maze@)
                &&& doc.solution@ == route_entries(solution@)
                &&& is_first(maze@, 'S', (doc.start.y, doc.start.x))
                &&& is_first(maze@, 'G', (doc.goal.y, doc.goal.x))
            },
            Err(MazeError::UnknownSymbol(c)) => exists|p: Pos|
                first_illegal(maze@, p) && c == #[trigger] at(maze@, p),
            Err(MazeError::NoStart) => all_legal(maze@) && !has_symbol(maze@, 'S'),
            Err(MazeError::NoGoal) => all_legal(maze@) && has_symbol(maze@, 'S') && !has_symbol(
                maze@,
                'G',
            ),
            Err(MazeError::RaggedRow(_)) => false,
        },
        !all_legal(maze@) ==> r matches Err(MazeError::UnknownSymbol(_)),
{
    let mut cells: Vec<Cell> = Vec::new();
    let mut y: usize = 0;
    while y < maze.rows
        invariant
            maze.wf(),
            y <= maze.rows,
            cells@ == entries_upto(maze@, y as int),
            forall|i: int, j: int| 0 <= i < y && 0 <= j < maze.cols ==> is_legal(#[trigger] maze@[i][j]),
        decreases maze.rows - y,
    {
        let ghost before_row = cells@;
        let mut x: usize = 0;
        while x < maze.cols
            invariant
                maze.wf(),
                y < maze.rows,
                x <= maze.cols,
                cells@ == before_row + row_entries(y as int, maze@[y as int]).subrange(0, x as int),
                forall|i: int, j: int|
                    (0 <= i < y && 0 <= j < maze.cols) || (i == y && 0 <= j < x) ==> is_legal(
                        #[trigger] maze@[i][j],
                    ),
            decreases maze.cols - x,
        {
            match classify(maze.data[y][x]) {
                Ok(code) => {
                    cells.push(Cell { x, y, cell_type: code });
                    assert(row_entries(y as int, maze@[y as int]).subrange(0, x + 1) =~= row_entries(
                        y as int,
                        maze@[y as int],
                    ).subrange(0, x as int).push(Cell { x, y, cell_type: code }));
                },
                Err(e) => {
                    assert(first_illegal(maze@, (y, x)));
                    return Err(e);
                },
            }
            x += 1;
        }
        proof {
            let f = |i: int, row: Seq<char>| row_entries(i, row);
            assert(maze@.subrange(0, y + 1).map(f) =~= maze@.subrange(0, y as int).map(f).push(
                row_entries(y as int, maze@[y as int]),
            ));
            maze@.subrange(0, y as int).map(f).lemma_flatten_push(row_entries(y as int, maze@[y as int]));
            assert(row_entries(y as int, maze@[y as int]).subrange(0, x as int) =~= row_entries(
                y as int,
                maze@[y as int],
            ));
        }
        y += 1;
    }
    let mut route: Vec<Position> = Vec::new();
    let mut i: usize = 0;
    while i < solution.len()
        invariant
            i <= solution@.len(),
            route@ =~= route_entries(solution@.subrange(0, i as int)),
        decreases solution@.len() - i,
    {
        let p = solution[i];
        route.push(Position { x: p.1, y: p.0 });
        i += 1;
    }
    assert(solution@.subrange(0, solution@.len() as int) =~= solution@);
    let start = match maze.find_start() {
        Ok(p) => p,
        Err(e) => return Err(e),
    };
    let goal = match maze.find_goal() {
        Ok(p) => p,
        Err(e) => return Err(e),
    };
    Ok(
        MazeJson {
            width: maze.cols,
            height: maze.rows,
            start: Position { x: start.1, y: start.0 },
            goal: Position { x: goal.1, y: goal.0 },
            maze: cells,
            solution: route,
        },
    )
}

} // verus!
