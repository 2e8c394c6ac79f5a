use vstd::prelude::*;

use crate::cell::{is_legal, START, GOAL};
use crate::error::MazeError;

verus! {

/// A grid position: (row, column), both counted from zero, rows downward
/// and columns rightward.
pub type Pos = (usize, usize);

/// The rows of a grid as sequences of symbols.
pub open spec fn rows_view(d: Seq<Vec<char>>) -> Seq<Seq<char>> {
    d.map_values(|r: Vec<char>| r@)
}

pub open spec fn in_grid(g: Seq<Seq<char>>, p: Pos) -> bool {
    p.0 < g.len() && p.1 < g[p.0 as int].len()
}

pub open spec fn at(g: Seq<Seq<char>>, p: Pos) -> char {
    g[p.0 as int][p.1 as int]
}

/// `a` comes before `b` in a scan of the rows from the top, each row from
/// the left.
pub open spec fn before(a: Pos, b: Pos) -> bool {
    a.0 < b.0 || (a.0 == b.0 && a.1 < b.1)
}

pub open spec fn has_symbol(g: Seq<Seq<char>>, ch: char) -> bool {
    exists|p: Pos| in_grid(g, p) && #[trigger] at(g, p) == ch
}

/// `p` is the first cell in row-major order that holds `ch`.
pub open spec fn is_first(g: Seq<Seq<char>>, ch: char, p: Pos) -> bool {
    &&& in_grid(g, p)
    &&& at(g, p) == ch
    &&& forall|q: Pos| in_grid(g, q) && before(q, p) ==> #[trigger] at(g, q) != ch
}

pub open spec fn all_legal(g: Seq<Seq<char>>) -> bool {
    forall|i: int, j: int| 0 <= i < g.len() && 0 <= j < g[i].len() ==> is_legal(#[trigger] g[i][j])
}

/// Two cells that are both first to hold `ch` are the same cell.
pub proof fn lemma_first_unique(g: Seq<Seq<char>>, ch: char, p: Pos, q: Pos)
    requires
        is_first(g, ch, p),
        is_first(g, ch, q),
    ensures
        p == q,
{
    if p != q {
        if before(p, q) {
            assert(at(g, p) != ch);
        } else {
            assert(before(q, p));
            assert(at(g, q) != ch);
        }
    }
}

/// A line without the one `\r` that may end it.
pub open spec fn strip_cr(l: Seq<char>) -> Seq<char> {
    if l.len() > 0 && l.last() == '\r' {
        l.drop_last()
    } else {
        l
    }
}

/// The lines that `t` completes with a `\n`, and the text after the last
/// `\n`.
pub open spec fn scan_lines(t: Seq<char>) -> (Seq<Seq<char>>, Seq<char>)
    decreases t.len(),
{
    if t.len() == 0 {
        (seq![], seq![])
    } else {
        let (done, cur) = scan_lines(t.drop_last());
        if t.last() == '\n' {
            (done.push(strip_cr(cur)), seq![])
        } else {
            (done, cur.push(t.last()))
        }
    }
}

/// The lines of `t`: text after the last `\n` is a line when not empty.
pub open spec fn split_lines(t: Seq<char>) -> Seq<Seq<char>> {
    let (done, cur) = scan_lines(t);
    if cur.len() == 0 {
        done
    } else {
        done.push(cur)
    }
}

/// `r` is what a maze built from rows `d` comes to: the maze of those
/// rows when all are as long as the first, else the first row that is not.
pub open spec fn built_from(d: Seq<Seq<char>>, r: Result<Maze, MazeError>) -> bool {
    match r {
        Ok(m) => {
            &&& m.wf()
            &&& m@ == d
            &&& m.rows == d.len()
            &&& m.cols == if d.len() == 0 { 0 } else { d[0].len() }
        },
        Err(e) => exists|i: usize|
            {
                &&& e == MazeError::RaggedRow(i)
                &&& 0 < i < d.len()
                &&& d[i as int].len() != d[0].len()
                &&& forall|k: int| 0 <= k < i ==> (#[trigger] d[k]).len() == d[0].len()
            },
    }
}

/// A maze: `rows` rows of `cols` symbols each.
pub struct Maze {
    pub rows: usize,
    pub cols: usize,
    pub data: Vec<Vec<char>>,
}

impl View for Maze {
    type V = Seq<Seq<char>>;

    open spec fn view(&self) -> Seq<Seq<char>> {
        rows_view(self.data@)
    }
}

impl Maze {
    /// The grid is rectangular and its dimensions are recorded.
    pub open spec fn wf(&self) -> bool {
        &&& self.data@.len() == self.rows
        &&& forall|i: int| 0 <= i < self.rows ==> (#[trigger] self.data@[i])@.len() == self.cols
    }

    /// Builds a maze from its rows. The width is the length of the first
    /// row (0 when there is none); a later row of another length is
    /// refused, naming the first such row.
    pub fn from_rows(data: Vec<Vec<char>>) -> (r: Result<Maze, MazeError>)
        ensures
            built_from(rows_view(data@), r),
    {
        let ghost d = rows_view(data@);
        let rows = data.len();
        let cols: usize = if rows == 0 { 0 } else { data[0].len() };
        let mut i: usize = 0;
        while i < rows
            invariant
                d == rows_view(data@),
                rows == data@.len(),
                i <= rows,
                rows > 0 ==> cols == data@[0]@.len(),
                forall|k: int| 0 <= k < i ==> (#[trigger] d[k]).len() == cols,
            decreases rows - i,
        {
            if data[i].len() != cols {
                assert(d[0].len() == cols);
                assert(d[i as int].len() != d[0].len());
                return Err(MazeError::RaggedRow(i));
            }
            i += 1;
        }
        assert forall|k: int| 0 <= k < rows implies (#[trigger] data@[k])@.len() == cols by {
            assert(d[k].len() == cols);
        }
        if rows > 0 {
            assert(d[0].len() == cols);
        }
        let m = Maze { rows, cols, data };
        assert(m@ == d);
        Ok(m)
    }

    /// Parses text, one row per line. Lines end at `\n`, and a `\r`
    /// just before it is dropped; text after the last `\n` is a line when
    /// it is not empty. The rows then go to `from_rows`.
    pub fn parse(text: &Vec<char>) -> (r: Result<Maze, MazeError>)
        ensures
            built_from(split_lines(text@), r),
    {
        let mut lines: Vec<Vec<char>> = Vec::new();
        let mut cur: Vec<char> = Vec::new();
        let mut i: usize = 0;
        while i < text.len()
            invariant
                i <= text@.len(),
                (rows_view(lines@), cur@) == scan_lines(text@.subrange(0, i as int)),
            decreases text@.len() - i,
        {
            let c = text[i];
            assert(text@.subrange(0, i + 1).drop_last() =~= text@.subrange(0, i as int));
            if c == '\n' {
                let ghost before = cur@;
                let n = cur.len();
                if n > 0 && cur[n - 1] == '\r' {
                    cur.pop();
                }
                assert(cur@ =~= strip_cr(before));
                lines.push(cur);
                cur = Vec::new();
                assert(rows_view(lines@) =~= scan_lines(text@.subrange(0, i + 1)).0);
            } else {
                cur.push(c);
            }
            i += 1;
        }
        assert(text@.subrange(0, text@.len() as int) =~= text@);
        if cur.len() > 0 {
            lines.push(cur);
        }
        assert(rows_view(lines@) =~= split_lines(text@));
        Maze::from_rows(lines)
    }

    pub fn rows(&self) -> (r: usize)
        ensures
            r == self.rows,
    {
        self.rows
    }

    pub fn cols(&self) -> (r: usize)
        ensures
            r == self.cols,
    {
        self.cols
    }

    /// The symbol at `p`.
    pub fn cell(&self, p: Pos) -> (r: char)
        requires
            self.wf(),
            p.0 < self.rows,
            p.1 < self.cols,
        ensures
            r == at(self@, p),
    {
        self.data[p.0][p.1]
    }

    /// The first cell in row-major order that holds `ch`.
    pub fn find_symbol(&self, ch: char) -> (r: Option<Pos>)
        requires
            self.wf(),
        ensures
            match r {
                Some(p) => is_first(self@, ch, p),
                None => !has_symbol(self@, ch),
            },
    {
        let mut i: usize = 0;
        while i < self.rows
            invariant
                self.wf(),
                i <= self.rows,
                forall|q: Pos| in_grid(self@, q) && q.0 < i ==> #[trigger] at(self@, q) != ch,
            decreases self.rows - i,
        {
            let mut j: usize = 0;
            while j < self.cols
                invariant
                    self.wf(),
                    i < self.rows,
                    j <= self.cols,
                    forall|q: Pos|
                        in_grid(self@, q) && before(q, (i, j)) ==> #[trigger] at(self@, q) != ch,
                decreases self.cols - j,
            {
                if self.data[i][j] == ch {
                    return Some((i, j));
                }
                j += 1;
            }
            i += 1;
        }
        None
    }

    /// The search origin: the first `S` in row-major order.
    pub fn find_start(&self) -> (r: Result<Pos, MazeError>)
        requires
            self.wf(),
        ensures
            match r {
                Ok(p) => is_first(self@, 'S', p),
                Err(e) => e == MazeError::NoStart && !has_symbol(self@, 'S'),
            },
    {
        match self.find_symbol(START) {
            Some(p) => Ok(p),
            None => Err(MazeError::NoStart),
        }
    }

    /// The first `G` in row-major order.
    pub fn find_goal(&self) -> (r: Result<Pos, MazeError>)
        requires
            self.wf(),
        ensures
            match r {
                Ok(p) => is_first(self@, 'G', p),
                Err(e) => e == MazeError::NoGoal && !has_symbol(self@, 'G'),
            },
    {
        match self.find_symbol(GOAL) {
            Some(p) => Ok(p),
            None => Err(MazeError::NoGoal),
        }
    }
}

} // verus!
