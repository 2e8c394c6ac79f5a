use std::collections::VecDeque;

use vstd::prelude::*;

use crate::cell::{GOAL, WALL};
use crate::error::MazeError;
use crate::grid::{at, has_symbol, in_grid, is_first, Maze, Pos};

verus! {

/// `a` and `b` differ by one unit in exactly one coordinate.
pub open spec fn adjacent(a: Pos, b: Pos) -> bool {
    ||| a.0 == b.0 && (a.1 + 1 == b.1 || b.1 + 1 == a.1)
    ||| a.1 == b.1 && (a.0 + 1 == b.0 || b.0 + 1 == a.0)
}

pub open spec fn open_cell(g: Seq<Seq<char>>, p: Pos) -> bool {
    in_grid(g, p) && at(g, p) != '#'
}

/// A non-empty sequence of grid-adjacent cells, none of them a wall.
pub open spec fn is_walk(g: Seq<Seq<char>>, w: Seq<Pos>) -> bool {
    &&& w.len() > 0
    &&& forall|i: int| 0 <= i < w.len() ==> open_cell(g, #[trigger] w[i])
    &&& forall|i: int| 0 <= i < w.len() - 1 ==> adjacent(#[trigger] w[i], w[i + 1])
}

/// A walk that visits no cell twice.
pub open spec fn is_route(g: Seq<Seq<char>>, w: Seq<Pos>) -> bool {
    &&& is_walk(g, w)
    &&& forall|i: int, j: int| 0 <= i < j < w.len() ==> #[trigger] w[i] != #[trigger] w[j]
}

/// Some walk leads from `s` to a goal cell.
pub open spec fn goal_reachable(g: Seq<Seq<char>>, s: Pos) -> bool {
    exists|w: Seq<Pos>| #[trigger] is_walk(g, w) && w[0] == s && at(g, w.last()) == 'G'
}

/// The number of `false` entries of a row.
pub open spec fn falses(s: Seq<bool>) -> nat
    decreases s.len(),
{
    if s.len() == 0 {
        0
    } else {
        falses(s.drop_last()) + if s.last() {
            0nat
        } else {
            1nat
        }
    }
}

/// The number of `false` entries of a grid.
pub open spec fn unvisited(v: Seq<Seq<bool>>) -> nat
    decreases v.len(),
{
    if v.len() == 0 {
        0
    } else {
        unvisited(v.drop_last()) + falses(v.last())
    }
}

proof fn lemma_falses_mark(s: Seq<bool>, i: int)
    requires
        0 <= i < s.len(),
        !s[i],
    ensures
        falses(s.update(i, true)) + 1 == falses(s),
    decreases s.len(),
{
    if i == s.len() - 1 {
        assert(s.update(i, true).drop_last() =~= s.drop_last());
    } else {
        assert(s.update(i, true).drop_last() =~= s.drop_last().update(i, true));
        lemma_falses_mark(s.drop_last(), i);
    }
}

proof fn lemma_unvisited_mark(v: Seq<Seq<bool>>, r: int, c: int)
    requires
        0 <= r < v.len(),
        0 <= c < v[r].len(),
        !v[r][c],
    ensures
        unvisited(v.update(r, v[r].update(c, true))) + 1 == unvisited(v),
    decreases v.len(),
{
    let w = v.update(r, v[r].update(c, true));
    if r == v.len() - 1 {
        assert(w.drop_last() =~= v.drop_last());
        lemma_falses_mark(v[r], c);
    } else {
        assert(w.drop_last() =~= v.drop_last().update(r, v[r].update(c, true)));
        lemma_unvisited_mark(v.drop_last(), r, c);
    }
}

/// A state of the search, as values: which cells are reached, the cell
/// each was reached from, and the frontier, last pushed at the end.
pub type SearchState = (Seq<Seq<bool>>, Seq<Seq<Option<Pos>>>, Seq<Pos>);

/// The state after considering neighbour `nb` of `from`: an open cell not
/// reached before is marked reached from `from` and pushed.
pub open spec fn try_push(g: Seq<Seq<char>>, st: SearchState, nb: Pos, from: Pos) -> SearchState {
    if at(g, nb) != '#' && !st.0[nb.0 as int][nb.1 as int] {
        (
            st.0.update(nb.0 as int, st.0[nb.0 as int].update(nb.1 as int, true)),
            st.1.update(nb.0 as int, st.1[nb.0 as int].update(nb.1 as int, Some(from))),
            st.2.push(nb),
        )
    } else {
        st
    }
}

/// The state after considering the neighbours of `p` up, down, left and
/// right, in that order, skipping those outside the grid.
pub open spec fn expand_state(g: Seq<Seq<char>>, st: SearchState, p: Pos) -> SearchState {
    let s1 = if p.0 > 0 {
        try_push(g, st, ((p.0 - 1) as usize, p.1), p)
    } else {
        st
    };
    let s2 = if p.0 + 1 < g.len() {
        try_push(g, s1, ((p.0 + 1) as usize, p.1), p)
    } else {
        s1
    };
    let s3 = if p.1 > 0 {
        try_push(g, s2, (p.0, (p.1 - 1) as usize), p)
    } else {
        s2
    };
    if p.1 + 1 < g[p.0 as int].len() {
        try_push(g, s3, (p.0, (p.1 + 1) as usize), p)
    } else {
        s3
    }
}

/// Runs the search from `st` for at most `fuel` pops: the first goal cell
/// popped together with the state right after that pop, or `None` when
/// the frontier empties first.
pub open spec fn run_search(g: Seq<Seq<char>>, st: SearchState, fuel: nat) -> Option<(Pos, SearchState)>
    decreases fuel,
{
    if fuel == 0 || st.2.len() == 0 {
        None
    } else {
        let p = st.2.last();
        let popped = (st.0, st.1, st.2.drop_last());
        if at(g, p) == 'G' {
            Some((p, popped))
        } else {
            run_search(g, expand_state(g, popped, p), (fuel - 1) as nat)
        }
    }
}

/// The state before the first pop: only `s` is reached and on the frontier.
pub open spec fn initial_state(g: Seq<Seq<char>>, s: Pos) -> SearchState {
    (
        Seq::new(g.len(), |i: int| Seq::new(g[i].len(), |j: int| i == s.0 && j == s.1)),
        Seq::new(g.len(), |i: int| Seq::new(g[i].len(), |j: int| None::<Pos>)),
        seq![s],
    )
}

/// The outcome of the search from the first `S`. Each pop either ends the
/// search or marks at least one more cell or shrinks the frontier, so the
/// fuel given here is never used up.
pub open spec fn search_outcome(g: Seq<Seq<char>>) -> Option<(Pos, SearchState)> {
    if has_symbol(g, 'S') {
        let s = choose|s: Pos| is_first(g, 'S', s);
        let st = initial_state(g, s);
        run_search(g, st, 5 * unvisited(st.0) + 2)
    } else {
        None
    }
}

/// `r` is the chain of predecessors that leads to `p`: it starts at a cell
/// with no predecessor, ends at `p`, and each cell is the predecessor of
/// the next.
pub open spec fn is_trace(parent: Seq<Seq<Option<Pos>>>, p: Pos, r: Seq<Pos>) -> bool {
    &&& r.len() > 0
    &&& r.last() == p
    &&& parent[r[0].0 as int][r[0].1 as int] is None
    &&& forall|i: int|
        0 <= i < r.len() - 1 ==> parent[r[i + 1].0 as int][r[i + 1].1 as int] == Some(#[trigger] r[i])
}

/// A cell has at most one predecessor chain.
pub proof fn lemma_trace_unique(parent: Seq<Seq<Option<Pos>>>, p: Pos, r1: Seq<Pos>, r2: Seq<Pos>)
    requires
        is_trace(parent, p, r1),
        is_trace(parent, p, r2),
    ensures
        r1 == r2,
    decreases r1.len(),
{
    let n1 = r1.len();
    let n2 = r2.len();
    if n1 > 1 && n2 > 1 {
        assert(parent[r1[n1 - 1].0 as int][r1[n1 - 1].1 as int] == Some(r1[n1 - 2]));
        assert(parent[r2[n2 - 1].0 as int][r2[n2 - 1].1 as int] == Some(r2[n2 - 2]));
        let q = r1[n1 - 2];
        assert forall|i: int| 0 <= i < n1 - 2 implies parent[r1.drop_last()[i + 1].0 as int][r1.drop_last()[i
            + 1].1 as int] == Some(#[trigger] r1.drop_last()[i]) by {
            assert(parent[r1[i + 1].0 as int][r1[i + 1].1 as int] == Some(r1[i]));
        }
        assert forall|i: int| 0 <= i < n2 - 2 implies parent[r2.drop_last()[i + 1].0 as int][r2.drop_last()[i
            + 1].1 as int] == Some(#[trigger] r2.drop_last()[i]) by {
            assert(parent[r2[i + 1].0 as int][r2[i + 1].1 as int] == Some(r2[i]));
        }
        lemma_trace_unique(parent, q, r1.drop_last(), r2.drop_last());
        assert(r1 =~= r1.drop_last().push(p));
        assert(r2 =~= r2.drop_last().push(p));
    } else if n1 > 1 {
        assert(parent[r1[n1 - 1].0 as int][r1[n1 - 1].1 as int] == Some(r1[n1 - 2]));
    } else if n2 > 1 {
        assert(parent[r2[n2 - 1].0 as int][r2[n2 - 1].1 as int] == Some(r2[n2 - 2]));
    } else {
        assert(r1 =~= r2);
    }
}

/// When the goal cell is the cell the search started from, and so has no
/// predecessor, its route is that one cell.
pub proof fn lemma_trace_of_origin(parent: Seq<Seq<Option<Pos>>>, p: Pos, r: Seq<Pos>)
    requires
        parent[p.0 as int][p.1 as int] is None,
        is_trace(parent, p, r),
    ensures
        r == seq![p],
{
    assert(is_trace(parent, p, seq![p]));
    lemma_trace_unique(parent, p, r, seq![p]);
}

/// The route is exactly the one the search gives: the predecessor chain
/// of the goal cell it pops first.
pub open spec fn follows_search(g: Seq<Seq<char>>, r: Result<Option<Vec<Pos>>, MazeError>) -> bool {
    match r {
        Err(_) => search_outcome(g) is None,
        Ok(None) => search_outcome(g) is None,
        Ok(Some(route)) => match search_outcome(g) {
            Some(o) => is_trace(o.1.1, o.0, route@),
            None => false,
        },
    }
}

/// The state of one depth-first search: which cells have been reached,
/// from where, and which wait on the frontier. `stamp` numbers the cells
/// in the order they were reached.
struct Search {
    visited: Vec<Vec<bool>>,
    parent: Vec<Vec<Option<Pos>>>,
    stack: VecDeque<Pos>,
    stamp: Ghost<Seq<Seq<nat>>>,
    next: Ghost<nat>,
}

impl Search {
    spec fn vis(&self, p: Pos) -> bool {
        self.visited@[p.0 as int]@[p.1 as int]
    }

    spec fn par(&self, p: Pos) -> Option<Pos> {
        self.parent@[p.0 as int]@[p.1 as int]
    }

    spec fn ord(&self, p: Pos) -> nat {
        self.stamp@[p.0 as int][p.1 as int]
    }

    spec fn flags(&self) -> Seq<Seq<bool>> {
        self.visited@.map_values(|r: Vec<bool>| r@)
    }

    spec fn parents(&self) -> Seq<Seq<Option<Pos>>> {
        self.parent@.map_values(|r: Vec<Option<Pos>>| r@)
    }

    spec fn model(&self) -> SearchState {
        (self.flags(), self.parents(), self.stack@)
    }

    spec fn measure(&self) -> nat {
        5 * unvisited(self.flags()) + self.stack@.len()
    }

    spec fn shaped(&self, maze: &Maze) -> bool {
        &&& self.visited@.len() == maze.rows
        &&& self.parent@.len() == maze.rows
        &&& self.stamp@.len() == maze.rows
        &&& forall|i: int| 0 <= i < maze.rows ==> (#[trigger] self.visited@[i])@.len() == maze.cols
        &&& forall|i: int| 0 <= i < maze.rows ==> (#[trigger] self.parent@[i])@.len() == maze.cols
        &&& forall|i: int| 0 <= i < maze.rows ==> (#[trigger] self.stamp@[i]).len() == maze.cols
    }

    /// A reached cell is open, and either is the origin or was reached
    /// from an adjacent cell that was reached before it.
    spec fn linked(&self, maze: &Maze, start: Pos, p: Pos) -> bool {
        &&& at(maze@, p) != '#'
        &&& self.ord(p) < self.next@
        &&& match self.par(p) {
            None => p == start,
            Some(q) => in_grid(maze@, q) && self.vis(q) && adjacent(q, p) && self.ord(q) < self.ord(p),
        }
    }

    spec fn inv(&self, maze: &Maze, start: Pos) -> bool {
        &&& maze.wf()
        &&& self.shaped(maze)
        &&& in_grid(maze@, start)
        &&& self.vis(start)
        &&& self.par(start) is None
        &&& forall|i: int|
            0 <= i < self.stack@.len() ==> in_grid(maze@, #[trigger] self.stack@[i]) && self.vis(
                self.stack@[i],
            )
        &&& forall|i: int, j: int|
            0 <= i < j < self.stack@.len() ==> self.stack@[i] != self.stack@[j]
        &&& forall|p: Pos| in_grid(maze@, p) && self.vis(p) ==> #[trigger] self.linked(maze, start, p)
    }

    /// A cell that has left the frontier is no goal, and every open
    /// neighbour of it has been reached.
    spec fn closed(&self, maze: &Maze, p: Pos) -> bool {
        &&& at(maze@, p) != 'G'
        &&& forall|q: Pos|
            in_grid(maze@, q) && adjacent(p, q) && at(maze@, q) != '#' ==> #[trigger] self.vis(q)
    }

    /// Every reached cell off the frontier, except `x`, is closed.
    spec fn settled_except(&self, maze: &Maze, x: Option<Pos>) -> bool {
        forall|p: Pos|
            in_grid(maze@, p) && #[trigger] self.vis(p) && !self.stack@.contains(p) && x != Some(p)
                ==> self.closed(maze, p)
    }

    /// Marks `nb`, reached from `from`, and puts it on the frontier, unless
    /// it is a wall or was reached before.
    fn push_if_open(
        &mut self,
        maze: &Maze,
        nb: Pos,
        from: Pos,
        start: Ghost<Pos>,
        popped: Ghost<Option<Pos>>,
    )
        requires
            old(self).inv(maze, start@),
            old(self).settled_except(maze, popped@),
            in_grid(maze@, nb),
            in_grid(maze@, from),
            old(self).vis(from),
            adjacent(from, nb),
        ensures
            final(self).inv(maze, start@),
            final(self).settled_except(maze, popped@),
            forall|p: Pos| in_grid(maze@, p) && old(self).vis(p) ==> #[trigger] final(self).vis(p),
            at(maze@, nb) != '#' ==> final(self).vis(nb),
            final(self).measure() <= old(self).measure(),
            final(self).model() == try_push(maze@, old(self).model(), nb, from),
    {
        if maze.data[nb.0][nb.1] != WALL && !self.visited[nb.0][nb.1] {
            let ghost pre = *self;
            proof {
                assert(self.flags()[nb.0 as int] == self.visited@[nb.0 as int]@);
                lemma_unvisited_mark(self.flags(), nb.0 as int, nb.1 as int);
            }
            self.visited[nb.0].set(nb.1, true);
            self.parent[nb.0].set(nb.1, Some(from));
            self.stack.push_back(nb);
            self.stamp = Ghost(
                self.stamp@.update(nb.0 as int, self.stamp@[nb.0 as int].update(nb.1 as int, self.next@)),
            );
            self.next = Ghost(self.next@ + 1);
            proof {
                assert(self.flags() =~= pre.flags().update(
                    nb.0 as int,
                    pre.flags()[nb.0 as int].update(nb.1 as int, true),
                ));
                assert(self.parents() =~= pre.parents().update(
                    nb.0 as int,
                    pre.parents()[nb.0 as int].update(nb.1 as int, Some(from)),
                ));
                assert(pre.flags()[nb.0 as int] == pre.visited@[nb.0 as int]@);
                assert(pre.parents()[nb.0 as int] == pre.parent@[nb.0 as int]@);
                assert forall|p: Pos| in_grid(maze@, p) && pre.vis(p) implies #[trigger] self.vis(p)
                    && self.par(p) == pre.par(p) && self.ord(p) == pre.ord(p) by {
                    if p.0 == nb.0 {
                        assert(p.1 != nb.1);
                    }
                }
                assert forall|p: Pos| in_grid(maze@, p) && self.vis(p) implies #[trigger] self.linked(
                    maze,
                    start@,
                    p,
                ) by {
                    if p != nb {
                        if p.0 == nb.0 {
                            assert(p.1 != nb.1);
                        }
                        assert(pre.vis(p));
                        assert(pre.linked(maze, start@, p));
                        if let Some(q) = pre.par(p) {
                            assert(pre.vis(q));
                            assert(self.vis(q));
                        }
                    } else {
                        assert(pre.linked(maze, start@, from));
                        assert(self.vis(from));
                        assert(self.ord(from) == pre.ord(from));
                    }
                }
                assert(pre.stack@.len() + 1 == self.stack@.len());
                assert forall|i: int| 0 <= i < self.stack@.len() implies in_grid(
                    maze@,
                    #[trigger] self.stack@[i],
                ) && self.vis(self.stack@[i]) by {
                    if i < pre.stack@.len() {
                        assert(self.stack@[i] == pre.stack@[i]);
                    }
                }
                assert forall|i: int, j: int|
                    0 <= i < j < self.stack@.len() implies self.stack@[i] != self.stack@[j] by {
                    if j == pre.stack@.len() {
                        assert(pre.vis(pre.stack@[i]));
                    }
                }
                assert forall|p: Pos|
                    in_grid(maze@, p) && #[trigger] self.vis(p) && !self.stack@.contains(p)
                        && popped@ != Some(p) implies self.closed(maze, p) by {
                    assert(self.stack@[self.stack@.len() - 1] == nb);
                    assert(p != nb);
                    if p.0 == nb.0 {
                        assert(p.1 != nb.1);
                    }
                    assert(pre.vis(p));
                    if pre.stack@.contains(p) {
                        let k = choose|k: int| 0 <= k < pre.stack@.len() && pre.stack@[k] == p;
                        assert(self.stack@[k] == p);
                    }
                    assert(pre.closed(maze, p));
                }
            }
        }
    }

    /// The state before the first step: only `start` is reached, and it
    /// alone waits on the frontier.
    fn new(maze: &Maze, start: Pos) -> (r: Search)
        requires
            maze.wf(),
            in_grid(maze@, start),
            at(maze@, start) == 'S',
        ensures
            r.inv(maze, start),
            r.settled_except(maze, None),
            r.model() == initial_state(maze@, start),
    {
        let mut visited: Vec<Vec<bool>> = Vec::new();
        let mut parent: Vec<Vec<Option<Pos>>> = Vec::new();
        let mut i: usize = 0;
        while i < maze.rows
            invariant
                maze.wf(),
                i <= maze.rows,
                visited@.len() == i,
                parent@.len() == i,
                forall|k: int| 0 <= k < i ==> (#[trigger] visited@[k])@.len() == maze.cols,
                forall|k: int| 0 <= k < i ==> (#[trigger] parent@[k])@.len() == maze.cols,
                forall|k: int, j: int|
                    0 <= k < i && 0 <= j < maze.cols ==> !(#[trigger] visited@[k]@[j]),
                forall|k: int, j: int|
                    0 <= k < i && 0 <= j < maze.cols ==> (#[trigger] parent@[k]@[j]) is None,
            decreases maze.rows - i,
        {
            let mut vrow: Vec<bool> = Vec::new();
            let mut prow: Vec<Option<Pos>> = Vec::new();
            let mut j: usize = 0;
            while j < maze.cols
                invariant
                    j <= maze.cols,
                    vrow@.len() == j,
                    prow@.len() == j,
                    forall|k: int| 0 <= k < j ==> !(#[trigger] vrow@[k]),
                    forall|k: int| 0 <= k < j ==> (#[trigger] prow@[k]) is None,
                decreases maze.cols - j,
            {
                vrow.push(false);
                prow.push(None);
                j += 1;
            }
            visited.push(vrow);
            parent.push(prow);
            i += 1;
        }
        let ghost before = visited@;
        visited[start.0].set(start.1, true);
        let mut stack: VecDeque<Pos> = VecDeque::new();
        stack.push_back(start);
        let r = Search {
            visited,
            parent,
            stack,
            stamp: Ghost(Seq::new(maze.rows as nat, |k: int| Seq::new(maze.cols as nat, |j: int| 0nat))),
            next: Ghost(1),
        };
        proof {
            assert forall|p: Pos| in_grid(maze@, p) && #[trigger] r.vis(p) implies p == start by {
                if p.0 != start.0 {
                    assert(r.visited@[p.0 as int] == before[p.0 as int]);
                }
            }
            assert(r.stack@[0] == start);
            let init = initial_state(maze@, start);
            assert forall|k: int| 0 <= k < maze.rows implies #[trigger] r.flags()[k] == init.0[k] by {
                if k != start.0 {
                    assert(r.visited@[k] == before[k]);
                }
                assert(r.flags()[k] =~= init.0[k]);
            }
            assert(r.flags() =~= init.0);
            assert forall|k: int| 0 <= k < maze.rows implies #[trigger] r.parents()[k] == init.1[k] by {
                assert(r.parents()[k] =~= init.1[k]);
            }
            assert(r.parents() =~= init.1);
            assert(r.stack@ =~= init.2);
        }
        r
    }

    /// The route that the predecessor links give from the origin to `goal`.
    fn construct_path(&self, maze: &Maze, goal: Pos, start: Ghost<Pos>) -> (r: Vec<Pos>)
        requires
            self.inv(maze, start@),
            in_grid(maze@, goal),
            self.vis(goal),
        ensures
            r@[0] == start@,
            r@.last() == goal,
            is_route(maze@, r@),
            self.par(goal) is None ==> r@ == seq![goal],
            is_trace(self.parents(), goal, r@),
    {
        let mut rev: Vec<Pos> = Vec::new();
        let mut cur = goal;
        loop
            invariant
                self.inv(maze, start@),
                in_grid(maze@, cur),
                self.vis(cur),
                rev@.len() == 0 ==> cur == goal,
                self.par(goal) is None ==> rev@.len() == 0,
                rev@.len() > 0 ==> rev@[0] == goal && adjacent(cur, rev@.last()) && self.ord(cur)
                    < self.ord(rev@.last()) && self.par(rev@.last()) == Some(cur),
                forall|i: int| 0 <= i < rev@.len() - 1 ==> self.par(#[trigger] rev@[i]) == Some(rev@[i + 1]),
                forall|i: int| 0 <= i < rev@.len() ==> in_grid(maze@, #[trigger] rev@[i]) && self.vis(rev@[i]),
                forall|i: int| 0 <= i < rev@.len() - 1 ==> adjacent(rev@[i + 1], #[trigger] rev@[i]),
                forall|i: int, j: int|
                    0 <= i < j < rev@.len() ==> self.ord(#[trigger] rev@[j]) < self.ord(#[trigger] rev@[i]),
            ensures
                self.inv(maze, start@),
                in_grid(maze@, cur),
                self.vis(cur),
                self.par(cur) is None,
                rev@.len() == 0 ==> cur == goal,
                self.par(goal) is None ==> rev@.len() == 0,
                rev@.len() > 0 ==> rev@[0] == goal && adjacent(cur, rev@.last()) && self.ord(cur)
                    < self.ord(rev@.last()) && self.par(rev@.last()) == Some(cur),
                forall|i: int| 0 <= i < rev@.len() - 1 ==> self.par(#[trigger] rev@[i]) == Some(rev@[i + 1]),
                forall|i: int| 0 <= i < rev@.len() ==> in_grid(maze@, #[trigger] rev@[i]) && self.vis(rev@[i]),
                forall|i: int| 0 <= i < rev@.len() - 1 ==> adjacent(rev@[i + 1], #[trigger] rev@[i]),
                forall|i: int, j: int|
                    0 <= i < j < rev@.len() ==> self.ord(#[trigger] rev@[j]) < self.ord(#[trigger] rev@[i]),
            decreases self.ord(cur),
        {
            assert(self.linked(maze, start@, cur));
            match self.parent[cur.0][cur.1] {
                Some(q) => {
                    rev.push(cur);
                    cur = q;
                },
                None => break,
            }
        }
        assert(self.linked(maze, start@, cur));
        assert(cur == start@);
        let ghost rev0 = rev@;
        rev.push(cur);
        assert forall|i: int| 0 <= i < rev@.len() - 1 implies self.par(#[trigger] rev@[i]) == Some(
            rev@[i + 1],
        ) by {
            if i < rev0.len() - 1 {
                assert(rev@[i] == rev0[i]);
                assert(self.par(rev0[i]) == Some(rev0[i + 1]));
            }
        }
        let n = rev.len();
        let path = reversed(&rev);
        proof {
            assert forall|i: int| 0 <= i < path@.len() implies open_cell(maze@, #[trigger] path@[i]) by {
                assert(self.linked(maze, start@, rev@[n - 1 - i]));
            }
            assert forall|i: int| 0 <= i < path@.len() - 1 implies adjacent(
                #[trigger] path@[i],
                path@[i + 1],
            ) by {
                assert(path@[i + 1] == rev@[n - 2 - i]);
            }
            assert forall|i: int, j: int| 0 <= i < j < path@.len() implies #[trigger] path@[i]
                != #[trigger] path@[j] by {
                assert(self.ord(rev@[n - 1 - i]) < self.ord(rev@[n - 1 - j]));
            }
            assert(path@[0] == rev@[n - 1]);
            assert(path@[n - 1] == rev@[0]);
            assert(self.parents()[cur.0 as int] == self.parent@[cur.0 as int]@);
            assert forall|i: int| 0 <= i < path@.len() - 1 implies self.parents()[path@[i + 1].0 as int][path@[
                i + 1].1 as int] == Some(#[trigger] path@[i]) by {
                assert(path@[i + 1] == rev@[n - 2 - i]);
                assert(self.par(rev@[n - 2 - i]) == Some(rev@[n - 1 - i]));
                assert(self.parents()[path@[i + 1].0 as int] == self.parent@[path@[i + 1].0 as int]@);
            }
            if self.par(goal) is None {
                assert(path@ =~= seq![goal]);
            }
        }
        path
    }

    /// Two states that agree on everything but the frontier agree on which
    /// cells are reached, linked and closed.
    proof fn lemma_same_marks(&self, other: &Search, maze: &Maze, start: Pos)
        requires
            self.visited == other.visited,
            self.parent == other.parent,
            self.stamp == other.stamp,
            self.next == other.next,
        ensures
            forall|p: Pos| #[trigger] self.vis(p) == other.vis(p),
            forall|p: Pos| #[trigger] self.linked(maze, start, p) == other.linked(maze, start, p),
            forall|p: Pos| #[trigger] self.closed(maze, p) == other.closed(maze, p),
    {
        assert forall|p: Pos| #[trigger] self.closed(maze, p) == other.closed(maze, p) by {
            if self.closed(maze, p) {
                assert forall|q: Pos|
                    in_grid(maze@, q) && adjacent(p, q) && at(maze@, q) != '#' implies #[trigger] other.vis(q) by {
                    assert(self.vis(q));
                }
            }
            if other.closed(maze, p) {
                assert forall|q: Pos|
                    in_grid(maze@, q) && adjacent(p, q) && at(maze@, q) != '#' implies #[trigger] self.vis(q) by {
                    assert(other.vis(q));
                }
            }
        }
    }

    /// Takes the most recently pushed cell off the frontier.
    fn pop(&mut self, maze: &Maze, start: Ghost<Pos>) -> (r: Option<Pos>)
        requires
            old(self).inv(maze, start@),
            old(self).settled_except(maze, None),
        ensures
            final(self).inv(maze, start@),
            match r {
                None => {
                    &&& old(self).stack@.len() == 0
                    &&& final(self).stack@.len() == 0
                    &&& final(self).settled_except(maze, None)
                },
                Some(p) => {
                    &&& in_grid(maze@, p)
                    &&& final(self).vis(p)
                    &&& !final(self).stack@.contains(p)
                    &&& final(self).settled_except(maze, Some(p))
                    &&& final(self).measure() < old(self).measure()
                    &&& old(self).stack@.len() > 0
                    &&& p == old(self).stack@.last()
                    &&& final(self).model() == (
                        old(self).model().0,
                        old(self).model().1,
                        old(self).model().2.drop_last(),
                    )
                },
            },
    {
        let ghost pre = *self;
        let r = self.stack.pop_back();
        proof {
            self.lemma_same_marks(&pre, maze, start@);
            assert forall|i: int| 0 <= i < self.stack@.len() implies in_grid(
                maze@,
                #[trigger] self.stack@[i],
            ) && self.vis(self.stack@[i]) by {
                assert(self.stack@[i] == pre.stack@[i]);
            }
            assert forall|i: int, j: int|
                0 <= i < j < self.stack@.len() implies self.stack@[i] != self.stack@[j] by {
                assert(self.stack@[i] == pre.stack@[i]);
                assert(self.stack@[j] == pre.stack@[j]);
            }
            if r is None {
                assert(self.stack@ =~= pre.stack@);
                assert forall|x: Pos|
                    in_grid(maze@, x) && #[trigger] self.vis(x) && !self.stack@.contains(x) && None::<Pos>
                        != Some(x) implies self.closed(maze, x) by {
                    assert(pre.closed(maze, x));
                }
            }
            if let Some(p) = r {
                let n = pre.stack@.len();
                assert(p == pre.stack@[n - 1]);
                assert(self.stack@ =~= pre.stack@.subrange(0, n - 1));
                assert(pre.stack@ =~= self.stack@.push(p));
                assert(!self.stack@.contains(p));
                assert(self.vis(p));
                assert forall|x: Pos|
                    in_grid(maze@, x) && #[trigger] self.vis(x) && !self.stack@.contains(x) && Some(p)
                        != Some(x) implies self.closed(maze, x) by {
                    if pre.stack@.contains(x) {
                        let k = choose|k: int| 0 <= k < n && pre.stack@[k] == x;
                        assert(k != n - 1);
                        assert(self.stack@[k] == x);
                    } else {
                        assert(pre.closed(maze, x));
                    }
                }
            }
        }
        r
    }

    /// Pushes the neighbours of the popped cell `p` up, down, left and
    /// right, in that order.
    fn expand(&mut self, maze: &Maze, p: Pos, start: Ghost<Pos>)
        requires
            old(self).inv(maze, start@),
            old(self).settled_except(maze, Some(p)),
            in_grid(maze@, p),
            old(self).vis(p),
            !old(self).stack@.contains(p),
            at(maze@, p) != 'G',
        ensures
            final(self).inv(maze, start@),
            final(self).settled_except(maze, None),
            final(self).measure() <= old(self).measure(),
            final(self).model() == expand_state(maze@, old(self).model(), p),
    {
        let ghost popped = Some(p);
        let ghost s0 = *self;
        if p.0 > 0 {
            self.push_if_open(maze, (p.0 - 1, p.1), p, start, Ghost(popped));
        }
        let ghost s1 = *self;
        if p.0 + 1 < maze.rows {
            self.push_if_open(maze, (p.0 + 1, p.1), p, start, Ghost(popped));
        }
        let ghost s2 = *self;
        if p.1 > 0 {
            self.push_if_open(maze, (p.0, p.1 - 1), p, start, Ghost(popped));
        }
        let ghost s3 = *self;
        if p.1 + 1 < maze.cols {
            self.push_if_open(maze, (p.0, p.1 + 1), p, start, Ghost(popped));
        }
        proof {
            assert forall|q: Pos|
                in_grid(maze@, q) && adjacent(p, q) && at(maze@, q) != '#' implies #[trigger] self.vis(
                q,
            ) by {
                if q.0 + 1 == p.0 {
                    assert(s1.vis(q));
                    assert(s2.vis(q));
                    assert(s3.vis(q));
                } else if p.0 + 1 == q.0 {
                    assert(s2.vis(q));
                    assert(s3.vis(q));
                } else if q.1 + 1 == p.1 {
                    assert(s3.vis(q));
                }
            }
            assert(self.closed(maze, p));
            assert forall|x: Pos|
                in_grid(maze@, x) && #[trigger] self.vis(x) && !self.stack@.contains(x) implies self.closed(
                maze,
                x,
            ) by {
                if x != p {
                    assert(Some(p) != Some(x));
                }
            }
        }
    }

    /// With the frontier empty and every reached cell closed, every walk
    /// from the origin stays among reached cells.
    proof fn lemma_walk_stays(&self, maze: &Maze, start: Pos, w: Seq<Pos>, k: int)
        requires
            self.inv(maze, start),
            self.settled_except(maze, None),
            self.stack@.len() == 0,
            is_walk(maze@, w),
            w[0] == start,
            0 <= k < w.len(),
        ensures
            self.vis(w[k]),
            at(maze@, w[k]) != 'G',
        decreases k,
    {
        if k > 0 {
            self.lemma_walk_stays(maze, start, w, k - 1);
            assert(open_cell(maze@, w[k]));
            assert(adjacent(w[k - 1], w[k]));
            assert(self.closed(maze, w[k - 1]));
        }
        assert(open_cell(maze@, w[k]));
        assert(in_grid(maze@, w[k]));
        assert(self.vis(w[k]));
        assert(!self.stack@.contains(w[k]));
        assert(self.closed(maze, w[k]));
    }
}

/// What the search returns on grid `g`: no start is a fault; otherwise a
/// route from the first `S` to a goal cell when some goal can be reached
/// from there, and `None` when none can.
pub open spec fn solved(g: Seq<Seq<char>>, r: Result<Option<Vec<Pos>>, MazeError>) -> bool {
    match r {
        Err(e) => e == MazeError::NoStart && !has_symbol(g, 'S'),
        Ok(None) => has_symbol(g, 'S') && forall|s: Pos|
            #[trigger] is_first(g, 'S', s) ==> !goal_reachable(g, s),
        Ok(Some(route)) => {
            &&& is_first(g, 'S', route@[0])
            &&& is_route(g, route@)
            &&& at(g, route@.last()) == 'G'
        },
    }
}

/// `p` is the only cell of `g` that holds `ch`.
pub open spec fn sole(g: Seq<Seq<char>>, ch: char, p: Pos) -> bool {
    &&& in_grid(g, p)
    &&& at(g, p) == ch
    &&& forall|q: Pos| in_grid(g, q) && #[trigger] at(g, q) == ch ==> q == p
}

/// In a maze with one start and one goal, joined by a walk that crosses no
/// wall, the search returns a non-empty route that begins at the start,
/// ends at the goal, moves between adjacent cells, repeats no cell and
/// crosses no wall.
pub proof fn lemma_connected_maze_is_solved(
    g: Seq<Seq<char>>,
    r: Result<Option<Vec<Pos>>, MazeError>,
    start: Pos,
    goal: Pos,
    w: Seq<Pos>,
)
    requires
        solved(g, r),
        sole(g, 'S', start),
        sole(g, 'G', goal),
        is_walk(g, w),
        w[0] == start,
        w.last() == goal,
    ensures
        r matches Ok(Some(route)) && {
            &&& route@.len() > 0
            &&& route@[0] == start
            &&& route@.last() == goal
            &&& is_route(g, route@)
        },
{
    assert(has_symbol(g, 'S'));
    assert(is_first(g, 'S', start));
    assert(goal_reachable(g, start));
    if let Ok(Some(route)) = r {
        assert(at(g, route@[0]) == 'S');
        assert(in_grid(g, route@.last()));
    }
}

/// In a maze with one start and one goal, where no wall-free walk joins
/// them, the search returns no route.
pub proof fn lemma_separated_maze_has_no_route(
    g: Seq<Seq<char>>,
    r: Result<Option<Vec<Pos>>, MazeError>,
    start: Pos,
    goal: Pos,
)
    requires
        solved(g, r),
        sole(g, 'S', start),
        sole(g, 'G', goal),
        forall|w: Seq<Pos>| #[trigger] is_walk(g, w) && w[0] == start ==> w.last() != goal,
    ensures
        r matches Ok(None),
{
    assert(has_symbol(g, 'S'));
    if let Ok(Some(route)) = r {
        assert(at(g, route@[0]) == 'S');
        assert(route@[0] == start);
        assert(in_grid(g, route@.last()));
        assert(route@.last() == goal);
    }
}

/// The elements of `v` in the opposite order.
fn reversed(v: &Vec<Pos>) -> (r: Vec<Pos>)
    ensures
        r@.len() == v@.len(),
        forall|i: int| 0 <= i < v@.len() ==> #[trigger] r@[i] == v@[v@.len() - 1 - i],
{
    let n = v.len();
    let mut r: Vec<Pos> = Vec::new();
    let mut k: usize = n;
    while k > 0
        invariant
            k <= n,
            v@.len() == n,
            r@.len() == n - k,
            forall|i: int| 0 <= i < n - k ==> r@[i] == v@[n - 1 - i],
        decreases k,
    {
        k -= 1;
        r.push(v[k]);
    }
    r
}

/// Depth-first search from the first `S` to a goal cell.
///
/// The frontier is last in, first out, seeded with the origin. Each popped
/// cell that is a goal ends the search; otherwise its neighbours up, down,
/// left and right, in that order, are pushed when they are inside the grid,
/// not walls and not reached before, and are marked reached as they are
/// pushed. The route is not promised to be a shortest one. `Ok(None)`
/// means that no goal can be reached from the origin.
pub fn solve_maze(maze: &Maze) -> (r: Result<Option<Vec<Pos>>, MazeError>)
    requires
        maze.wf(),
    ensures
        solved(maze@, r),
        follows_search(maze@, r),
{
    let start = match maze.find_start() {
        Ok(p) => p,
        Err(e) => return Err(e),
    };
    let mut s = Search::new(maze, start);
    let ghost outcome = search_outcome(maze@);
    let ghost fuel0: nat = 5 * unvisited(s.model().0) + 2;
    proof {
        assert(has_symbol(maze@, 'S'));
        let t = choose|t: Pos| is_first(maze@, 'S', t);
        crate::grid::lemma_first_unique(maze@, 'S', t, start);
    }
    let ghost mut k: nat = 0;
    loop
        invariant
            maze.wf(),
            is_first(maze@, 'S', start),
            s.inv(maze, start),
            s.settled_except(maze, None),
            outcome == search_outcome(maze@),
            k + s.measure() <= fuel0 - 1,
            run_search(maze@, s.model(), (fuel0 - k) as nat) == outcome,
        decreases s.measure(),
    {
        let ghost m0 = s.model();
        let ghost f = (fuel0 - k) as nat;
        match s.pop(maze, Ghost(start)) {
            None => {
                proof {
                    assert(run_search(maze@, m0, f) is None);
                    assert(has_symbol(maze@, 'S'));
                    assert forall|t: Pos| #[trigger] is_first(maze@, 'S', t) implies !goal_reachable(
                        maze@,
                        t,
                    ) by {
                        crate::grid::lemma_first_unique(maze@, 'S', t, start);
                        if goal_reachable(maze@, t) {
                            let w = choose|w: Seq<Pos>|
                                #[trigger] is_walk(maze@, w) && w[0] == t && at(maze@, w.last()) == 'G';
                            s.lemma_walk_stays(maze, start, w, w.len() - 1);
                        }
                    }
                }
                return Ok(None);
            },
            Some(p) => {
                assert(f >= 2);
                if maze.data[p.0][p.1] == GOAL {
                    let route = s.construct_path(maze, p, Ghost(start));
                    assert(run_search(maze@, m0, f) == Some((p, s.model())));
                    return Ok(Some(route));
                }
                let ghost popped = s.model();
                s.expand(maze, p, Ghost(start));
                proof {
                    assert(run_search(maze@, m0, f) == run_search(
                        maze@,
                        expand_state(maze@, popped, p),
                        (f - 1) as nat,
                    ));
                    k = k + 1;
                }
            },
        }
    }
}

} // verus!
