//! A perfect maze over a rectangular grid of cells.
use crate::path::{Move, Path};
use crate::random::{below, choose_one};
use vstd::prelude::*;

verus! {

/// A position in the grid.
#[derive(Clone, Copy, Debug, PartialEq, Eq, Hash, Structural)]
pub struct Cell {
    pub row: u32,
    pub col: u32,
}

/// The number of grid steps between two cells.
pub open spec fn grid_distance(a: Cell, b: Cell) -> nat {
    let dr = if a.row >= b.row { a.row - b.row } else { b.row - a.row };
    let dc = if a.col >= b.col { a.col - b.col } else { b.col - a.col };
    (dr + dc) as nat
}

/// The sum of the lengths of the lists in `s`.
pub open spec fn total_len(s: Seq<Seq<u32>>) -> int
    decreases s.len(),
{
    if s.len() == 0 {
        0
    } else {
        total_len(s.drop_last()) + s.last().len()
    }
}

/// The grid distance is zero exactly between a cell and itself.
pub proof fn lemma_distance_zero_iff_same(a: Cell, b: Cell)
    ensures
        (grid_distance(a, b) == 0) == (a == b),
{
}

/// Two cells share a side.
pub open spec fn grid_adjacent(a: Cell, b: Cell) -> bool {
    grid_distance(a, b) == 1
}

/// A maze: for each cell, in row-major order, the indices of the cells it
/// is joined to by a passage.
pub struct Maze {
    edges: Vec<Vec<u32>>,
    rows: u32,
    cols: u32,
}

impl Maze {
    pub closed spec fn spec_rows(self) -> nat {
        self.rows as nat
    }

    pub closed spec fn spec_cols(self) -> nat {
        self.cols as nat
    }

    /// The passages of each cell, by cell index.
    pub closed spec fn adjacency(self) -> Seq<Seq<u32>> {
        self.edges@.map_values(|v: Vec<u32>| v@)
    }

    pub open spec fn num_cells(self) -> nat {
        self.spec_rows() * self.spec_cols()
    }

    pub open spec fn contains_cell(self, c: Cell) -> bool {
        c.row < self.spec_rows() && c.col < self.spec_cols()
    }

    /// The row-major index of a cell.
    pub open spec fn index_of(self, c: Cell) -> int {
        c.row * self.spec_cols() + c.col
    }

    /// The cell at a row-major index.
    pub open spec fn cell_at(self, i: int) -> Cell {
        Cell { row: (i / self.spec_cols() as int) as u32, col: (i % self.spec_cols() as int) as u32 }
    }

    /// Every grid neighbour of the cell at index `j` is marked in `seen`.
    pub open spec fn settled(self, seen: Seq<bool>, j: int) -> bool {
        forall|d: Cell| self.contains_cell(d) && #[trigger] grid_adjacent(self.cell_at(j), d)
            ==> seen[self.index_of(d)]
    }

    /// `w` lists cell indices in which each consecutive pair is joined by a
    /// passage.
    pub open spec fn is_walk(self, w: Seq<int>) -> bool {
        &&& w.len() > 0
        &&& forall|k: int| 0 <= k < w.len() ==> 0 <= #[trigger] w[k] < self.num_cells()
        &&& forall|k: int| 0 <= k < w.len() - 1 ==> self.joined(#[trigger] w[k], w[k + 1])
    }

    /// The cells at indices `a` and `b` are connected through passages.
    pub open spec fn linked(self, a: int, b: int) -> bool {
        exists|w: Seq<int>| #[trigger] self.is_walk(w) && w[0] == a && w.last() == b
    }

    /// Any two cells are connected through passages.
    pub open spec fn connected(self) -> bool {
        forall|a: int, b: int| 0 <= a < self.num_cells() && 0 <= b < self.num_cells() ==> #[trigger] self.linked(a, b)
    }

    /// `w` goes round a cycle of passages: it returns to its first cell
    /// after visiting at least three distinct cells, none of them twice.
    pub open spec fn is_cycle(self, w: Seq<int>) -> bool {
        &&& w.len() >= 4
        &&& self.is_walk(w)
        &&& w[0] == w.last()
        &&& forall|i: int, j: int| 0 <= i < j < w.len() - 1 ==> w[i] != w[j]
    }

    /// No passages form a cycle.
    pub open spec fn acyclic(self) -> bool {
        forall|w: Seq<int>| !#[trigger] self.is_cycle(w)
    }

    /// The number of passages: each is recorded at both of its ends.
    pub open spec fn num_edges(self) -> int {
        total_len(self.adjacency()) / 2
    }

    /// A passage joins the cells at indices `i` and `j`.
    pub open spec fn joined(self, i: int, j: int) -> bool {
        0 <= i < self.adjacency().len() && self.adjacency()[i].contains(j as u32)
    }

    /// The grid is non-empty and its cell indices fit in `u32`.
    pub open spec fn shape_ok(self) -> bool {
        &&& self.spec_rows() > 0
        &&& self.spec_cols() > 0
        &&& self.num_cells() <= u32::MAX
    }

    /// Each cell has at most four passages, to distinct cells next to it on
    /// the grid, and each passage is recorded at both of its ends.
    pub open spec fn wf(self) -> bool {
        &&& self.shape_ok()
        &&& self.adjacency().len() == self.num_cells()
        &&& forall|i: int| #![trigger self.adjacency()[i]] 0 <= i < self.num_cells() ==> {
            &&& self.adjacency()[i].no_duplicates()
            &&& self.adjacency()[i].len() <= 4
        }
        &&& forall|i: int, k: int| 0 <= i < self.num_cells() && 0 <= k < self.adjacency()[i].len() ==> {
            &&& (#[trigger] self.adjacency()[i][k]) < self.num_cells()
            &&& grid_adjacent(self.cell_at(i), self.cell_at(self.adjacency()[i][k] as int))
            &&& self.joined(self.adjacency()[i][k] as int, i)
        }
    }

    /// The cell one step from `from` in the direction of `m`, or `from`
    /// itself where `m` is `None` or the step would leave the grid.
    /// Passages are not consulted: a step may cross a wall.
    pub open spec fn step(self, from: Cell, m: Option<Move>) -> Cell {
        match m {
            Some(Move::North) => if from.row > 0 { Cell { row: (from.row - 1) as u32, col: from.col } } else { from },
            Some(Move::East) => if from.col + 1 < self.spec_cols() { Cell { row: from.row, col: (from.col + 1) as u32 } } else { from },
            Some(Move::South) => if from.row + 1 < self.spec_rows() { Cell { row: (from.row + 1) as u32, col: from.col } } else { from },
            Some(Move::West) => if from.col > 0 { Cell { row: from.row, col: (from.col - 1) as u32 } } else { from },
            None => from,
        }
    }

    /// Where a sequence of step attempts from `start` ends.
    pub open spec fn walk(self, start: Cell, moves: Seq<Option<Move>>) -> Cell
        decreases moves.len(),
    {
        if moves.len() == 0 {
            start
        } else {
            self.step(self.walk(start, moves.drop_last()), moves.last())
        }
    }

    /// The grid cells next to `c`, in the order north, east, south, west.
    pub open spec fn neighbor_seq(self, c: Cell) -> Seq<Cell> {
        let n = if c.row > 0 { seq![self.step(c, Some(Move::North))] } else { seq![] };
        let e = if c.col + 1 < self.spec_cols() { seq![self.step(c, Some(Move::East))] } else { seq![] };
        let s = if c.row + 1 < self.spec_rows() { seq![self.step(c, Some(Move::South))] } else { seq![] };
        let w = if c.col > 0 { seq![self.step(c, Some(Move::West))] } else { seq![] };
        n + e + s + w
    }

    /// Builds a maze of `rows` by `cols` cells by a randomized depth-first
    /// walk: from a random start, each step opens a passage from the cell on
    /// top of the stack to a random unvisited grid neighbour, or backtracks
    /// when there is none.
    pub fn new(rng: &mut rand::rngs::SmallRng, rows: u32, cols: u32) -> (r: Maze)
        requires
            rows > 0,
            cols > 0,
            rows * cols <= u32::MAX,
        ensures
            r.wf(),
            total_len(r.adjacency()) == 2 * (r.num_cells() - 1),
            r.num_edges() == r.num_cells() - 1,
            r.connected(),
            r.acyclic(),
            r.spec_rows() == rows,
            r.spec_cols() == cols,
    {
        let n: usize = (rows * cols) as usize;
        let mut edges: Vec<Vec<u32>> = Vec::new();
        let mut seen: Vec<bool> = Vec::new();
        let mut i: usize = 0;
        while i < n
            invariant
                i <= n,
                edges@.len() == i,
                seen@.len() == i,
                forall|j: int| 0 <= j < i ==> (#[trigger] edges@[j])@.len() == 0,
                forall|j: int| 0 <= j < i ==> !(#[trigger] seen@[j]),
            decreases n - i,
        {
            edges.push(Vec::new());
            seen.push(false);
            i += 1;
        }
        let mut maze = Maze { edges, rows, cols };
        assert(maze.wf()) by {
            assert forall|j: int| 0 <= j < maze.num_cells() implies #[trigger] maze.adjacency()[j].len() == 0 by {
                assert(maze.adjacency()[j] == maze.edges@[j]@);
            }
        }

        let start = Cell { row: below(rng, rows as usize) as u32, col: below(rng, cols as usize) as u32 };
        let start_idx = maze.index_for_cell(start);
        seen.set(start_idx, true);
        let ghost mut visited: Set<int> = set![start_idx as int];
        let mut stack: Vec<Cell> = vec![start];
        proof {
            lemma_total_len_zero(maze.adjacency());
            lemma_cell_at_index_of(maze, start);
            assert(stack@[0] == start);
            assert forall|w: Seq<int>| !#[trigger] maze.is_cycle(w) by {
                if maze.is_cycle(w) {
                    assert(maze.joined(w[0], w[1]));
                }
            }
            let w0 = seq![start_idx as int];
            assert(w0[0] == start_idx as int);
            assert(w0.last() == start_idx as int);
            assert(maze.is_walk(w0));
            assert(maze.linked(start_idx as int, start_idx as int));
        }

        while stack.len() > 0
            invariant
                maze.wf(),
                maze.spec_rows() == rows,
                maze.spec_cols() == cols,
                n == maze.num_cells(),
                seen@.len() == n,
                start_idx < n,
                seen@[start_idx as int],
                maze.acyclic(),
                forall|j: int| 0 <= j < n && #[trigger] seen@[j] ==> maze.linked(start_idx as int, j),
                visited.finite(),
                forall|j: int| 0 <= j < n ==> (#[trigger] seen@[j] <==> visited.contains(j)),
                forall|j: int| #[trigger] visited.contains(j) ==> 0 <= j < n,
                forall|j: int| 0 <= j < n && !(#[trigger] seen@[j]) ==> maze.adjacency()[j].len() == 0,
                forall|j: int, k: int| 0 <= j < n && 0 <= k < maze.adjacency()[j].len()
                    ==> seen@[#[trigger] maze.adjacency()[j][k] as int],
                forall|k: int| 0 <= k < stack@.len() ==> maze.contains_cell(#[trigger] stack@[k])
                    && seen@[maze.index_of(stack@[k])],
                stack@.len() <= visited.len(),
                total_len(maze.adjacency()) == 2 * (visited.len() - 1),
                forall|j: int| 0 <= j < n && #[trigger] seen@[j] ==>
                    stack@.contains(maze.cell_at(j)) || maze.settled(seen@, j),
            decreases 2 * (n - visited.len()) + stack@.len(),
        {
            proof {
                vstd::set_lib::lemma_int_range(0, n as int);
                assert(visited.subset_of(vstd::set_lib::set_int_range(0, n as int)));
                vstd::set_lib::lemma_len_subset(visited, vstd::set_lib::set_int_range(0, n as int));
            }
            let cell = stack[stack.len() - 1];
            let around = maze.neighbors(cell);
            let mut unseen: Vec<Cell> = Vec::new();
            let mut k: usize = 0;
            while k < around.len()
                invariant
                    maze.wf(),
                    seen@.len() == maze.num_cells(),
                    maze.contains_cell(cell),
                    around@ == maze.neighbor_seq(cell),
                    k <= around@.len(),
                    forall|m: int| 0 <= m < k ==>
                        seen@[maze.index_of(#[trigger] around@[m])] || unseen@.contains(around@[m]),
                    forall|m: int| 0 <= m < unseen@.len() ==> {
                        &&& maze.contains_cell(#[trigger] unseen@[m])
                        &&& grid_adjacent(cell, unseen@[m])
                        &&& !seen@[maze.index_of(unseen@[m])]
                    },
                decreases around@.len() - k,
            {
                let c = around[k];
                proof {
                    lemma_neighbor_seq(maze, cell, k as int);
                }
                let ci = maze.index_for_cell(c);
                let ghost unseen_before = unseen@;
                if !seen[ci] {
                    unseen.push(c);
                    assert(unseen@[unseen@.len() - 1] == c);
                }
                assert forall|m: int| 0 <= m < k + 1 implies
                    seen@[maze.index_of(#[trigger] around@[m])] || unseen@.contains(around@[m]) by {
                    if m < k && !seen@[maze.index_of(around@[m])] {
                        let w = choose|w: int| 0 <= w < unseen_before.len() && unseen_before[w] == around@[m];
                        assert(unseen@[w] == around@[m]);
                    }
                }
                k += 1;
            }
            match choose_one(rng, &unseen) {
                Some(next) => {
                    let cell_idx = maze.index_for_cell(cell);
                    let next_idx = maze.index_for_cell(next);
                    let ghost before = maze;
                    proof {
                        lemma_cell_at_index_of(maze, cell);
                        lemma_cell_at_index_of(maze, next);
                        let m = choose|m: int| 0 <= m < unseen@.len() && unseen@[m] == next;
                        assert(unseen@[m] == next);
                    }
                    maze.open_passage(cell_idx, next_idx);
                    proof {
                        visited = visited.insert(next_idx as int);
                    }
                    let ghost seen_before = seen@;
                    let ghost stack_before = stack@;
                    seen.set(next_idx, true);
                    stack.push(next);
                    proof {
                        assert forall|k: int| 0 <= k < stack@.len() implies maze.contains_cell(#[trigger] stack@[k])
                            && seen@[maze.index_of(stack@[k])] by {
                            if k < stack_before.len() {
                                assert(stack_before[k] == stack@[k]);
                                lemma_cell_at_index_of(maze, stack@[k]);
                                assert(seen_before[maze.index_of(stack@[k])]);
                            } else {
                                assert(stack@[k] == next);
                            }
                        }
                        assert(seen_before[cell_idx as int]);
                        assert forall|j: int| 0 <= j < n && #[trigger] seen@[j] implies maze.linked(start_idx as int, j) by {
                            let target = if j == next_idx { cell_idx as int } else { j };
                            assert(seen_before[target]);
                            assert(before.linked(start_idx as int, target));
                            let w = choose|w: Seq<int>| before.is_walk(w) && w[0] == start_idx as int && w.last() == target;
                            lemma_walk_grows(before, maze, w);
                            assert(maze.is_walk(w) && w[0] == start_idx as int && w.last() == target);
                            if j == next_idx {
                                let w2 = w.push(next_idx as int);
                                assert(w2[w2.len() - 2] == cell_idx as int);
                                assert(maze.is_walk(w2));
                                assert(w2[0] == start_idx as int);
                                assert(w2.last() == j);
                            }
                        }
                        assert forall|j: int| 0 <= j < n && #[trigger] seen@[j] implies
                            stack@.contains(maze.cell_at(j)) || maze.settled(seen@, j) by {
                            if j == next_idx {
                                assert(stack@[stack@.len() - 1] == next);
                            } else {
                                assert(seen_before[j]);
                                if stack_before.contains(maze.cell_at(j)) {
                                    let p = choose|p: int| 0 <= p < stack_before.len() && stack_before[p] == maze.cell_at(j);
                                    assert(stack@[p] == maze.cell_at(j));
                                } else {
                                    assert forall|d: Cell| maze.contains_cell(d) && #[trigger] grid_adjacent(maze.cell_at(j), d)
                                        implies seen@[maze.index_of(d)] by {
                                        lemma_cell_at_index_of(maze, d);
                                        assert(seen_before[maze.index_of(d)]);
                                    }
                                }
                            }
                        }
                        assert(seen_before[cell_idx as int]);
                        assert forall|j: int, k: int| 0 <= j < n && 0 <= k < maze.adjacency()[j].len()
                            implies seen@[#[trigger] maze.adjacency()[j][k] as int] by {
                            if j != cell_idx && j != next_idx {
                                assert(seen_before[before.adjacency()[j][k] as int]);
                            } else if j == cell_idx && k < before.adjacency()[j].len() {
                                assert(seen_before[before.adjacency()[j][k] as int]);
                            }
                        }
                    }
                },
                None => {
                    let ghost stack_before = stack@;
                    proof {
                        assert forall|d: Cell| maze.contains_cell(d) && #[trigger] grid_adjacent(cell, d)
                            implies seen@[maze.index_of(d)] by {
                            lemma_adjacent_in_neighbor_seq(maze, cell, d);
                            let m = choose|m: int| 0 <= m < around@.len() && around@[m] == d;
                            assert(!unseen@.contains(around@[m]));
                        }
                    }
                    stack.pop();
                    assert forall|j: int| 0 <= j < n && #[trigger] seen@[j] implies
                        stack@.contains(maze.cell_at(j)) || maze.settled(seen@, j) by {
                        if stack_before.contains(maze.cell_at(j)) {
                            let p = choose|p: int| 0 <= p < stack_before.len() && stack_before[p] == maze.cell_at(j);
                            if p < stack@.len() {
                                assert(stack@[p] == maze.cell_at(j));
                            } else {
                                assert(maze.cell_at(j) == cell);
                            }
                        }
                    }
                    assert forall|k: int| 0 <= k < stack@.len() implies maze.contains_cell(#[trigger] stack@[k])
                        && seen@[maze.index_of(stack@[k])] by {
                        assert(stack_before[k] == stack@[k]);
                    }
                },
            }
        }
        proof {
            assert forall|j: int| 0 <= j < n implies #[trigger] visited.contains(j) by {
                lemma_index_of_cell_at(maze, start_idx as int);
                lemma_index_of_cell_at(maze, j);
                lemma_settled_covers(maze, seen@, start_idx as int, maze.cell_at(j));
            }
            assert(visited =~= vstd::set_lib::set_int_range(0, n as int));
            vstd::set_lib::lemma_int_range(0, n as int);
            assert forall|a: int, b: int| 0 <= a < n && 0 <= b < n implies #[trigger] maze.linked(a, b) by {
                assert(seen@[a] && seen@[b]);
                lemma_link_symmetric(maze, start_idx as int, a);
                lemma_link_transitive(maze, a, start_idx as int, b);
            }
        }
        maze
    }

    /// Opens a passage between the cells at indices `a` and `b`, next to
    /// each other on the grid, where `b` has no passage yet.
    fn open_passage(&mut self, a: usize, b: usize)
        requires
            old(self).wf(),
            a < old(self).num_cells(),
            b < old(self).num_cells(),
            grid_adjacent(old(self).cell_at(a as int), old(self).cell_at(b as int)),
            old(self).adjacency()[b as int].len() == 0,
        ensures
            final(self).wf(),
            final(self).spec_rows() == old(self).spec_rows(),
            final(self).spec_cols() == old(self).spec_cols(),
            final(self).adjacency() == old(self).adjacency()
                .update(a as int, old(self).adjacency()[a as int].push(b as u32))
                .update(b as int, seq![a as u32]),
            total_len(final(self).adjacency()) == total_len(old(self).adjacency()) + 2,
            forall|x: int, y: int| old(self).joined(x, y) ==> #[trigger] final(self).joined(x, y),
            final(self).joined(a as int, b as int),
            final(self).joined(b as int, a as int),
            old(self).acyclic() ==> final(self).acyclic(),
    {
        let ghost before = *self;
        let cell_idx = a;
        let next_idx = b;
        proof {
            if before.adjacency()[a as int].contains(b as u32) {
                let w = choose|w: int| 0 <= w < before.adjacency()[a as int].len() && before.adjacency()[a as int][w] == b as u32;
                assert(before.joined(before.adjacency()[a as int][w] as int, a as int));
            }
            assert(a != b);
        }
        self.edges[a].push(b as u32);
        self.edges[b].push(a as u32);
        let ghost maze = *self;
        proof {
            assert(maze.adjacency()[cell_idx as int] == before.adjacency()[cell_idx as int].push(next_idx as u32));
            assert(maze.adjacency()[next_idx as int] == seq![cell_idx as u32]);
            assert(maze.adjacency() =~= before.adjacency()
                .update(a as int, before.adjacency()[a as int].push(b as u32))
                .update(b as int, seq![a as u32]));
            lemma_degree_at_most_four(maze, cell_idx as int, maze.adjacency()[cell_idx as int]);
            let mid = before.adjacency().update(cell_idx as int, maze.adjacency()[cell_idx as int]);
            lemma_total_len_update(before.adjacency(), cell_idx as int, maze.adjacency()[cell_idx as int]);
            lemma_total_len_update(mid, next_idx as int, maze.adjacency()[next_idx as int]);
            assert(maze.adjacency() =~= mid.update(next_idx as int, maze.adjacency()[next_idx as int]));
            assert forall|x: int, y: int| before.joined(x, y) implies #[trigger] maze.joined(x, y) by {
                let w = choose|w: int| 0 <= w < before.adjacency()[x].len() && before.adjacency()[x][w] == y as u32;
                assert(maze.adjacency()[x][w] == y as u32);
            }
            let last = maze.adjacency()[cell_idx as int].len() - 1;
            assert(maze.adjacency()[cell_idx as int][last] == next_idx as u32);
            assert(maze.adjacency()[next_idx as int][0] == cell_idx as u32);
        }
        assert(maze.wf()) by {
                        assert forall|i: int, k: int| 0 <= i < maze.num_cells() && 0 <= k < maze.adjacency()[i].len() implies
                            maze.joined(#[trigger] maze.adjacency()[i][k] as int, i) by {
                            let j = maze.adjacency()[i][k] as int;
                            if i != cell_idx && i != next_idx {
                                assert(before.joined(j, i));
                                assert(j != next_idx);
                                if j == cell_idx {
                                    let w = choose|w: int| 0 <= w < before.adjacency()[j].len() && before.adjacency()[j][w] == i as u32;
                                    assert(maze.adjacency()[j][w] == i as u32);
                                }
                            } else if i == cell_idx {
                                if k < before.adjacency()[i].len() {
                                    assert(before.joined(j, i));
                                    assert(j != next_idx);
                                } else {
                                    assert(maze.adjacency()[next_idx as int][0] == cell_idx as u32);
                                }
                            } else {
                                let last = maze.adjacency()[cell_idx as int].len() - 1;
                                assert(maze.adjacency()[cell_idx as int][last] == next_idx as u32);
                            }
                        }
                    }
        proof {
            if before.acyclic() {
                assert forall|w: Seq<int>| !#[trigger] maze.is_cycle(w) by {
                    lemma_no_cycle_through_leaf(before, maze, a as int, b as int, w);
                }
            }
        }
    }

    pub fn rows(&self) -> (r: u32)
        ensures
            r == self.spec_rows(),
    {
        self.rows
    }

    pub fn cols(&self) -> (r: u32)
        ensures
            r == self.spec_cols(),
    {
        self.cols
    }

    pub fn north(&self, from: Cell) -> (r: Option<Cell>)
        ensures
            r == (if from.row > 0 { Some(self.step(from, Some(Move::North))) } else { None::<Cell> }),
    {
        if from.row > 0 {
            Some(Cell { row: from.row - 1, col: from.col })
        } else {
            None
        }
    }

    pub fn east(&self, from: Cell) -> (r: Option<Cell>)
        requires
            self.wf(),
        ensures
            r == (if from.col + 1 < self.spec_cols() { Some(self.step(from, Some(Move::East))) } else { None::<Cell> }),
    {
        if from.col < self.cols - 1 {
            Some(Cell { row: from.row, col: from.col + 1 })
        } else {
            None
        }
    }

    pub fn south(&self, from: Cell) -> (r: Option<Cell>)
        requires
            self.wf(),
        ensures
            r == (if from.row + 1 < self.spec_rows() { Some(self.step(from, Some(Move::South))) } else { None::<Cell> }),
    {
        if from.row < self.rows - 1 {
            Some(Cell { row: from.row + 1, col: from.col })
        } else {
            None
        }
    }

    pub fn west(&self, from: Cell) -> (r: Option<Cell>)
        ensures
            r == (if from.col > 0 { Some(self.step(from, Some(Move::West))) } else { None::<Cell> }),
    {
        if from.col > 0 {
            Some(Cell { row: from.row, col: from.col - 1 })
        } else {
            None
        }
    }

    /// The row-major index of a cell of the grid.
    pub fn index_for_cell(&self, cell: Cell) -> (r: usize)
        requires
            self.wf(),
            self.contains_cell(cell),
        ensures
            r == self.index_of(cell),
            r < self.num_cells(),
    {
        proof {
            lemma_index_in_range(cell.row as int, cell.col as int, self.rows as int, self.cols as int);
        }
        (cell.row * self.cols + cell.col) as usize
    }

    /// The cell at a row-major index of the grid.
    pub fn cell_for_index(&self, index: u32) -> (r: Cell)
        requires
            self.wf(),
            index < self.num_cells(),
        ensures
            r == self.cell_at(index as int),
            self.contains_cell(r),
    {
        proof {
            lemma_cell_in_range(index as int, self.rows as int, self.cols as int);
        }
        Cell { row: index / self.cols, col: index % self.cols }
    }

    /// Every cell of the grid, in row-major order.
    pub fn cells(&self) -> (r: Vec<Cell>)
        requires
            self.wf(),
        ensures
            r@.len() == self.num_cells(),
            forall|i: int| 0 <= i < r@.len() ==> #[trigger] r@[i] == self.cell_at(i),
    {
        let len = self.edges.len();
        let mut out: Vec<Cell> = Vec::new();
        let mut idx: usize = 0;
        while idx < len
            invariant
                self.wf(),
                len == self.num_cells(),
                idx <= len,
                out@.len() == idx,
                forall|i: int| 0 <= i < idx ==> #[trigger] out@[i] == self.cell_at(i),
            decreases len - idx,
        {
            out.push(self.cell_for_index(idx as u32));
            idx += 1;
        }
        out
    }

    /// Whether a passage joins two cells of the grid.
    pub fn is_edge_between(&self, a: Cell, b: Cell) -> (r: bool)
        requires
            self.wf(),
            self.contains_cell(a),
            self.contains_cell(b),
        ensures
            r == self.joined(self.index_of(a), self.index_of(b)),
    {
        let a_idx = self.index_for_cell(a);
        let b_idx = self.index_for_cell(b) as u32;
        let list = &self.edges[a_idx];
        let mut k: usize = 0;
        while k < list.len()
            invariant
                self.wf(),
                a_idx < self.num_cells(),
                a_idx == self.index_of(a),
                b_idx as int == self.index_of(b),
                list@ == self.adjacency()[a_idx as int],
                k <= list@.len(),
                forall|m: int| 0 <= m < k ==> list@[m] != b_idx,
            decreases list@.len() - k,
        {
            if list[k] == b_idx {
                assert(self.adjacency()[a_idx as int][k as int] == b_idx);
                assert(self.adjacency()[a_idx as int].contains(b_idx));
                return true;
            }
            k += 1;
        }
        assert(!self.adjacency()[a_idx as int].contains(b_idx));
        false
    }

    /// The cells joined to `cell` by a passage.
    pub fn edges(&self, cell: Cell) -> (r: Vec<Cell>)
        requires
            self.wf(),
            self.contains_cell(cell),
        ensures
            r@.len() == self.adjacency()[self.index_of(cell)].len(),
            forall|k: int| 0 <= k < r@.len() ==>
                #[trigger] r@[k] == self.cell_at(self.adjacency()[self.index_of(cell)][k] as int),
    {
        let index = self.index_for_cell(cell);
        let list = &self.edges[index];
        let mut out: Vec<Cell> = Vec::new();
        let mut k: usize = 0;
        while k < list.len()
            invariant
                self.wf(),
                index < self.num_cells(),
                list@ == self.adjacency()[index as int],
                k <= list@.len(),
                out@.len() == k,
                forall|m: int| 0 <= m < k ==> #[trigger] out@[m] == self.cell_at(list@[m] as int),
            decreases list@.len() - k,
        {
            assert(self.adjacency()[index as int][k as int] < self.num_cells());
            out.push(self.cell_for_index(list[k]));
            k += 1;
        }
        out
    }

    /// The cells next to `cell` on the grid, whether or not a passage joins them.
    pub fn neighbors(&self, cell: Cell) -> (r: Vec<Cell>)
        requires
            self.wf(),
        ensures
            r@ == self.neighbor_seq(cell),
    {
        let mut out: Vec<Cell> = Vec::new();
        if let Some(n) = self.north(cell) {
            out.push(n);
        }
        if let Some(e) = self.east(cell) {
            out.push(e);
        }
        if let Some(s) = self.south(cell) {
            out.push(s);
        }
        if let Some(w) = self.west(cell) {
            out.push(w);
        }
        assert(out@ == self.neighbor_seq(cell));
        out
    }

    /// The cell reached by one step attempt.
    fn take_step(&self, from: Cell, m: Option<Move>) -> (r: Cell)
        requires
            self.wf(),
        ensures
            r == self.step(from, m),
    {
        let next = match m {
            Some(Move::North) => self.north(from),
            Some(Move::East) => self.east(from),
            Some(Move::South) => self.south(from),
            Some(Move::West) => self.west(from),
            None => None,
        };
        match next {
            Some(c) => c,
            None => from,
        }
    }

    /// The cells visited by following `path` from `start`, one after each
    /// step attempt.
    pub fn follow_path(&self, start: Cell, path: &Path) -> (r: Vec<Cell>)
        requires
            self.wf(),
        ensures
            r@.len() == path.moves@.len(),
            forall|i: int| 0 <= i < r@.len() ==>
                #[trigger] r@[i] == self.walk(start, path.moves@.take(i + 1)),
            self.contains_cell(start) ==> forall|i: int| 0 <= i < r@.len() ==> self.contains_cell(#[trigger] r@[i]),
    {
        let mut out: Vec<Cell> = Vec::new();
        let mut current = start;
        let mut i: usize = 0;
        while i < path.moves.len()
            invariant
                self.wf(),
                i <= path.moves@.len(),
                out@.len() == i,
                current == self.walk(start, path.moves@.take(i as int)),
                self.contains_cell(start) ==> self.contains_cell(current),
                self.contains_cell(start) ==> forall|m: int| 0 <= m < i ==> self.contains_cell(#[trigger] out@[m]),
                forall|m: int| 0 <= m < i ==> #[trigger] out@[m] == self.walk(start, path.moves@.take(m + 1)),
            decreases path.moves@.len() - i,
        {
            assert(path.moves@.take(i + 1).drop_last() == path.moves@.take(i as int));
            current = self.take_step(current, path.moves[i]);
            out.push(current);
            i += 1;
        }
        out
    }

    /// The distance between two cells in grid steps (the sum of the row and
    /// column differences): zero exactly when the cells coincide.
    pub fn bird_flight_distance(&self, a: Cell, b: Cell) -> (r: u64)
        ensures
            r == grid_distance(a, b),
    {
        let dr: u32 = if a.row >= b.row { a.row - b.row } else { b.row - a.row };
        let dc: u32 = if a.col >= b.col { a.col - b.col } else { b.col - a.col };
        dr as u64 + dc as u64
    }
}

/// Each cell of the grid is the cell at its own row-major index.
pub proof fn lemma_cell_at_index_of(maze: Maze, c: Cell)
    requires
        maze.shape_ok(),
        maze.contains_cell(c),
    ensures
        maze.cell_at(maze.index_of(c)) == c,
        0 <= maze.index_of(c) < maze.num_cells(),
{
    lemma_index_in_range(c.row as int, c.col as int, maze.spec_rows() as int, maze.spec_cols() as int);
    vstd::arithmetic::div_mod::lemma_fundamental_div_mod_converse(
        maze.index_of(c), maze.spec_cols() as int, c.row as int, c.col as int);
}

/// No cell of a maze has more than four passages.
pub proof fn lemma_degree_bound(maze: Maze, c: Cell)
    requires
        maze.wf(),
        maze.contains_cell(c),
    ensures
        maze.adjacency()[maze.index_of(c)].len() <= 4,
{
    lemma_cell_at_index_of(maze, c);
}

/// Distinct indices name distinct cells.
proof fn lemma_cell_at_injective(maze: Maze, a: int, b: int)
    requires
        maze.shape_ok(),
        0 <= a < maze.num_cells(),
        0 <= b < maze.num_cells(),
        maze.cell_at(a) == maze.cell_at(b),
    ensures
        a == b,
{
    let cols = maze.spec_cols() as int;
    lemma_cell_in_range(a, maze.spec_rows() as int, cols);
    lemma_cell_in_range(b, maze.spec_rows() as int, cols);
    vstd::arithmetic::div_mod::lemma_fundamental_div_mod(a, cols);
    vstd::arithmetic::div_mod::lemma_fundamental_div_mod(b, cols);
    assert(a / cols == b / cols);
    assert(a % cols == b % cols);
}

/// On a maze of one row or one column, a passage joins each cell to the
/// next one.
pub proof fn lemma_line_is_chain(maze: Maze, c: int)
    requires
        maze.wf(),
        maze.connected(),
        maze.spec_rows() == 1 || maze.spec_cols() == 1,
        0 <= c < maze.num_cells() - 1,
    ensures
        maze.joined(c, c + 1),
{
    assert(maze.linked(c, c + 1));
    let w = choose|w: Seq<int>| #[trigger] maze.is_walk(w) && w[0] == c && w.last() == c + 1;
    lemma_walk_crosses(maze, w, c);
}

/// A walk along one row or column that starts at or before index `c` and
/// ends after it passes from `c` to `c + 1`.
proof fn lemma_walk_crosses(maze: Maze, w: Seq<int>, c: int)
    requires
        maze.wf(),
        maze.spec_rows() == 1 || maze.spec_cols() == 1,
        maze.is_walk(w),
        w[0] <= c,
        w.last() > c,
    ensures
        maze.joined(c, c + 1),
    decreases w.len(),
{
    if w[1] > c {
        assert(maze.joined(w[0], w[1]));
        let x = w[0];
        let k = choose|k: int| 0 <= k < maze.adjacency()[x].len() && maze.adjacency()[x][k] == w[1] as u32;
        assert(grid_adjacent(maze.cell_at(x), maze.cell_at(maze.adjacency()[x][k] as int)));
        lemma_line_cell(maze, x);
        lemma_line_cell(maze, w[1]);
    } else {
        let rest = w.drop_first();
        assert forall|k: int| 0 <= k < rest.len() - 1 implies maze.joined(#[trigger] rest[k], rest[k + 1]) by {
            assert(maze.joined(w[k + 1], w[k + 2]));
        }
        assert forall|k: int| 0 <= k < rest.len() implies 0 <= #[trigger] rest[k] < maze.num_cells() by {
            assert(rest[k] == w[k + 1]);
        }
        lemma_walk_crosses(maze, rest, c);
    }
}

/// On one row the cell at index `i` sits in column `i`; on one column, in
/// row `i`.
proof fn lemma_line_cell(maze: Maze, i: int)
    requires
        maze.shape_ok(),
        maze.spec_rows() == 1 || maze.spec_cols() == 1,
        0 <= i < maze.num_cells(),
    ensures
        maze.spec_rows() == 1 ==> maze.cell_at(i) == (Cell { row: 0, col: i as u32 }),
        maze.spec_cols() == 1 ==> maze.cell_at(i) == (Cell { row: i as u32, col: 0 }),
{
    let cols = maze.spec_cols() as int;
    if maze.spec_rows() == 1 {
        assert(maze.num_cells() == cols);
        vstd::arithmetic::div_mod::lemma_fundamental_div_mod_converse(i, cols, 0, i);
    }
    if cols == 1 {
        vstd::arithmetic::div_mod::lemma_fundamental_div_mod_converse(i, 1, i, 0);
    }
}

/// Every element of the neighbour list lies on the grid, next to the cell.
proof fn lemma_neighbor_seq(maze: Maze, c: Cell, k: int)
    requires
        maze.wf(),
        maze.contains_cell(c),
        0 <= k < maze.neighbor_seq(c).len(),
    ensures
        maze.contains_cell(maze.neighbor_seq(c)[k]),
        grid_adjacent(c, maze.neighbor_seq(c)[k]),
{
}

/// A cell has at most four passages: they lead to distinct grid neighbours.
proof fn lemma_degree_at_most_four(maze: Maze, i: int, s: Seq<u32>)
    requires
        maze.shape_ok(),
        0 <= i < maze.num_cells(),
        s.no_duplicates(),
        forall|k: int| 0 <= k < s.len() ==> (#[trigger] s[k]) < maze.num_cells()
            && grid_adjacent(maze.cell_at(i), maze.cell_at(s[k] as int)),
    ensures
        s.len() <= 4,
{
    let c = maze.cell_at(i);
    let t = s.map_values(|j: u32| maze.cell_at(j as int));
    assert forall|x: int, y: int| 0 <= x < t.len() && 0 <= y < t.len() && x != y implies
        #[trigger] t[x] != #[trigger] t[y] by {
        if t[x] == t[y] {
            lemma_cell_at_injective(maze, s[x] as int, s[y] as int);
        }
    }
    assert(t.no_duplicates());
    t.unique_seq_to_set();
    let around = set![
        Cell { row: (c.row - 1) as u32, col: c.col },
        Cell { row: (c.row + 1) as u32, col: c.col },
        Cell { row: c.row, col: (c.col - 1) as u32 },
        Cell { row: c.row, col: (c.col + 1) as u32 },
    ];
    assert forall|d: Cell| #[trigger] t.to_set().contains(d) implies around.contains(d) by {
        let k = choose|k: int| 0 <= k < t.len() && t[k] == d;
        assert(grid_adjacent(c, t[k]));
    }
    vstd::set_lib::lemma_len_subset(t.to_set(), around);
}

/// The row-major index of the cell at index `i` is `i`.
proof fn lemma_index_of_cell_at(maze: Maze, i: int)
    requires
        maze.shape_ok(),
        0 <= i < maze.num_cells(),
    ensures
        maze.index_of(maze.cell_at(i)) == i,
        maze.contains_cell(maze.cell_at(i)),
{
    let cols = maze.spec_cols() as int;
    lemma_cell_in_range(i, maze.spec_rows() as int, cols);
    vstd::arithmetic::div_mod::lemma_fundamental_div_mod(i, cols);
    assert(cols * (i / cols) == (i / cols) * cols) by (nonlinear_arith);
}

/// A grid neighbour of `c` appears in its neighbour list.
proof fn lemma_adjacent_in_neighbor_seq(maze: Maze, c: Cell, d: Cell)
    requires
        maze.contains_cell(c),
        maze.contains_cell(d),
        grid_adjacent(c, d),
    ensures
        exists|m: int| 0 <= m < maze.neighbor_seq(c).len() && maze.neighbor_seq(c)[m] == d,
{
    let n = if c.row > 0 { seq![maze.step(c, Some(Move::North))] } else { seq![] };
    let e = if c.col + 1 < maze.spec_cols() { seq![maze.step(c, Some(Move::East))] } else { seq![] };
    let s = if c.row + 1 < maze.spec_rows() { seq![maze.step(c, Some(Move::South))] } else { seq![] };
    let w = if c.col > 0 { seq![maze.step(c, Some(Move::West))] } else { seq![] };
    let all = maze.neighbor_seq(c);
    assert(all == n + e + s + w);
    if d.row + 1 == c.row {
        assert(all[0] == d);
    } else if d.col == c.col + 1 {
        assert(all[n.len() as int] == d);
    } else if d.row == c.row + 1 {
        assert(all[(n.len() + e.len()) as int] == d);
    } else {
        assert(all[(n.len() + e.len() + s.len()) as int] == d);
    }
}

/// Where the marked cells include `s` and every grid neighbour of each
/// marked cell, every cell of the grid is marked.
proof fn lemma_settled_covers(maze: Maze, seen: Seq<bool>, s: int, c: Cell)
    requires
        maze.shape_ok(),
        seen.len() == maze.num_cells(),
        0 <= s < maze.num_cells(),
        seen[s],
        forall|j: int| 0 <= j < maze.num_cells() && #[trigger] seen[j] ==> maze.settled(seen, j),
        maze.contains_cell(c),
    ensures
        seen[maze.index_of(c)],
    decreases grid_distance(maze.cell_at(s), c),
{
    let a = maze.cell_at(s);
    lemma_index_of_cell_at(maze, s);
    if c != a {
        let d = if c.row > a.row {
            Cell { row: (c.row - 1) as u32, col: c.col }
        } else if c.row < a.row {
            Cell { row: (c.row + 1) as u32, col: c.col }
        } else if c.col > a.col {
            Cell { row: c.row, col: (c.col - 1) as u32 }
        } else {
            Cell { row: c.row, col: (c.col + 1) as u32 }
        };
        lemma_settled_covers(maze, seen, s, d);
        lemma_cell_at_index_of(maze, d);
        assert(maze.settled(seen, maze.index_of(d)));
        assert(grid_adjacent(maze.cell_at(maze.index_of(d)), c));
    }
}

proof fn lemma_walk_grows(before: Maze, after: Maze, w: Seq<int>)
    requires
        before.is_walk(w),
        after.num_cells() == before.num_cells(),
        forall|x: int, y: int| before.joined(x, y) ==> #[trigger] after.joined(x, y),
    ensures
        after.is_walk(w),
{
    assert forall|k: int| 0 <= k < w.len() - 1 implies after.joined(#[trigger] w[k], w[k + 1]) by {
        assert(before.joined(w[k], w[k + 1]));
    }
}

/// Passages lead both ways.
#[verifier::spinoff_prover]
#[verifier::rlimit(40)]
proof fn lemma_link_symmetric(maze: Maze, a: int, b: int)
    requires
        maze.wf(),
        maze.linked(a, b),
    ensures
        maze.linked(b, a),
{
    let w = choose|w: Seq<int>| maze.is_walk(w) && w[0] == a && w.last() == b;
    let r = w.reverse();
    assert forall|k: int| 0 <= k < r.len() - 1 implies maze.joined(#[trigger] r[k], r[k + 1]) by {
        let i = w.len() - 2 - k;
        assert(maze.joined(w[i], w[i + 1]));
        assert(r[k] == w[i + 1] && r[k + 1] == w[i]);
        let x = w[i];
        let y = w[i + 1];
        let p = choose|p: int| 0 <= p < maze.adjacency()[x].len() && maze.adjacency()[x][p] == y as u32;
        assert(maze.joined(maze.adjacency()[x][p] as int, x));
    }
    assert(r[0] == b && r.last() == a);
    assert(maze.is_walk(r));
}

/// Connection through passages is transitive.
proof fn lemma_link_transitive(maze: Maze, a: int, m: int, b: int)
    requires
        maze.linked(a, m),
        maze.linked(m, b),
    ensures
        maze.linked(a, b),
{
    let w1 = choose|w: Seq<int>| maze.is_walk(w) && w[0] == a && w.last() == m;
    let w2 = choose|w: Seq<int>| maze.is_walk(w) && w[0] == m && w.last() == b;
    let w = w1 + w2.drop_first();
    assert forall|k: int| 0 <= k < w.len() - 1 implies maze.joined(#[trigger] w[k], w[k + 1]) by {
        if k < w1.len() - 1 {
            assert(maze.joined(w1[k], w1[k + 1]));
        } else if k == w1.len() - 1 {
            assert(maze.joined(w2[0], w2[1]));
        } else {
            let q = k - w1.len() + 1;
            assert(w[k] == w2[q] && w[k + 1] == w2[q + 1]);
            assert(maze.joined(w2[q], w2[q + 1]));
        }
    }
    assert forall|k: int| 0 <= k < w.len() implies 0 <= #[trigger] w[k] < maze.num_cells() by {
        if k < w1.len() {
            assert(w[k] == w1[k]);
        } else {
            assert(w[k] == w2[k - w1.len() + 1]);
        }
    }
    assert(maze.is_walk(w));
    if w2.len() == 1 {
        assert(w.last() == w1.last());
    } else {
        assert(w.last() == w2.last());
    }
}

/// A passage to a cell that had none closes no cycle.
proof fn lemma_no_cycle_through_leaf(before: Maze, after: Maze, a: int, b: int, w: Seq<int>)
    requires
        before.wf(),
        after.wf(),
        before.acyclic(),
        after.num_cells() == before.num_cells(),
        0 <= a < before.num_cells(),
        0 <= b < before.num_cells(),
        a != b,
        before.adjacency()[b].len() == 0,
        after.adjacency() == before.adjacency().update(a, before.adjacency()[a].push(b as u32)).update(b, seq![a as u32]),
    ensures
        !after.is_cycle(w),
{
    let len = w.len();
    if !after.is_cycle(w) {
    } else if exists|k: int| 0 <= k < len - 1 && w[k] == b {
        let k = choose|k: int| 0 <= k < len - 1 && w[k] == b;
        let p = if k == 0 { len - 2 } else { k - 1 };
        let q = k + 1;
        assert(after.joined(w[p], w[p + 1]));
        assert(w[p + 1] == b) by {
            if k == 0 {
                assert(w[len - 1] == w[0]);
            }
        }
        assert(after.joined(w[q - 1], w[q]));
        // The cycle enters and leaves `b` through its only passage.
        let x = w[p];
        let i = choose|i: int| 0 <= i < after.adjacency()[x].len() && after.adjacency()[x][i] == b as u32;
        assert(after.joined(after.adjacency()[x][i] as int, x));
        assert(after.adjacency()[b] == seq![a as u32]);
        assert(x == a);
        let y = w[q];
        assert(after.adjacency()[b].contains(y as u32));
        assert(y == a);
        if q == len - 1 {
            assert(w[q] == w[0]);
            assert(w[p] != w[0]);
        } else {
            assert(w[p] != w[q]);
        }
    } else {
        assert forall|k: int| 0 <= k < len - 1 implies before.joined(#[trigger] w[k], w[k + 1]) by {
            assert(after.joined(w[k], w[k + 1]));
            assert(w[k] != b);
            assert(w[k + 1] != b) by {
                if k + 1 == len - 1 {
                    assert(w[k + 1] == w[0]);
                }
            }
            let x = w[k];
            let i = choose|i: int| 0 <= i < after.adjacency()[x].len() && after.adjacency()[x][i] == w[k + 1] as u32;
            if x == a {
                assert(i < before.adjacency()[a].len());
                assert(before.adjacency()[a][i] == w[k + 1] as u32);
            } else {
                assert(before.adjacency()[x][i] == w[k + 1] as u32);
            }
        }
        assert(before.is_cycle(w));
    }
}

proof fn lemma_total_len_zero(s: Seq<Seq<u32>>)
    requires
        forall|i: int| 0 <= i < s.len() ==> (#[trigger] s[i]).len() == 0,
    ensures
        total_len(s) == 0,
    decreases s.len(),
{
    if s.len() > 0 {
        lemma_total_len_zero(s.drop_last());
    }
}

proof fn lemma_total_len_update(s: Seq<Seq<u32>>, i: int, t: Seq<u32>)
    requires
        0 <= i < s.len(),
    ensures
        total_len(s.update(i, t)) == total_len(s) - s[i].len() + t.len(),
    decreases s.len(),
{
    if i < s.len() - 1 {
        lemma_total_len_update(s.drop_last(), i, t);
        assert(s.update(i, t).drop_last() =~= s.drop_last().update(i, t));
    } else {
        assert(s.update(i, t).drop_last() =~= s.drop_last());
    }
}

proof fn lemma_index_in_range(row: int, col: int, rows: int, cols: int)
    requires
        0 <= row < rows,
        0 <= col < cols,
    ensures
        0 <= row * cols + col < rows * cols,
{
    assert(row * cols + col < rows * cols) by (nonlinear_arith)
        requires 0 <= row < rows, 0 <= col < cols;
    assert(0 <= row * cols) by (nonlinear_arith)
        requires 0 <= row, 0 <= cols;
}

proof fn lemma_cell_in_range(i: int, rows: int, cols: int)
    requires
        0 <= i < rows * cols,
        cols > 0,
    ensures
        0 <= i / cols < rows,
        0 <= i % cols < cols,
{
    vstd::arithmetic::div_mod::lemma_fundamental_div_mod(i, cols);
    assert(0 <= i / cols < rows) by (nonlinear_arith)
        requires 0 <= i < rows * cols, cols > 0, i == cols * (i / cols) + i % cols, 0 <= i % cols < cols;
}

} // verus!
