//! When a maze is perfect: its passages join all cells and close no loop, so
//! that exactly one way leads from any cell to any other.
//!
//! A passage between two neighbouring cells is read from the cell south or
//! east of it, the cell that also answers for the wall there: from its north
//! side, or from its west side.

use crate::cycle::{
    lemma_discovery_excludes_cycles, lemma_discovery_step, lemma_slot_between, Discovery,
};
use crate::grid::{lemma_cell_index, GridView, MazeGrid};
use vstd::prelude::*;

verus! {

impl GridView {
    /// Whether the cell at column `x`, row `y` has a cell north of it and a
    /// passage to that cell.
    pub open spec fn open_north(self, x: int, y: int) -> bool {
        self.inside(x, y) && y > 0 && self.cell(x, y).north
    }

    /// Whether the cell at column `x`, row `y` has a cell west of it and a
    /// passage to that cell.
    pub open spec fn open_west(self, x: int, y: int) -> bool {
        self.inside(x, y) && x > 0 && self.cell(x, y).west
    }

    /// Whether `a` and `b` are neighbours with a passage between them.
    pub open spec fn linked(self, a: (int, int), b: (int, int)) -> bool {
        ||| b == (a.0, a.1 - 1) && self.open_north(a.0, a.1)
        ||| a == (b.0, b.1 - 1) && self.open_north(b.0, b.1)
        ||| b == (a.0 - 1, a.1) && self.open_west(a.0, a.1)
        ||| a == (b.0 - 1, b.1) && self.open_west(b.0, b.1)
    }

    /// Whether `walk` is a walk through the maze: a run of cells, each joined
    /// to the next by a passage.
    pub open spec fn is_walk(self, walk: Seq<(int, int)>) -> bool {
        &&& walk.len() > 0
        &&& self.inside(walk[0].0, walk[0].1)
        &&& forall|i: int| 0 <= i < walk.len() - 1 ==> self.linked(#[trigger] walk[i], walk[i + 1])
    }

    /// Whether a walk leads from the north-west corner to `at`.
    pub open spec fn reachable(self, at: (int, int)) -> bool {
        exists|walk: Seq<(int, int)>|
            #[trigger] self.is_walk(walk) && walk[0] == (0int, 0int) && walk.last() == at
    }

    /// Whether every cell can be walked to from the north-west corner, and so
    /// from every other cell.
    pub open spec fn connected(self) -> bool {
        forall|x: int, y: int| self.inside(x, y) ==> #[trigger] self.reachable((x, y))
    }

    /// Number of passages that the first `count` cells, row by row, have to
    /// their northern and western neighbours.
    pub open spec fn passages_among(self, count: nat) -> nat
        decreases count,
    {
        if count == 0 {
            0
        } else {
            let x = (count - 1) % (self.width as int);
            let y = (count - 1) / (self.width as int);
            self.passages_among((count - 1) as nat) + if self.open_north(x, y) {
                1nat
            } else {
                0nat
            } + if self.open_west(x, y) {
                1nat
            } else {
                0nat
            }
        }
    }

    /// Number of passages of the maze, each counted once.
    pub open spec fn passage_count(self) -> nat {
        self.passages_among(self.width * self.height)
    }

    /// Whether the two cells on either side of every edge inside the grid
    /// agree on whether there is a passage.
    pub open spec fn symmetric(self) -> bool {
        forall|x: int, y: int| #[trigger]
            self.inside(x, y) ==> {
                &&& y + 1 < self.height ==> self.cell(x, y).south == self.cell(x, y + 1).north
                &&& x + 1 < self.width ==> self.cell(x, y).east == self.cell(x + 1, y).west
            }
    }

    /// Whether the passages form a spanning tree of the grid: they join all
    /// cells, none of them closes a loop, and so there is one fewer of them
    /// than there are cells.
    pub open spec fn is_spanning_tree(self) -> bool {
        &&& self.wf()
        &&& self.width > 0
        &&& self.height > 0
        &&& self.symmetric()
        &&& self.connected()
        &&& self.acyclic()
        &&& self.passage_count() == self.width * self.height - 1
    }
}

/// A cell that is joined to a reachable cell is reachable.
pub proof fn lemma_reachable_step(grid: GridView, a: (int, int), b: (int, int))
    requires
        grid.reachable(a),
        grid.linked(a, b),
    ensures
        grid.reachable(b),
{
    let walk = choose|walk: Seq<(int, int)>|
        #[trigger] grid.is_walk(walk) && walk[0] == (0int, 0int) && walk.last() == a;
    let longer = walk.push(b);
    assert forall|i: int| 0 <= i < longer.len() - 1 implies grid.linked(
        #[trigger] longer[i],
        longer[i + 1],
    ) by {
        if i < walk.len() - 1 {
            assert(grid.linked(walk[i], walk[i + 1]));
        }
    }
    assert(grid.is_walk(longer));
    assert(longer[0] == (0int, 0int) && longer.last() == b);
}

/// The north-west corner is reachable.
pub proof fn lemma_corner_reachable(grid: GridView)
    requires
        grid.width > 0,
        grid.height > 0,
    ensures
        grid.reachable((0int, 0int)),
{
    let walk = seq![(0int, 0int)];
    assert(grid.is_walk(walk));
    assert(walk[0] == (0int, 0int) && walk.last() == (0int, 0int));
}

/// Passages join cells of the grid only.
pub proof fn lemma_linked_inside(grid: GridView, a: (int, int), b: (int, int))
    requires
        grid.linked(a, b),
    ensures
        grid.inside(a.0, a.1),
        grid.inside(b.0, b.1),
        grid.linked(b, a),
{
}

/// A set of cells that holds the corner and, with every cell, the cells
/// joined to it, holds every reachable cell.
pub proof fn lemma_closed_set_holds_reachable(grid: GridView, cells: Set<(int, int)>, at: (int, int))
    requires
        cells.contains((0int, 0int)),
        forall|a: (int, int), b: (int, int)|
            cells.contains(a) && #[trigger] grid.linked(a, b) ==> cells.contains(b),
        grid.reachable(at),
    ensures
        cells.contains(at),
{
    let walk = choose|walk: Seq<(int, int)>|
        #[trigger] grid.is_walk(walk) && walk[0] == (0int, 0int) && walk.last() == at;
    lemma_closed_set_holds_walk(grid, cells, walk, walk.len() - 1);
}

proof fn lemma_closed_set_holds_walk(
    grid: GridView,
    cells: Set<(int, int)>,
    walk: Seq<(int, int)>,
    upto: int,
)
    requires
        cells.contains((0int, 0int)),
        forall|a: (int, int), b: (int, int)|
            cells.contains(a) && #[trigger] grid.linked(a, b) ==> cells.contains(b),
        grid.is_walk(walk),
        walk[0] == (0int, 0int),
        0 <= upto < walk.len(),
    ensures
        cells.contains(walk[upto]),
    decreases upto,
{
    if upto > 0 {
        lemma_closed_set_holds_walk(grid, cells, walk, upto - 1);
        assert(grid.linked(walk[upto - 1], walk[upto - 1 + 1]));
    }
}

/// Number of `true` entries.
pub open spec fn count_true(marks: Seq<bool>) -> nat
    decreases marks.len(),
{
    if marks.len() == 0 {
        0
    } else {
        count_true(marks.drop_last()) + if marks.last() {
            1nat
        } else {
            0nat
        }
    }
}

proof fn lemma_count_true_bound(marks: Seq<bool>)
    ensures
        count_true(marks) <= marks.len(),
        count_true(marks) == marks.len() <==> forall|i: int| 0 <= i < marks.len() ==> marks[i],
    decreases marks.len(),
{
    if marks.len() > 0 {
        let front = marks.drop_last();
        lemma_count_true_bound(front);
        if count_true(marks) == marks.len() {
            assert forall|i: int| 0 <= i < marks.len() implies marks[i] by {
                if i < front.len() {
                    assert(front[i]);
                }
            }
        }
        if forall|i: int| 0 <= i < marks.len() ==> marks[i] {
            assert forall|i: int| 0 <= i < front.len() implies front[i] by {
                assert(marks[i]);
            }
        }
    }
}

proof fn lemma_count_true_set(marks: Seq<bool>, at: int)
    requires
        0 <= at < marks.len(),
        !marks[at],
    ensures
        count_true(marks.update(at, true)) == count_true(marks) + 1,
    decreases marks.len(),
{
    let after = marks.update(at, true);
    if at == marks.len() - 1 {
        assert(after.drop_last() =~= marks.drop_last());
    } else {
        lemma_count_true_set(marks.drop_last(), at);
        assert(after.drop_last() =~= marks.drop_last().update(at, true));
    }
}

/// Whether the cell at column `x`, row `y` has a passage to the cell north of
/// it.
fn north_open(maze: &MazeGrid, x: u32, y: u32) -> (open: bool)
    ensures
        open == maze@.open_north(x as int, y as int),
{
    match maze.get_field(x, y) {
        Some(cell) => y > 0 && cell.north,
        None => false,
    }
}

/// Whether the cell at column `x`, row `y` has a passage to the cell west of
/// it.
fn west_open(maze: &MazeGrid, x: u32, y: u32) -> (open: bool)
    ensures
        open == maze@.open_west(x as int, y as int),
{
    match maze.get_field(x, y) {
        Some(cell) => x > 0 && cell.west,
        None => false,
    }
}

/// The place of a cell among the cells, row by row.
fn cell_index(width: u32, height: u32, x: u32, y: u32) -> (index: usize)
    requires
        x < width,
        y < height,
        width * height <= usize::MAX,
    ensures
        index == y * width + x,
        index < width * height,
{
    proof {
        lemma_cell_index(width as nat, height as nat, x as int, y as int);
        assert(0 <= y * width <= y * width + x);
    }
    (y as usize) * (width as usize) + (x as usize)
}

/// A search through the maze from its north-west corner: the cells found so
/// far, those among them whose neighbours are still to be looked at, and how
/// each cell was come to.
struct Search {
    marks: Vec<bool>,
    pending: Vec<(u32, u32)>,
    found: usize,
    discovery: Ghost<Discovery>,
}

impl Search {
    spec fn marked(self, grid: GridView, at: (int, int)) -> bool {
        grid.inside(at.0, at.1) && self.marks@[at.1 * grid.width + at.0]
    }

    spec fn is_pending(self, at: (int, int)) -> bool {
        exists|k: int|
            0 <= k < self.pending.len() && (#[trigger] self.pending[k]).0 == at.0
                && self.pending[k].1 == at.1
    }

    /// What holds between two steps of the search, but for the cell `open`
    /// whose neighbours are being looked at: the corner is found, every cell
    /// found is reachable, and every cell joined to a found cell that is not
    /// pending is found too.
    spec fn inv(self, grid: GridView, open: Option<(int, int)>) -> bool {
        &&& grid.wf()
        &&& grid.width > 0
        &&& grid.height > 0
        &&& self.marks.len() == grid.width * grid.height
        &&& self.found == count_true(self.marks@)
        &&& self.marked(grid, (0int, 0int))
        &&& forall|at: (int, int)| #[trigger] self.marked(grid, at) ==> grid.reachable(at)
        &&& forall|k: int|
            0 <= k < self.pending.len() ==> self.marked(
                grid,
                ((#[trigger] self.pending[k]).0 as int, self.pending[k].1 as int),
            )
        &&& forall|a: (int, int), b: (int, int)|
            self.marked(grid, a) && #[trigger] grid.linked(a, b) && !self.is_pending(a) && open
                != Some(a) ==> self.marked(grid, b)
    }

    /// What the search remembers of its way fits the cells found: one slot
    /// gone through for every cell found but the corner.
    spec fn remembers(self, grid: GridView) -> bool {
        &&& self.discovery@.agrees(grid, self.marks@, self.found as nat)
        &&& count_true(self.discovery@.used) + 1 == self.found
    }

    /// How much of the search is left at most.
    spec fn left(self) -> int {
        2 * (self.marks.len() - self.found) + self.pending.len()
    }

    /// Whether every cell that `before` had found is still found.
    spec fn extends(self, before: Search, grid: GridView) -> bool {
        forall|at: (int, int)| #[trigger] before.marked(grid, at) ==> self.marked(grid, at)
    }

    /// Finds the cell at column `x`, row `y`, unless it was found before. The
    /// cell is come to from the found cell `from`.
    fn visit(
        &mut self,
        maze: &MazeGrid,
        x: u32,
        y: u32,
        Ghost(from): Ghost<(int, int)>,
        Ghost(open): Ghost<Option<(int, int)>>,
    )
        requires
            old(self).inv(maze@, open),
            old(self).remembers(maze@),
            old(self).marked(maze@, from),
            maze@.linked(from, (x as int, y as int)),
        ensures
            final(self).inv(maze@, open),
            final(self).remembers(maze@),
            final(self).marked(maze@, (x as int, y as int)),
            final(self).extends(*old(self), maze@),
            final(self).left() <= old(self).left(),
    {
        let ghost grid = maze@;
        let ghost here = (x as int, y as int);
        let width = maze.width();
        let height = maze.height();
        proof {
            lemma_linked_inside(grid, from, here);
            lemma_reachable_step(grid, from, here);
        }
        let index = cell_index(width, height, x, y);
        if !self.marks[index] {
            let ghost slot = grid.slot_between(from, here);
            let ghost found_before = self.found as nat;
            proof {
                lemma_count_true_set(self.marks@, index as int);
                lemma_count_true_bound(self.marks@.update(index as int, true));
                lemma_discovery_step(grid, self.marks@, self.discovery@, found_before, from, here);
                lemma_count_true_set(self.discovery@.used, slot);
            }
            self.marks.set(index, true);
            self.pending.push((x, y));
            self.found = self.found + 1;
            proof {
                self.discovery@ = self.discovery@.step(grid, from, here, found_before);
            }
            proof {
                let before = *old(self);
                let after = *self;
                assert forall|at: (int, int)| #[trigger] after.marked(grid, at) implies (
                before.marked(grid, at) || at == here) by {
                    lemma_cell_index(grid.width, grid.height, at.0, at.1);
                    lemma_cell_index(grid.width, grid.height, here.0, here.1);
                }
                assert forall|at: (int, int)| #[trigger] before.marked(grid, at) implies after.marked(
                    grid,
                    at,
                ) by {
                    lemma_cell_index(grid.width, grid.height, at.0, at.1);
                }
                assert(after.marked(grid, here));
                assert(after.pending[after.pending.len() - 1] == (x, y));
                assert(after.is_pending(here));
                assert forall|k: int| 0 <= k < after.pending.len() implies after.marked(
                    grid,
                    ((#[trigger] after.pending[k]).0 as int, after.pending[k].1 as int),
                ) by {
                    if k < before.pending.len() {
                        assert(after.pending[k] == before.pending[k]);
                        assert(before.marked(
                            grid,
                            (before.pending[k].0 as int, before.pending[k].1 as int),
                        ));
                    }
                }
                assert forall|a: (int, int), b: (int, int)|
                    after.marked(grid, a) && #[trigger] grid.linked(a, b) && !after.is_pending(a)
                        && open != Some(a) implies after.marked(grid, b) by {
                    if before.is_pending(a) {
                        let k = choose|k: int|
                            0 <= k < before.pending.len() && (#[trigger] before.pending[k]).0
                                == a.0 && before.pending[k].1 == a.1;
                        assert(after.pending[k] == before.pending[k]);
                        assert(after.is_pending(a));
                    }
                    assert(before.marked(grid, a));
                    assert(before.marked(grid, b));
                }
            }
        }
    }

    /// Looks at the neighbours of the cell at column `x`, row `y`, and finds
    /// those that a passage leads to.
    fn expand(&mut self, maze: &MazeGrid, x: u32, y: u32)
        requires
            old(self).inv(maze@, Some((x as int, y as int))),
            old(self).remembers(maze@),
            old(self).marked(maze@, (x as int, y as int)),
        ensures
            final(self).inv(maze@, None),
            final(self).remembers(maze@),
            final(self).left() <= old(self).left(),
    {
        let ghost grid = maze@;
        let ghost here = (x as int, y as int);
        let ghost open = Some(here);
        let width = maze.width();
        let height = maze.height();
        if north_open(maze, x, y) {
            assert(grid.linked(here, (x as int, y - 1)));
            self.visit(maze, x, y - 1, Ghost(here), Ghost(open));
        }
        let ghost first = *self;
        assert(first.marked(grid, here));
        if y < height - 1 && north_open(maze, x, y + 1) {
            assert(grid.linked(here, (x as int, y + 1)));
            self.visit(maze, x, y + 1, Ghost(here), Ghost(open));
        }
        let ghost second = *self;
        assert(second.marked(grid, here));
        if west_open(maze, x, y) {
            assert(grid.linked(here, (x - 1, y as int)));
            self.visit(maze, x - 1, y, Ghost(here), Ghost(open));
        }
        let ghost third = *self;
        assert(third.marked(grid, here));
        if x < width - 1 && west_open(maze, x + 1, y) {
            assert(grid.linked(here, (x + 1, y as int)));
            self.visit(maze, x + 1, y, Ghost(here), Ghost(open));
        }
        proof {
            let last = *self;
            assert forall|b: (int, int)| #[trigger] grid.linked(here, b) implies last.marked(
                grid,
                b,
            ) by {
                if b == (x as int, y - 1) {
                    assert(first.marked(grid, b));
                    assert(second.marked(grid, b));
                    assert(third.marked(grid, b));
                } else if b == (x as int, y + 1) {
                    assert(second.marked(grid, b));
                    assert(third.marked(grid, b));
                } else if b == (x - 1, y as int) {
                    assert(third.marked(grid, b));
                } else {
                    assert(b == (x + 1, y as int));
                }
            }
        }
    }
}

/// Searches the maze from its north-west corner. Tells whether every cell was
/// found, and hands out what the search remembers of its way.
fn explore(maze: &MazeGrid) -> (r: (bool, Ghost<Discovery>))
    requires
        maze@.width > 0,
        maze@.height > 0,
    ensures
        r.0 == maze@.connected(),
        r.0 ==> r.1@.sound(maze@) && count_true(r.1@.used) == maze@.width * maze@.height - 1,
{
    let ghost grid = maze@;
    let count = maze.cell_count();
    let mut marks: Vec<bool> = Vec::new();
    while marks.len() < count
        invariant
            marks.len() <= count,
            forall|i: int| 0 <= i < marks.len() ==> !marks[i],
        decreases count - marks.len(),
    {
        marks.push(false);
    }
    let ghost cells = grid.width * grid.height;
    let ghost way = Discovery {
        order: Seq::new(cells, |i: int| 0nat),
        via: Seq::new(cells, |i: int| 0int),
        used: Seq::new(2 * cells, |i: int| false),
    };
    proof {
        lemma_cell_index(grid.width, grid.height, 0, 0);
        lemma_count_true_none(marks@);
        lemma_count_true_none(way.used);
        lemma_count_true_set(marks@, 0);
        lemma_corner_reachable(grid);
    }
    marks.set(0, true);
    let mut pending: Vec<(u32, u32)> = Vec::new();
    pending.push((0, 0));
    let mut search = Search { marks, pending, found: 1, discovery: Ghost(way) };
    proof {
        assert forall|at: (int, int)| #[trigger] search.marked(grid, at) implies at == (0int, 0int) by {
            lemma_cell_index(grid.width, grid.height, at.0, at.1);
        }
        assert(search.pending[0] == (0u32, 0u32));
        assert(search.is_pending((0int, 0int)));
        assert forall|a: (int, int), b: (int, int)|
            #[trigger] grid.linked(a, b) && way.used[grid.slot_between(a, b)] implies false by {
            lemma_slot_between(grid, a, b);
        }
        assert forall|at: (int, int)|
            grid.inside(at.0, at.1) && search.marks@[#[trigger] grid.index(at)] implies way.order[grid.index(
                at,
            )] < 1 by {
            lemma_cell_index(grid.width, grid.height, at.0, at.1);
        }
        assert(search.remembers(grid));
    }
    while search.pending.len() > 0
        invariant
            search.inv(maze@, None),
            search.remembers(maze@),
            grid == maze@,
        decreases search.left(),
    {
        let ghost before = search;
        proof {
            lemma_count_true_bound(search.marks@);
        }
        let at = search.pending.pop().unwrap();
        proof {
            let here = (at.0 as int, at.1 as int);
            assert(before.pending[before.pending.len() - 1] == at);
            assert(before.marked(grid, here));
            assert forall|a: (int, int), b: (int, int)|
                search.marked(grid, a) && #[trigger] grid.linked(a, b) && !search.is_pending(a)
                    && Some(here) != Some(a) implies search.marked(grid, b) by {
                if before.is_pending(a) {
                    let k = choose|k: int|
                        0 <= k < before.pending.len() && (#[trigger] before.pending[k]).0 == a.0
                            && before.pending[k].1 == a.1;
                    assert(k < search.pending.len());
                    assert(search.pending[k] == before.pending[k]);
                    assert(search.is_pending(a));
                }
                assert(before.marked(grid, b));
            }
            assert forall|k: int| 0 <= k < search.pending.len() implies search.marked(
                grid,
                ((#[trigger] search.pending[k]).0 as int, search.pending[k].1 as int),
            ) by {
                assert(search.pending[k] == before.pending[k]);
            }
            assert forall|at: (int, int)| #[trigger] search.marked(grid, at) implies grid.reachable(
                at,
            ) by {
                assert(before.marked(grid, at));
            }
            assert(search.marked(grid, (0int, 0int)));
            assert(search.inv(grid, Some(here)));
            assert(search.remembers(grid));
            assert(search.left() == before.left() - 1);
        }
        search.expand(maze, at.0, at.1);
        proof {
            lemma_count_true_bound(search.marks@);
        }
    }
    proof {
        let found = Set::new(|at: (int, int)| search.marked(grid, at));
        lemma_count_true_bound(search.marks@);
        assert forall|a: (int, int), b: (int, int)|
            found.contains(a) && #[trigger] grid.linked(a, b) implies found.contains(b) by {
            assert(!search.is_pending(a));
        }
        if search.found == count {
            assert forall|x: int, y: int| grid.inside(x, y) implies #[trigger] grid.reachable(
                (x, y),
            ) by {
                lemma_cell_index(grid.width, grid.height, x, y);
                assert(search.marked(grid, (x, y)));
            }
        } else {
            let i = choose|i: int| 0 <= i < search.marks.len() && !search.marks[i];
            let w = grid.width as int;
            let x = i % w;
            let y = i / w;
            assert(0 <= x < w && 0 <= y < grid.height && y * w + x == i) by (nonlinear_arith)
                requires
                    0 <= i < w * grid.height,
                    w > 0,
                    x == i % w,
                    y == i / w,
            ;
            assert(!search.marked(grid, (x, y)));
            if grid.reachable((x, y)) {
                lemma_closed_set_holds_reachable(grid, found, (x, y));
            }
            assert(grid.inside(x, y));
        }
    }
    (search.found == count, search.discovery)
}

/// Whether every cell can be walked to from the north-west corner. A grid
/// without cells counts as joined.
pub fn is_connected(maze: &MazeGrid) -> (connected: bool)
    ensures
        connected == maze@.connected(),
{
    if maze.width() == 0 || maze.height() == 0 {
        true
    } else {
        explore(maze).0
    }
}

proof fn lemma_count_true_none(marks: Seq<bool>)
    requires
        forall|i: int| 0 <= i < marks.len() ==> !marks[i],
    ensures
        count_true(marks) == 0,
    decreases marks.len(),
{
    if marks.len() > 0 {
        lemma_count_true_none(marks.drop_last());
    }
}

/// Whether the cells at linear places below `count` agree with their
/// southern and eastern neighbours.
spec fn symmetric_among(grid: GridView, count: int) -> bool {
    forall|x: int, y: int| #[trigger]
        grid.inside(x, y) && y * grid.width + x < count ==> {
            &&& y + 1 < grid.height ==> grid.cell(x, y).south == grid.cell(x, y + 1).north
            &&& x + 1 < grid.width ==> grid.cell(x, y).east == grid.cell(x + 1, y).west
        }
}

/// Whether the cell at column `x`, row `y` agrees with its southern and its
/// eastern neighbour on the passages between them.
fn agrees_at(maze: &MazeGrid, x: u32, y: u32) -> (agrees: bool)
    requires
        maze@.inside(x as int, y as int),
    ensures
        agrees == {
            &&& y + 1 < maze@.height ==> maze@.cell(x as int, y as int).south == maze@.cell(
                x as int,
                y + 1,
            ).north
            &&& x + 1 < maze@.width ==> maze@.cell(x as int, y as int).east == maze@.cell(
                x + 1,
                y as int,
            ).west
        },
{
    let width = maze.width();
    let height = maze.height();
    match maze.get_field(x, y) {
        None => true,
        Some(here) => {
            let south_agrees = if y < height - 1 {
                match maze.get_field(x, y + 1) {
                    Some(south) => here.south == south.north,
                    None => true,
                }
            } else {
                true
            };
            let east_agrees = if x < width - 1 {
                match maze.get_field(x + 1, y) {
                    Some(east) => here.east == east.west,
                    None => true,
                }
            } else {
                true
            };
            south_agrees && east_agrees
        },
    }
}

/// Whether the two cells on either side of every edge inside the grid agree
/// on whether there is a passage.
pub fn is_symmetric(maze: &MazeGrid) -> (symmetric: bool)
    ensures
        symmetric == maze@.symmetric(),
{
    let ghost grid = maze@;
    let width = maze.width();
    let height = maze.height();
    let count = maze.cell_count();
    if width == 0 || height == 0 {
        return true;
    }
    let mut x: u32 = 0;
    let mut y: u32 = 0;
    while y < height
        invariant
            grid == maze@,
            grid.wf(),
            width == grid.width,
            height == grid.height,
            0 < width,
            0 <= x < width,
            0 <= y <= height,
            y == height ==> x == 0,
            symmetric_among(grid, y * width + x),
        decreases (height - y) * width - x,
    {
        if !agrees_at(maze, x, y) {
            assert(grid.inside(x as int, y as int));
            return false;
        }
        proof {
            let here = y * width + x;
            assert forall|cx: int, cy: int| #[trigger]
                grid.inside(cx, cy) && cy * grid.width + cx < here + 1 implies {
                &&& cy + 1 < grid.height ==> grid.cell(cx, cy).south == grid.cell(cx, cy + 1).north
                &&& cx + 1 < grid.width ==> grid.cell(cx, cy).east == grid.cell(cx + 1, cy).west
            } by {
                if cy * grid.width + cx == here {
                    lemma_cell_index(grid.width, grid.height, cx, cy);
                    lemma_cell_index(grid.width, grid.height, x as int, y as int);
                }
            }
            assert((height - y) * width - x - 1 >= 0) by (nonlinear_arith)
                requires
                    0 <= x < width,
                    y < height,
            ;
            assert((height - (y + 1)) * width == (height - y) * width - width)
                by (nonlinear_arith);
            assert((y + 1) * width == y * width + width) by (nonlinear_arith);
        }
        if x < width - 1 {
            x = x + 1;
        } else {
            x = 0;
            y = y + 1;
        }
    }
    proof {
        assert forall|cx: int, cy: int| #[trigger] grid.inside(cx, cy) implies cy * grid.width + cx
            < height * width by {
            lemma_cell_index(grid.width, grid.height, cx, cy);
            assert(height * width == width * height) by (nonlinear_arith);
        }
    }
    true
}

/// Number of passages of the maze, each counted once.
pub fn count_passages(maze: &MazeGrid) -> (count: u128)
    ensures
        count == maze@.passage_count(),
{
    let ghost grid = maze@;
    let width = maze.width();
    let height = maze.height();
    let cells = maze.cell_count();
    let mut passages: u128 = 0;
    if width == 0 || height == 0 {
        assert(grid.width * grid.height == 0) by (nonlinear_arith)
            requires
                grid.width == 0 || grid.height == 0,
        ;
        return passages;
    }
    let mut x: u32 = 0;
    let mut y: u32 = 0;
    while y < height
        invariant
            grid == maze@,
            grid.wf(),
            width == grid.width,
            height == grid.height,
            0 < width,
            0 <= x < width,
            0 <= y <= height,
            y == height ==> x == 0,
            y * width + x <= width * height,
            width * height == cells,
            passages == grid.passages_among((y * width + x) as nat),
            passages <= 2 * (y * width + x),
        decreases (height - y) * width - x,
    {
        proof {
            lemma_cell_index(grid.width, grid.height, x as int, y as int);
            assert(0 <= y * width);
        }
        if north_open(maze, x, y) {
            passages = passages + 1;
        }
        if west_open(maze, x, y) {
            passages = passages + 1;
        }
        proof {
            assert((height - y) * width - x - 1 >= 0) by (nonlinear_arith)
                requires
                    0 <= x < width,
                    y < height,
            ;
            assert((height - (y + 1)) * width == (height - y) * width - width)
                by (nonlinear_arith);
            assert((y + 1) * width == y * width + width) by (nonlinear_arith);
        }
        if x < width - 1 {
            x = x + 1;
        } else {
            x = 0;
            y = y + 1;
        }
    }
    proof {
        assert(height * width == width * height) by (nonlinear_arith);
    }
    passages
}

/// Whether the passages of a maze form a spanning tree of its grid.
pub fn is_spanning_tree(maze: &MazeGrid) -> (tree: bool)
    ensures
        tree == maze@.is_spanning_tree(),
{
    let width = maze.width();
    let height = maze.height();
    if width == 0 || height == 0 {
        return false;
    }
    let cells = maze.cell_count();
    assert(width * height >= 1) by (nonlinear_arith)
        requires
            width >= 1,
            height >= 1,
    ;
    let symmetric = is_symmetric(maze);
    let passages = count_passages(maze);
    let (connected, Ghost(way)) = explore(maze);
    proof {
        if connected && passages == cells - 1 {
            lemma_discovery_excludes_cycles(maze@, way);
        }
    }
    symmetric && connected && passages == (cells as u128) - 1
}

} // verus!
