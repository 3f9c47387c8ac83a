//! Why a maze whose passages join all cells, with one passage fewer than
//! cells, has no loop.
//!
//! A search that finds every cell comes to each cell but the first through a
//! passage of its own. That makes as many passages as the maze has, so every
//! passage is one through which a cell was found: it leads from a cell to one
//! found earlier. On a loop, the cell found last would have been found through
//! both of its passages on the loop.

use crate::grid::{lemma_cell_index, GridView};
use crate::tree::count_true;
use vstd::prelude::*;

verus! {

impl GridView {
    /// Whether `cycle` is a loop: three or more different cells, each joined
    /// to the next by a passage, and the last to the first.
    pub open spec fn is_cycle(self, cycle: Seq<(int, int)>) -> bool {
        &&& cycle.len() >= 3
        &&& cycle.no_duplicates()
        &&& self.is_walk(cycle)
        &&& self.linked(cycle.last(), cycle[0])
    }

    /// Whether the maze has no loop.
    pub open spec fn acyclic(self) -> bool {
        forall|cycle: Seq<(int, int)>| !#[trigger] self.is_cycle(cycle)
    }

    /// The place of a cell among the cells, row by row.
    pub open spec fn index(self, at: (int, int)) -> int {
        at.1 * self.width + at.0
    }

    /// Every cell has two slots for a passage: an even one to the north, an
    /// odd one to the west. Whether the slot with this number holds a passage.
    pub open spec fn slot_open(self, slot: int) -> bool {
        let x = (slot / 2) % (self.width as int);
        let y = (slot / 2) / (self.width as int);
        if slot % 2 == 0 {
            self.open_north(x, y)
        } else {
            self.open_west(x, y)
        }
    }

    /// All slots, in order.
    pub open spec fn slots(self) -> Seq<bool> {
        Seq::new(2 * (self.width * self.height), |slot: int| self.slot_open(slot))
    }

    /// The slot of the passage between two neighbouring cells.
    pub open spec fn slot_between(self, a: (int, int), b: (int, int)) -> int {
        if b == (a.0, a.1 - 1) {
            2 * self.index(a)
        } else if a == (b.0, b.1 - 1) {
            2 * self.index(b)
        } else if b == (a.0 - 1, a.1) {
            2 * self.index(a) + 1
        } else {
            2 * self.index(b) + 1
        }
    }
}

/// The passage between two cells has a slot, the same from either side, and
/// the slot holds a passage.
pub proof fn lemma_slot_between(grid: GridView, a: (int, int), b: (int, int))
    requires
        grid.linked(a, b),
    ensures
        0 <= grid.slot_between(a, b) < 2 * (grid.width * grid.height),
        grid.slot_open(grid.slot_between(a, b)),
        grid.slot_between(b, a) == grid.slot_between(a, b),
        grid.slots()[grid.slot_between(a, b)],
{
    lemma_cell_index(grid.width, grid.height, a.0, a.1);
    lemma_cell_index(grid.width, grid.height, b.0, b.1);
}

/// A slot belongs to one pair of cells only.
pub proof fn lemma_slot_names_its_cells(
    grid: GridView,
    a: (int, int),
    b: (int, int),
    c: (int, int),
    d: (int, int),
)
    requires
        grid.linked(a, b),
        grid.linked(c, d),
        grid.slot_between(a, b) == grid.slot_between(c, d),
    ensures
        (c == a && d == b) || (c == b && d == a),
{
    lemma_cell_index(grid.width, grid.height, a.0, a.1);
    lemma_cell_index(grid.width, grid.height, b.0, b.1);
    lemma_cell_index(grid.width, grid.height, c.0, c.1);
    lemma_cell_index(grid.width, grid.height, d.0, d.1);
}

/// The slots that hold a passage are as many as the maze has passages.
pub proof fn lemma_slots_count_passages(grid: GridView)
    ensures
        count_true(grid.slots()) == grid.passage_count(),
{
    let all = grid.slots();
    lemma_slots_among(grid, grid.width * grid.height);
    assert(all.take(all.len() as int) =~= all);
}

proof fn lemma_slots_among(grid: GridView, count: nat)
    requires
        count <= grid.width * grid.height,
    ensures
        count_true(grid.slots().take(2 * (count as int))) == grid.passages_among(count),
    decreases count,
{
    let all = grid.slots();
    if count == 0 {
        assert(all.take(0) =~= Seq::<bool>::empty());
    } else {
        lemma_slots_among(grid, (count - 1) as nat);
        let two = all.take(2 * (count as int));
        let one = all.take(2 * count - 1);
        let none = all.take(2 * count - 2);
        assert(two.drop_last() =~= one);
        assert(one.drop_last() =~= none);
        assert(two.last() == grid.slot_open(2 * count - 1));
        assert(one.last() == grid.slot_open(2 * count - 2));
        assert((2 * count - 1) / 2 == count - 1 && (2 * count - 1) % 2 == 1);
        assert((2 * count - 2) / 2 == count - 1 && (2 * count - 2) % 2 == 0);
        assert(count_true(two) == count_true(one) + if two.last() {
            1nat
        } else {
            0nat
        });
        assert(count_true(one) == count_true(none) + if one.last() {
            1nat
        } else {
            0nat
        });
    }
}

/// Of two rows of marks with equally many set, one of which has every mark
/// of the other, neither has a mark that the other lacks.
pub proof fn lemma_count_true_equal(fewer: Seq<bool>, more: Seq<bool>)
    requires
        fewer.len() == more.len(),
        forall|i: int| 0 <= i < fewer.len() && fewer[i] ==> more[i],
        count_true(fewer) >= count_true(more),
    ensures
        fewer =~= more,
    decreases fewer.len(),
{
    if fewer.len() > 0 {
        let fewer_front = fewer.drop_last();
        let more_front = more.drop_last();
        assert forall|i: int| 0 <= i < fewer_front.len() && fewer_front[i] implies more_front[i] by {
            assert(fewer[i]);
        }
        lemma_count_true_below(fewer_front, more_front);
        assert(fewer.last() ==> more.last()) by {
            assert(fewer[fewer.len() - 1] ==> more[fewer.len() - 1]);
        }
        lemma_count_true_equal(fewer_front, more_front);
        assert forall|i: int| 0 <= i < fewer.len() implies fewer[i] == more[i] by {
            if i < fewer.len() - 1 {
                assert(fewer_front[i] == more_front[i]);
            }
        }
    }
}

proof fn lemma_count_true_below(fewer: Seq<bool>, more: Seq<bool>)
    requires
        fewer.len() == more.len(),
        forall|i: int| 0 <= i < fewer.len() && fewer[i] ==> more[i],
    ensures
        count_true(fewer) <= count_true(more),
    decreases fewer.len(),
{
    if fewer.len() > 0 {
        let fewer_front = fewer.drop_last();
        let more_front = more.drop_last();
        assert forall|i: int| 0 <= i < fewer_front.len() && fewer_front[i] implies more_front[i] by {
            assert(fewer[i]);
        }
        lemma_count_true_below(fewer_front, more_front);
        assert(fewer.last() ==> more.last()) by {
            assert(fewer[fewer.len() - 1] ==> more[fewer.len() - 1]);
        }
    }
}

/// What a search that went from cell to cell along passages remembers: when
/// each cell was found, through which slot, and which slots were gone through.
pub struct Discovery {
    pub order: Seq<nat>,
    pub via: Seq<int>,
    pub used: Seq<bool>,
}

impl Discovery {
    /// When the cell at `at` was found.
    pub open spec fn found_at(self, grid: GridView, at: (int, int)) -> nat {
        self.order[grid.index(at)]
    }

    /// Through which slot the cell at `at` was found.
    pub open spec fn found_through(self, grid: GridView, at: (int, int)) -> int {
        self.via[grid.index(at)]
    }

    /// Every slot gone through holds a passage, and of the two cells that it
    /// joins, the one found later was found through it.
    pub open spec fn sound(self, grid: GridView) -> bool {
        &&& self.order.len() == grid.width * grid.height
        &&& self.via.len() == grid.width * grid.height
        &&& self.used.len() == 2 * (grid.width * grid.height)
        &&& forall|slot: int| 0 <= slot < self.used.len() && #[trigger] self.used[slot] ==> grid.slot_open(slot)
        &&& forall|a: (int, int), b: (int, int)|
            #[trigger] grid.linked(a, b) && self.used[grid.slot_between(a, b)] ==> {
                ||| self.found_through(grid, a) == grid.slot_between(a, b) && self.found_at(grid, b)
                    < self.found_at(grid, a)
                ||| self.found_through(grid, b) == grid.slot_between(a, b) && self.found_at(grid, a)
                    < self.found_at(grid, b)
            }
    }
}

impl Discovery {
    /// What is remembered once the cell `here` was found from the cell
    /// `from`, as the cell number `found`.
    pub open spec fn step(self, grid: GridView, from: (int, int), here: (int, int), found: nat) -> Discovery {
        Discovery {
            order: self.order.update(grid.index(here), found),
            via: self.via.update(grid.index(here), grid.slot_between(from, here)),
            used: self.used.update(grid.slot_between(from, here), true),
        }
    }

    /// Whether what is remembered fits the cells found so far, `found` in
    /// number: every slot gone through lies between two cells found, and each
    /// cell found has a number below `found`.
    pub open spec fn agrees(self, grid: GridView, marks: Seq<bool>, found: nat) -> bool {
        &&& self.sound(grid)
        &&& marks.len() == grid.width * grid.height
        &&& forall|a: (int, int), b: (int, int)|
            #[trigger] grid.linked(a, b) && self.used[grid.slot_between(a, b)] ==> marks[grid.index(
                a,
            )] && marks[grid.index(b)]
        &&& forall|at: (int, int)|
            grid.inside(at.0, at.1) && marks[#[trigger] grid.index(at)] ==> self.order[grid.index(
                at,
            )] < found
    }
}

/// Finding one more cell, from a cell found before, keeps what is remembered
/// in step with the cells found, and goes through a slot not gone through
/// before.
pub proof fn lemma_discovery_step(
    grid: GridView,
    marks: Seq<bool>,
    way: Discovery,
    found: nat,
    from: (int, int),
    here: (int, int),
)
    requires
        grid.wf(),
        way.agrees(grid, marks, found),
        grid.linked(from, here),
        marks[grid.index(from)],
        !marks[grid.index(here)],
    ensures
        0 <= grid.slot_between(from, here) < way.used.len(),
        !way.used[grid.slot_between(from, here)],
        way.step(grid, from, here, found).agrees(
            grid,
            marks.update(grid.index(here), true),
            found + 1,
        ),
{
    let slot = grid.slot_between(from, here);
    let after = way.step(grid, from, here, found);
    let marks_after = marks.update(grid.index(here), true);
    lemma_slot_between(grid, from, here);
    lemma_cell_index(grid.width, grid.height, here.0, here.1);
    lemma_cell_index(grid.width, grid.height, from.0, from.1);
    assert forall|a: (int, int), b: (int, int)|
        #[trigger] grid.linked(a, b) && after.used[grid.slot_between(a, b)] implies {
        &&& marks_after[grid.index(a)]
        &&& marks_after[grid.index(b)]
        &&& {
            ||| after.found_through(grid, a) == grid.slot_between(a, b) && after.found_at(grid, b)
                < after.found_at(grid, a)
            ||| after.found_through(grid, b) == grid.slot_between(a, b) && after.found_at(grid, a)
                < after.found_at(grid, b)
        }
    } by {
        lemma_slot_between(grid, a, b);
        lemma_cell_index(grid.width, grid.height, a.0, a.1);
        lemma_cell_index(grid.width, grid.height, b.0, b.1);
        if grid.slot_between(a, b) == slot {
            lemma_slot_names_its_cells(grid, from, here, a, b);
        } else {
            assert(way.used[grid.slot_between(a, b)]);
        }
    }
    assert forall|s: int| 0 <= s < after.used.len() && #[trigger] after.used[s] implies grid.slot_open(
        s,
    ) by {
        if s != slot {
            assert(way.used[s]);
        }
    }
    assert forall|at: (int, int)|
        grid.inside(at.0, at.1) && marks_after[#[trigger] grid.index(at)] implies after.order[grid.index(
            at,
        )] < found + 1 by {
        lemma_cell_index(grid.width, grid.height, at.0, at.1);
    }
}

/// Among the first `upto` cells of a run, one was not found before any other.
proof fn lemma_found_last(grid: GridView, discovery: Discovery, cells: Seq<(int, int)>, upto: int) -> (k: int)
    requires
        0 < upto <= cells.len(),
    ensures
        0 <= k < upto,
        forall|i: int|
            0 <= i < upto ==> discovery.found_at(grid, #[trigger] cells[i]) <= discovery.found_at(
                grid,
                cells[k],
            ),
    decreases upto,
{
    if upto == 1 {
        0
    } else {
        let before = lemma_found_last(grid, discovery, cells, upto - 1);
        if discovery.found_at(grid, cells[upto - 1]) >= discovery.found_at(grid, cells[before]) {
            upto - 1
        } else {
            before
        }
    }
}

/// Where a search has gone through as many slots as the maze has passages,
/// the maze has no loop.
pub proof fn lemma_discovery_excludes_cycles(grid: GridView, discovery: Discovery)
    requires
        grid.wf(),
        discovery.sound(grid),
        count_true(discovery.used) >= grid.passage_count(),
    ensures
        grid.acyclic(),
{
    lemma_slots_count_passages(grid);
    assert forall|i: int| 0 <= i < discovery.used.len() && discovery.used[i] implies grid.slots()[i] by {}
    lemma_count_true_equal(discovery.used, grid.slots());
    assert forall|cycle: Seq<(int, int)>| !#[trigger] grid.is_cycle(cycle) by {
        if grid.is_cycle(cycle) {
            let len = cycle.len() as int;
            let k = lemma_found_last(grid, discovery, cycle, len);
            let next = if k + 1 < len {
                k + 1
            } else {
                0
            };
            let prev = if k > 0 {
                k - 1
            } else {
                len - 1
            };
            let here = cycle[k];
            let after = cycle[next];
            let before = cycle[prev];
            assert(grid.linked(here, after)) by {
                if k + 1 < len {
                    assert(grid.linked(cycle[k], cycle[k + 1]));
                }
            }
            assert(grid.linked(here, before)) by {
                if k > 0 {
                    assert(grid.linked(cycle[k - 1], cycle[k - 1 + 1]));
                }
            }
            lemma_slot_between(grid, here, after);
            lemma_slot_between(grid, here, before);
            let slot_after = grid.slot_between(here, after);
            let slot_before = grid.slot_between(here, before);
            assert(discovery.used[slot_after]);
            assert(discovery.used[slot_before]);
            assert(discovery.found_at(grid, cycle[next]) <= discovery.found_at(grid, cycle[k]));
            assert(discovery.found_at(grid, cycle[prev]) <= discovery.found_at(grid, cycle[k]));
            assert(discovery.found_through(grid, here) == slot_after);
            assert(discovery.found_through(grid, here) == slot_before);
            lemma_slot_names_its_cells(grid, here, after, here, before);
            assert(after == before || (here == before && before == after));
            assert(next != prev && next != k && prev != k);
        }
    }
}

} // verus!
