//! The maze as a grid of cells, each with a passage or a wall on its four
//! sides.
//!
//! Columns are numbered from the west and rows from the north, both from zero;
//! the cells are held row by row.

use vstd::prelude::*;

verus! {

/// The four sides of a cell.
#[derive(Debug, Clone, Copy, PartialEq, Eq, Structural)]
pub enum Direction {
    /// Towards row `y - 1`.
    North,
    /// Towards column `x + 1`.
    East,
    /// Towards row `y + 1`.
    South,
    /// Towards column `x - 1`.
    West,
}

/// The passages of one cell: `true` where the side is open.
#[derive(Debug, Clone, Copy, PartialEq, Eq, Structural)]
pub struct Cell {
    pub north: bool,
    pub east: bool,
    pub south: bool,
    pub west: bool,
}

impl Cell {
    /// Whether the side towards `direction` is open.
    pub open spec fn passage(self, direction: Direction) -> bool {
        match direction {
            Direction::North => self.north,
            Direction::East => self.east,
            Direction::South => self.south,
            Direction::West => self.west,
        }
    }

    /// Whether the side towards `direction` is open.
    pub fn has_passage(&self, direction: Direction) -> (open: bool)
        ensures
            open == self.passage(direction),
    {
        match direction {
            Direction::North => self.north,
            Direction::East => self.east,
            Direction::South => self.south,
            Direction::West => self.west,
        }
    }
}

/// The mathematical content of a maze: its size and its cells, row by row.
pub struct GridView {
    pub width: nat,
    pub height: nat,
    pub cells: Seq<Cell>,
}

impl GridView {
    /// There is exactly one cell for every position, and each side length fits
    /// in 32 bits.
    pub open spec fn wf(self) -> bool {
        &&& self.width <= u32::MAX
        &&& self.height <= u32::MAX
        &&& self.cells.len() == self.width * self.height
    }

    /// Whether column `x`, row `y` lies in the grid.
    pub open spec fn inside(self, x: int, y: int) -> bool {
        0 <= x < self.width && 0 <= y < self.height
    }

    /// The cell at column `x`, row `y`.
    pub open spec fn cell(self, x: int, y: int) -> Cell {
        self.cells[y * self.width + x]
    }
}

/// For a position in the grid, `y * width + x` is an index into the cells,
/// and the position can be read back from it.
pub proof fn lemma_cell_index(width: nat, height: nat, x: int, y: int)
    requires
        0 <= x < width,
        0 <= y < height,
    ensures
        0 <= y * width + x < width * height,
        (y * width + x) % (width as int) == x,
        (y * width + x) / (width as int) == y,
{
    let w = width as int;
    let h = height as int;
    assert(y * w + x < h * w && y * w >= 0) by (nonlinear_arith)
        requires
            0 <= x < w,
            0 <= y < h,
    ;
    assert(h * w == w * h) by (nonlinear_arith);
    vstd::arithmetic::div_mod::lemma_fundamental_div_mod_converse(y * w + x, w, y, x);
}

/// A maze: a grid of `width` by `height` cells.
pub struct MazeGrid {
    width: u32,
    height: u32,
    cells: Vec<Cell>,
}

impl View for MazeGrid {
    type V = GridView;

    closed spec fn view(&self) -> GridView {
        GridView { width: self.width as nat, height: self.height as nat, cells: self.cells@ }
    }
}

impl MazeGrid {
    /// Every maze has one cell for every position of its grid.
    #[verifier::type_invariant]
    pub open spec fn well_formed(self) -> bool {
        self@.wf()
    }

    /// A maze of the given size from its cells, row by row. There is none
    /// unless the number of cells is `width * height`.
    pub fn from_cells(width: u32, height: u32, cells: Vec<Cell>) -> (maze: Option<MazeGrid>)
        ensures
            match maze {
                Some(maze) => maze@ == (GridView {
                    width: width as nat,
                    height: height as nat,
                    cells: cells@,
                }) && maze@.wf(),
                None => cells@.len() != width * height,
            },
    {
        assert(width * height <= u64::MAX) by (nonlinear_arith)
            requires
                width <= u32::MAX,
                height <= u32::MAX,
        ;
        let count: u64 = (width as u64) * (height as u64);
        if cells.len() as u64 == count {
            Some(MazeGrid { width, height, cells })
        } else {
            None
        }
    }

    /// Number of columns.
    pub fn width(&self) -> (width: u32)
        ensures
            width == self@.width,
    {
        self.width
    }

    /// Number of rows.
    pub fn height(&self) -> (height: u32)
        ensures
            height == self@.height,
    {
        self.height
    }

    /// Number of cells.
    pub fn cell_count(&self) -> (count: usize)
        ensures
            count == self@.width * self@.height,
            self@.wf(),
    {
        proof {
            use_type_invariant(self);
        }
        self.cells.len()
    }

    /// The cell at column `x`, row `y`, or nothing outside the grid.
    pub fn get_field(&self, x: u32, y: u32) -> (field: Option<Cell>)
        ensures
            field == if self@.inside(x as int, y as int) {
                Some(self@.cell(x as int, y as int))
            } else {
                None
            },
    {
        proof {
            use_type_invariant(self);
        }
        if x < self.width && y < self.height {
            proof {
                lemma_cell_index(self@.width, self@.height, x as int, y as int);
                assert(0 <= y * self.width <= y * self.width + x < self.cells.len());
            }
            let index: usize = (y as usize) * (self.width as usize) + (x as usize);
            Some(self.cells[index])
        } else {
            None
        }
    }
}

} // verus!
