//! Growing a maze from a seed with Eller's algorithm, row by row.
//!
//! The algorithm itself is `maze_generator`'s. What it hands back is read cell
//! by cell into a `MazeGrid`.

use crate::grid::{lemma_cell_index, Cell, GridView, MazeGrid};
use crate::tree::is_spanning_tree;
use maze_generator::ellers_algorithm::EllersGenerator;
use maze_generator::prelude::{Coordinates, Generator};
use vstd::prelude::*;

verus! {

#[verifier::external_type_specification]
#[verifier::external_body]
pub struct ExMaze(maze_generator::prelude::Maze);

/// The fields that a maze of `maze_generator` holds: for every position of
/// its grid, the passages of the field there.
pub uninterp spec fn outside_fields(maze: maze_generator::prelude::Maze) -> Map<(int, int), Cell>;

/// The fields of the maze that Eller's algorithm grows from a seed, or nothing
/// where it gives up.
pub uninterp spec fn ellers_fields(seed: Seq<u8>, width: int, height: int) -> Option<
    Map<(int, int), Cell>,
>;

/// The positions of a grid of `width` by `height` cells.
pub open spec fn positions(width: int, height: int) -> Set<(int, int)> {
    Set::new(|at: (int, int)| 0 <= at.0 < width && 0 <= at.1 < height)
}

/// `EllersGenerator::new` and then `Generator::generate`. The maze that comes
/// back has a field at every position of the grid that was asked for and
/// nowhere else. With a seed, its fields are a function of the seed and the
/// size; without one, the generator draws from the system's entropy.
#[verifier::external_body]
fn ellers_maze(seed: Option<[u8; 32]>, width: i32, height: i32) -> (maze: Option<
    maze_generator::prelude::Maze,
>)
    requires
        0 < width,
        0 < height,
        width * height <= i32::MAX,
    ensures
        maze matches Some(m) ==> outside_fields(m).dom() == positions(width as int, height as int),
        seed matches Some(s) ==> match maze {
            Some(m) => ellers_fields(s@, width as int, height as int) == Some(outside_fields(m)),
            None => ellers_fields(s@, width as int, height as int) is None,
        },
{
    EllersGenerator::new(seed).generate(width, height).ok()
}

/// `Maze::get_field` and, on the field, `Field::has_passage` for each of the
/// four directions. There is a field exactly at the positions of the grid.
#[verifier::external_body]
fn field_at(maze: &maze_generator::prelude::Maze, x: i32, y: i32) -> (field: Option<Cell>)
    ensures
        field == if outside_fields(*maze).dom().contains((x as int, y as int)) {
            Some(outside_fields(*maze)[(x as int, y as int)])
        } else {
            None
        },
{
    let field = maze.get_field(&Coordinates::new(x, y))?;
    Some(
        Cell {
            north: field.has_passage(&maze_generator::prelude::Direction::North),
            east: field.has_passage(&maze_generator::prelude::Direction::East),
            south: field.has_passage(&maze_generator::prelude::Direction::South),
            west: field.has_passage(&maze_generator::prelude::Direction::West),
        },
    )
}

/// The fields of a grid as cells, row by row.
pub open spec fn cells_of(fields: Map<(int, int), Cell>, width: nat, height: nat) -> Seq<Cell> {
    Seq::new(width * height, |i: int| fields[(i % (width as int), i / (width as int))])
}

/// Reads every field of a maze of `maze_generator`, row by row.
fn read_fields(maze: &maze_generator::prelude::Maze, width: i32, height: i32) -> (cells: Vec<Cell>)
    requires
        0 < width,
        0 < height,
        width * height <= i32::MAX,
        outside_fields(*maze).dom() == positions(width as int, height as int),
    ensures
        cells@ == cells_of(outside_fields(*maze), width as nat, height as nat),
{
    let mut cells: Vec<Cell> = Vec::new();
    let mut x: i32 = 0;
    let mut y: i32 = 0;
    let ghost fields = outside_fields(*maze);
    while y < height
        invariant
            0 < width,
            0 < height,
            width * height <= i32::MAX,
            fields == outside_fields(*maze),
            fields.dom() == positions(width as int, height as int),
            0 <= x < width,
            0 <= y <= height,
            y == height ==> x == 0,
            cells.len() == y * width + x,
            forall|i: int|
                0 <= i < cells.len() ==> #[trigger] cells[i] == fields[(
                    i % (width as int),
                    i / (width as int),
                )],
        decreases (height - y) * width - x,
    {
        proof {
            lemma_cell_index(width as nat, height as nat, x as int, y as int);
            assert(positions(width as int, height as int).contains((x as int, y as int)));
        }
        if let Some(cell) = field_at(maze, x, y) {
            cells.push(cell);
        }
        proof {
            assert((height - y) * width - x - 1 >= 0) by (nonlinear_arith)
                requires
                    0 <= x < width,
                    y < height,
            ;
            assert((height - (y + 1)) * width == (height - y) * width - width)
                by (nonlinear_arith);
            assert((y + 1) * width == y * width + width) by (nonlinear_arith);
        }
        if x + 1 < width {
            x = x + 1;
        } else {
            x = 0;
            y = y + 1;
        }
    }
    proof {
        assert(height * width == width * height) by (nonlinear_arith);
        assert(cells@ =~= cells_of(fields, width as nat, height as nat));
    }
    cells
}

/// Why no maze was generated.
#[derive(Debug, Clone, Copy, PartialEq, Eq, Structural)]
pub enum GenerateError {
    /// The width or the height is zero.
    EmptyGrid,
    /// The grid has more cells than the generator counts.
    TooLarge,
    /// The generator gave up.
    Generator,
    /// What the generator handed back is no spanning tree of the grid.
    NotSpanningTree,
}

/// Most cells that the generator can be asked for.
pub const MAX_CELLS: u64 = 0x7fff_ffff;

/// What becomes of the cells that the generator handed back, if it handed
/// any back: they make a maze where there is one for every position and their
/// passages form a spanning tree.
pub open spec fn accept_spec(width: nat, height: nat, cells: Option<Seq<Cell>>) -> Result<
    GridView,
    GenerateError,
> {
    match cells {
        None => Err(GenerateError::Generator),
        Some(cells) => {
            let grid = GridView { width, height, cells };
            if cells.len() != width * height {
                Err(GenerateError::Generator)
            } else if grid.is_spanning_tree() {
                Ok(grid)
            } else {
                Err(GenerateError::NotSpanningTree)
            }
        },
    }
}

/// What `generate` returns for a seed and a size.
pub open spec fn generate_spec(seed: Seq<u8>, width: nat, height: nat) -> Result<
    GridView,
    GenerateError,
> {
    if width == 0 || height == 0 {
        Err(GenerateError::EmptyGrid)
    } else if width * height > MAX_CELLS {
        Err(GenerateError::TooLarge)
    } else {
        accept_spec(
            width,
            height,
            match ellers_fields(seed, width as int, height as int) {
                None => None,
                Some(fields) => Some(cells_of(fields, width, height)),
            },
        )
    }
}

/// Makes a maze of the cells that a generator handed back, row by row, and
/// checks it: a maze that comes out of here is a spanning tree of its grid.
pub fn accept(width: u32, height: u32, cells: Option<Vec<Cell>>) -> (r: Result<
    MazeGrid,
    GenerateError,
>)
    ensures
        match r {
            Ok(maze) => accept_spec(
                width as nat,
                height as nat,
                match cells {
                    Some(cells) => Some(cells@),
                    None => None,
                },
            ) == Ok::<GridView, GenerateError>(maze@) && maze@.wf(),
            Err(e) => accept_spec(
                width as nat,
                height as nat,
                match cells {
                    Some(cells) => Some(cells@),
                    None => None,
                },
            ) == Err::<GridView, GenerateError>(e),
        },
{
    match cells {
        None => Err(GenerateError::Generator),
        Some(cells) => match MazeGrid::from_cells(width, height, cells) {
            None => Err(GenerateError::Generator),
            Some(maze) => {
                if is_spanning_tree(&maze) {
                    Ok(maze)
                } else {
                    Err(GenerateError::NotSpanningTree)
                }
            },
        },
    }
}

/// Generates a maze of `width` by `height` cells: from the seed where there is
/// one, and the same maze every time; at random where there is none. Whatever
/// the generator hands back is checked, so a maze that comes out of here is a
/// spanning tree of its grid.
pub fn generate(seed: Option<[u8; 32]>, width: u32, height: u32) -> (r: Result<MazeGrid, GenerateError>)
    ensures
        width == 0 || height == 0 ==> r == Err::<MazeGrid, GenerateError>(GenerateError::EmptyGrid),
        width > 0 && height > 0 && width * height > MAX_CELLS ==> r == Err::<MazeGrid, GenerateError>(
            GenerateError::TooLarge,
        ),
        r matches Ok(maze) ==> {
            &&& maze@.wf()
            &&& maze@.width == width
            &&& maze@.height == height
            &&& maze@.is_spanning_tree()
        },
        r matches Err(e) ==> {
            &&& e == GenerateError::EmptyGrid <==> width == 0 || height == 0
            &&& e == GenerateError::TooLarge <==> width > 0 && height > 0 && width * height
                > MAX_CELLS
        },
        seed matches Some(s) ==> match r {
            Ok(maze) => generate_spec(s@, width as nat, height as nat) == Ok::<
                GridView,
                GenerateError,
            >(maze@),
            Err(e) => generate_spec(s@, width as nat, height as nat) == Err::<
                GridView,
                GenerateError,
            >(e),
        },
{
    if width == 0 || height == 0 {
        return Err(GenerateError::EmptyGrid);
    }
    assert(width * height <= u64::MAX) by (nonlinear_arith)
        requires
            width <= u32::MAX,
            height <= u32::MAX,
    ;
    if (width as u64) * (height as u64) > MAX_CELLS {
        return Err(GenerateError::TooLarge);
    }
    assert(width <= MAX_CELLS && height <= MAX_CELLS) by (nonlinear_arith)
        requires
            width > 0,
            height > 0,
            width * height <= MAX_CELLS,
    ;
    let cells = match ellers_maze(seed, width as i32, height as i32) {
        None => None,
        Some(outside) => Some(read_fields(&outside, width as i32, height as i32)),
    };
    accept(width, height, cells)
}

} // verus!
