//! From a maze to the box volumes that make up its level.
//!
//! Every cell answers for the wall on its north side and the wall on its west
//! side, so a wall between two cells is built once: by the cell south or east
//! of it. Four more volumes close the level: the south border, the east
//! border, the ceiling and the floor.

use crate::grid::{MazeGrid, GridView};
use vstd::prelude::*;

verus! {

/// Side length of one cell, in level units.
pub const SIZE_SEGMENT: i64 = 256;

/// How far a wall reaches to either side of the edge it stands on.
pub const WALL_THICKNESS: i64 = 5;

/// The surface that a volume is drawn with.
#[derive(Debug, Clone, Copy, PartialEq, Eq, Structural)]
pub enum Texture {
    Wall,
    Floor,
    Ceiling,
}

/// A point in level space.
#[derive(Debug, Clone, Copy, PartialEq, Eq, Structural)]
pub struct Point {
    pub x: i64,
    pub y: i64,
    pub z: i64,
}

/// An axis-aligned box, given by two opposite corners, with its texture.
#[derive(Debug, Clone, Copy, PartialEq, Eq, Structural)]
pub struct Brush {
    pub first: Point,
    pub second: Point,
    pub texture: Texture,
}

/// The wall on the north side of the cell at column `ix`, row `iy`.
pub open spec fn wall_top(ix: int, iy: int) -> Brush {
    Brush {
        first: Point {
            x: (ix * SIZE_SEGMENT) as i64,
            y: (iy * SIZE_SEGMENT + WALL_THICKNESS) as i64,
            z: 0,
        },
        second: Point {
            x: ((ix + 1) * SIZE_SEGMENT) as i64,
            y: (iy * SIZE_SEGMENT - WALL_THICKNESS) as i64,
            z: SIZE_SEGMENT,
        },
        texture: Texture::Wall,
    }
}

/// The wall on the west side of the cell at column `ix`, row `iy`.
pub open spec fn wall_left(ix: int, iy: int) -> Brush {
    Brush {
        first: Point {
            x: (ix * SIZE_SEGMENT + WALL_THICKNESS) as i64,
            y: (iy * SIZE_SEGMENT) as i64,
            z: 0,
        },
        second: Point {
            x: (ix * SIZE_SEGMENT - WALL_THICKNESS) as i64,
            y: ((iy + 1) * SIZE_SEGMENT) as i64,
            z: SIZE_SEGMENT,
        },
        texture: Texture::Wall,
    }
}

/// The wall along the south side of a grid of `width` by `height` cells.
pub open spec fn bottom_border(width: int, height: int) -> Brush {
    Brush {
        first: Point { x: 0, y: (height * SIZE_SEGMENT + WALL_THICKNESS) as i64, z: 0 },
        second: Point {
            x: (width * SIZE_SEGMENT) as i64,
            y: (height * SIZE_SEGMENT - WALL_THICKNESS) as i64,
            z: SIZE_SEGMENT,
        },
        texture: Texture::Wall,
    }
}

/// The wall along the east side of a grid of `width` by `height` cells.
pub open spec fn right_border(width: int, height: int) -> Brush {
    Brush {
        first: Point { x: (width * SIZE_SEGMENT + WALL_THICKNESS) as i64, y: 0, z: 0 },
        second: Point {
            x: (width * SIZE_SEGMENT - WALL_THICKNESS) as i64,
            y: (height * SIZE_SEGMENT) as i64,
            z: SIZE_SEGMENT,
        },
        texture: Texture::Wall,
    }
}

/// The slab above a grid of `width` by `height` cells.
pub open spec fn ceiling(width: int, height: int) -> Brush {
    Brush {
        first: Point { x: 0, y: 0, z: (SIZE_SEGMENT + WALL_THICKNESS) as i64 },
        second: Point {
            x: (width * SIZE_SEGMENT) as i64,
            y: (height * SIZE_SEGMENT) as i64,
            z: (SIZE_SEGMENT - WALL_THICKNESS) as i64,
        },
        texture: Texture::Ceiling,
    }
}

/// The slab below a grid of `width` by `height` cells.
pub open spec fn floor(width: int, height: int) -> Brush {
    Brush {
        first: Point { x: 0, y: 0, z: 0 },
        second: Point {
            x: (width * SIZE_SEGMENT) as i64,
            y: (height * SIZE_SEGMENT) as i64,
            z: (-WALL_THICKNESS) as i64,
        },
        texture: Texture::Floor,
    }
}

/// The north walls of the first `columns` cells of row `iy`, west to east:
/// one for every cell without a passage to the north.
pub open spec fn top_walls(maze: GridView, iy: int, columns: nat) -> Seq<Brush>
    decreases columns,
{
    if columns == 0 {
        Seq::empty()
    } else {
        let before = top_walls(maze, iy, (columns - 1) as nat);
        if maze.cell(columns - 1, iy).north {
            before
        } else {
            before.push(wall_top(columns - 1, iy))
        }
    }
}

/// The west walls of the first `columns` cells of row `iy`, west to east: one
/// for every cell without a passage to the west.
pub open spec fn left_walls(maze: GridView, iy: int, columns: nat) -> Seq<Brush>
    decreases columns,
{
    if columns == 0 {
        Seq::empty()
    } else {
        let before = left_walls(maze, iy, (columns - 1) as nat);
        if maze.cell(columns - 1, iy).west {
            before
        } else {
            before.push(wall_left(columns - 1, iy))
        }
    }
}

/// The walls of row `iy`: its north walls, then its west walls.
pub open spec fn row_walls(maze: GridView, iy: int) -> Seq<Brush> {
    top_walls(maze, iy, maze.width) + left_walls(maze, iy, maze.width)
}

/// The walls of the first `rows` rows, north to south.
pub open spec fn cell_walls(maze: GridView, rows: nat) -> Seq<Brush>
    decreases rows,
{
    if rows == 0 {
        Seq::empty()
    } else {
        cell_walls(maze, (rows - 1) as nat) + row_walls(maze, rows - 1)
    }
}

/// The four volumes that close a level whatever its cells hold: south border,
/// east border, ceiling, floor.
pub open spec fn closing_brushes(width: int, height: int) -> Seq<Brush> {
    seq![
        bottom_border(width, height),
        right_border(width, height),
        ceiling(width, height),
        floor(width, height),
    ]
}

/// All volumes of a maze, in the order in which they are written.
pub open spec fn synthesized(maze: GridView) -> Seq<Brush> {
    cell_walls(maze, maze.height) + closing_brushes(maze.width as int, maze.height as int)
}

/// The wall on the north side of the cell at column `ix`, row `iy`.
pub fn generate_wall_top(ix: u32, iy: u32) -> (brush: Brush)
    ensures
        brush == wall_top(ix as int, iy as int),
{
    let x1: i64 = ix as i64 * SIZE_SEGMENT;
    let y1: i64 = iy as i64 * SIZE_SEGMENT;
    let x2: i64 = (ix as i64 + 1) * SIZE_SEGMENT;
    let y2: i64 = iy as i64 * SIZE_SEGMENT;
    Brush {
        first: Point { x: x1, y: y1 + WALL_THICKNESS, z: 0 },
        second: Point { x: x2, y: y2 - WALL_THICKNESS, z: SIZE_SEGMENT },
        texture: Texture::Wall,
    }
}

/// The wall on the west side of the cell at column `ix`, row `iy`.
pub fn generate_wall_left(ix: u32, iy: u32) -> (brush: Brush)
    ensures
        brush == wall_left(ix as int, iy as int),
{
    let x1: i64 = ix as i64 * SIZE_SEGMENT;
    let y1: i64 = iy as i64 * SIZE_SEGMENT;
    let x2: i64 = ix as i64 * SIZE_SEGMENT;
    let y2: i64 = (iy as i64 + 1) * SIZE_SEGMENT;
    Brush {
        first: Point { x: x1 + WALL_THICKNESS, y: y1, z: 0 },
        second: Point { x: x2 - WALL_THICKNESS, y: y2, z: SIZE_SEGMENT },
        texture: Texture::Wall,
    }
}

/// The north walls of row `iy`, west to east.
pub fn generate_walls_top(iy: u32, maze: &MazeGrid) -> (walls: Vec<Brush>)
    requires
        iy < maze@.height,
    ensures
        walls@ == top_walls(maze@, iy as int, maze@.width),
{
    let width = maze.width();
    let mut walls: Vec<Brush> = Vec::new();
    let mut ix: u32 = 0;
    while ix < width
        invariant
            ix <= width,
            width == maze@.width,
            iy < maze@.height,
            walls@ == top_walls(maze@, iy as int, ix as nat),
        decreases width - ix,
    {
        match maze.get_field(ix, iy) {
            Some(field) => {
                if !field.north {
                    walls.push(generate_wall_top(ix, iy));
                }
            },
            None => {},
        }
        ix = ix + 1;
    }
    walls
}

/// The west walls of row `iy`, west to east.
pub fn generate_walls_left(iy: u32, maze: &MazeGrid) -> (walls: Vec<Brush>)
    requires
        iy < maze@.height,
    ensures
        walls@ == left_walls(maze@, iy as int, maze@.width),
{
    let width = maze.width();
    let mut walls: Vec<Brush> = Vec::new();
    let mut ix: u32 = 0;
    while ix < width
        invariant
            ix <= width,
            width == maze@.width,
            iy < maze@.height,
            walls@ == left_walls(maze@, iy as int, ix as nat),
        decreases width - ix,
    {
        match maze.get_field(ix, iy) {
            Some(field) => {
                if !field.west {
                    walls.push(generate_wall_left(ix, iy));
                }
            },
            None => {},
        }
        ix = ix + 1;
    }
    walls
}

/// One sequence out of two: `vec1`, then `vec2`.
pub fn combine_vec(vec1: Vec<Brush>, vec2: Vec<Brush>) -> (both: Vec<Brush>)
    ensures
        both@ == vec1@ + vec2@,
{
    let mut both = vec1;
    let mut rest = vec2;
    both.append(&mut rest);
    both
}

/// The four closing volumes of a grid of `width` by `height` cells.
pub fn generate_closing_brushes(width: u32, height: u32) -> (brushes: Vec<Brush>)
    ensures
        brushes@ == closing_brushes(width as int, height as int),
{
    let x2: i64 = width as i64 * SIZE_SEGMENT;
    let y2: i64 = height as i64 * SIZE_SEGMENT;
    let mut brushes: Vec<Brush> = Vec::new();
    brushes.push(
        Brush {
            first: Point { x: 0, y: y2 + WALL_THICKNESS, z: 0 },
            second: Point { x: x2, y: y2 - WALL_THICKNESS, z: SIZE_SEGMENT },
            texture: Texture::Wall,
        },
    );
    brushes.push(
        Brush {
            first: Point { x: x2 + WALL_THICKNESS, y: 0, z: 0 },
            second: Point { x: x2 - WALL_THICKNESS, y: y2, z: SIZE_SEGMENT },
            texture: Texture::Wall,
        },
    );
    brushes.push(
        Brush {
            first: Point { x: 0, y: 0, z: SIZE_SEGMENT + WALL_THICKNESS },
            second: Point { x: x2, y: y2, z: SIZE_SEGMENT - WALL_THICKNESS },
            texture: Texture::Ceiling,
        },
    );
    brushes.push(
        Brush {
            first: Point { x: 0, y: 0, z: 0 },
            second: Point { x: x2, y: y2, z: -WALL_THICKNESS },
            texture: Texture::Floor,
        },
    );
    assert(brushes@ =~= closing_brushes(width as int, height as int));
    brushes
}

/// All volumes of a maze: the walls of its cells row by row, then the four
/// closing volumes.
pub fn synthesize(maze: &MazeGrid) -> (brushes: Vec<Brush>)
    ensures
        brushes@ == synthesized(maze@),
{
    let width = maze.width();
    let height = maze.height();
    let mut brushes: Vec<Brush> = Vec::new();
    let mut iy: u32 = 0;
    while iy < height
        invariant
            iy <= height,
            height == maze@.height,
            brushes@ == cell_walls(maze@, iy as nat),
        decreases height - iy,
    {
        let row = combine_vec(generate_walls_top(iy, maze), generate_walls_left(iy, maze));
        brushes = combine_vec(brushes, row);
        iy = iy + 1;
    }
    combine_vec(brushes, generate_closing_brushes(width, height))
}

/// In a maze whose cells all have a passage to the north and to the west,
/// no cell gets a wall: the level consists of the four closing volumes.
pub proof fn lemma_open_maze_has_closing_brushes_only(maze: GridView)
    requires
        forall|x: int, y: int| #[trigger]
            maze.inside(x, y) ==> maze.cell(x, y).north && maze.cell(x, y).west,
    ensures
        synthesized(maze) == closing_brushes(maze.width as int, maze.height as int),
{
    lemma_open_rows_have_no_walls(maze, maze.height);
    assert(synthesized(maze) =~= closing_brushes(maze.width as int, maze.height as int));
}

proof fn lemma_open_rows_have_no_walls(maze: GridView, rows: nat)
    requires
        rows <= maze.height,
        forall|x: int, y: int| #[trigger]
            maze.inside(x, y) ==> maze.cell(x, y).north && maze.cell(x, y).west,
    ensures
        cell_walls(maze, rows) == Seq::<Brush>::empty(),
    decreases rows,
{
    if rows > 0 {
        lemma_open_rows_have_no_walls(maze, (rows - 1) as nat);
        lemma_open_row_has_no_walls(maze, rows - 1, maze.width);
        assert(cell_walls(maze, rows) =~= Seq::<Brush>::empty());
    }
}

proof fn lemma_open_row_has_no_walls(maze: GridView, iy: int, columns: nat)
    requires
        0 <= iy < maze.height,
        columns <= maze.width,
        forall|x: int, y: int| #[trigger]
            maze.inside(x, y) ==> maze.cell(x, y).north && maze.cell(x, y).west,
    ensures
        top_walls(maze, iy, columns) == Seq::<Brush>::empty(),
        left_walls(maze, iy, columns) == Seq::<Brush>::empty(),
    decreases columns,
{
    if columns > 0 {
        lemma_open_row_has_no_walls(maze, iy, (columns - 1) as nat);
        assert(maze.inside(columns - 1, iy));
    }
}

/// Which walls stand in the first `columns` cells of a row: the north wall
/// of a cell exactly where the cell has no passage to the north, the west
/// wall exactly where it has none to the west.
proof fn lemma_row_walls(maze: GridView, iy: int, columns: nat, x: int, y: int)
    requires
        0 <= iy <= u32::MAX,
        columns <= u32::MAX,
        0 <= x <= u32::MAX,
        0 <= y <= u32::MAX,
    ensures
        top_walls(maze, iy, columns).contains(wall_top(x, y)) <==> y == iy && x < columns
            && !maze.cell(x, y).north,
        left_walls(maze, iy, columns).contains(wall_left(x, y)) <==> y == iy && x < columns
            && !maze.cell(x, y).west,
        !top_walls(maze, iy, columns).contains(wall_left(x, y)),
        !left_walls(maze, iy, columns).contains(wall_top(x, y)),
    decreases columns,
{
    if columns > 0 {
        let last = columns - 1;
        lemma_row_walls(maze, iy, last as nat, x, y);
        lemma_walls_differ(last, iy, x, y);
        let top_before = top_walls(maze, iy, last as nat);
        let left_before = left_walls(maze, iy, last as nat);
        if !maze.cell(last, iy).north {
            lemma_push_contains(top_before, wall_top(last, iy), wall_top(x, y));
            lemma_push_contains(top_before, wall_top(last, iy), wall_left(x, y));
        }
        if !maze.cell(last, iy).west {
            lemma_push_contains(left_before, wall_left(last, iy), wall_left(x, y));
            lemma_push_contains(left_before, wall_left(last, iy), wall_top(x, y));
        }
    }
}

/// Walls of different cells, and the north wall and the west wall of any two
/// cells, are different volumes.
proof fn lemma_walls_differ(ax: int, ay: int, bx: int, by: int)
    requires
        0 <= ax <= u32::MAX,
        0 <= ay <= u32::MAX,
        0 <= bx <= u32::MAX,
        0 <= by <= u32::MAX,
    ensures
        wall_top(ax, ay) == wall_top(bx, by) <==> ax == bx && ay == by,
        wall_left(ax, ay) == wall_left(bx, by) <==> ax == bx && ay == by,
        wall_top(ax, ay) != wall_left(bx, by),
{
}

proof fn lemma_push_contains(brushes: Seq<Brush>, last: Brush, brush: Brush)
    ensures
        brushes.push(last).contains(brush) <==> brushes.contains(brush) || last == brush,
{
    let longer = brushes.push(last);
    if brushes.contains(brush) {
        let i = choose|i: int| 0 <= i < brushes.len() && brushes[i] == brush;
        assert(longer[i] == brush);
    }
    if last == brush {
        assert(longer[brushes.len() as int] == brush);
    }
}

proof fn lemma_add_contains(front: Seq<Brush>, back: Seq<Brush>, brush: Brush)
    ensures
        (front + back).contains(brush) <==> front.contains(brush) || back.contains(brush),
{
    let both = front + back;
    if front.contains(brush) {
        let i = choose|i: int| 0 <= i < front.len() && front[i] == brush;
        assert(both[i] == brush);
    }
    if back.contains(brush) {
        let i = choose|i: int| 0 <= i < back.len() && back[i] == brush;
        assert(both[front.len() + i] == brush);
    }
    if both.contains(brush) {
        let i = choose|i: int| 0 <= i < both.len() && both[i] == brush;
        if i < front.len() {
            assert(front[i] == brush);
        } else {
            assert(back[i - front.len()] == brush);
        }
    }
}

proof fn lemma_rows_walls(maze: GridView, rows: nat, x: int, y: int)
    requires
        maze.wf(),
        rows <= maze.height,
        0 <= x < maze.width,
        0 <= y <= u32::MAX,
    ensures
        cell_walls(maze, rows).contains(wall_top(x, y)) <==> y < rows && !maze.cell(x, y).north,
        cell_walls(maze, rows).contains(wall_left(x, y)) <==> y < rows && !maze.cell(x, y).west,
    decreases rows,
{
    if rows > 0 {
        let iy = rows - 1;
        lemma_rows_walls(maze, iy as nat, x, y);
        lemma_row_walls(maze, iy, maze.width, x, y);
        let before = cell_walls(maze, iy as nat);
        let top = top_walls(maze, iy, maze.width);
        let left = left_walls(maze, iy, maze.width);
        lemma_add_contains(top, left, wall_top(x, y));
        lemma_add_contains(top, left, wall_left(x, y));
        lemma_add_contains(before, top + left, wall_top(x, y));
        lemma_add_contains(before, top + left, wall_left(x, y));
    }
}

/// A wall stands on the north side of a cell exactly where the cell has no
/// passage to the north, and on its west side exactly where it has none to
/// the west.
pub proof fn lemma_wall_where_no_passage(maze: GridView, x: int, y: int)
    requires
        maze.wf(),
        maze.inside(x, y),
    ensures
        synthesized(maze).contains(wall_top(x, y)) <==> !maze.cell(x, y).north,
        synthesized(maze).contains(wall_left(x, y)) <==> !maze.cell(x, y).west,
{
    let walls = cell_walls(maze, maze.height);
    let closing = closing_brushes(maze.width as int, maze.height as int);
    lemma_rows_walls(maze, maze.height, x, y);
    lemma_add_contains(walls, closing, wall_top(x, y));
    lemma_add_contains(walls, closing, wall_left(x, y));
    assert(!closing.contains(wall_top(x, y))) by {
        if closing.contains(wall_top(x, y)) {
            let i = choose|i: int| 0 <= i < closing.len() && closing[i] == wall_top(x, y);
            assert(i == 0 || i == 1 || i == 2 || i == 3);
        }
    }
    assert(!closing.contains(wall_left(x, y))) by {
        if closing.contains(wall_left(x, y)) {
            let i = choose|i: int| 0 <= i < closing.len() && closing[i] == wall_left(x, y);
            assert(i == 0 || i == 1 || i == 2 || i == 3);
        }
    }
}

} // verus!
