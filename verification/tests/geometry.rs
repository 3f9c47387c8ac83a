use ozersk_gen::generator::generate;
use ozersk_gen::geometry::{
    combine_vec, generate_closing_brushes, generate_wall_left, generate_wall_top,
    generate_walls_left, generate_walls_top, synthesize, Brush, Point, Texture, SIZE_SEGMENT,
    WALL_THICKNESS,
};
use ozersk_gen::grid::{Cell, Direction, MazeGrid};

fn point(x: i64, y: i64, z: i64) -> Point {
    Point { x, y, z }
}

fn wall(first: Point, second: Point) -> Brush {
    Brush { first, second, texture: Texture::Wall }
}

fn uniform(width: u32, height: u32, cell: Cell) -> MazeGrid {
    MazeGrid::from_cells(width, height, vec![cell; (width * height) as usize]).unwrap()
}

#[test]
fn scale_and_thickness() {
    assert_eq!(SIZE_SEGMENT, 256);
    assert_eq!(WALL_THICKNESS, 5);
}

#[test]
fn cell_reports_its_passages() {
    let cell = Cell { north: true, east: false, south: true, west: false };
    assert!(cell.has_passage(Direction::North));
    assert!(!cell.has_passage(Direction::East));
    assert!(cell.has_passage(Direction::South));
    assert!(!cell.has_passage(Direction::West));
}

#[test]
fn north_wall_of_a_cell() {
    assert_eq!(generate_wall_top(0, 0), wall(point(0, 5, 0), point(256, -5, 256)));
    assert_eq!(generate_wall_top(3, 2), wall(point(768, 517, 0), point(1024, 507, 256)));
}

#[test]
fn west_wall_of_a_cell() {
    assert_eq!(generate_wall_left(0, 0), wall(point(5, 0, 0), point(-5, 256, 256)));
    assert_eq!(generate_wall_left(3, 2), wall(point(773, 512, 0), point(763, 768, 256)));
}

#[test]
fn walls_at_the_far_end_of_the_range() {
    let top = generate_wall_top(u32::MAX, u32::MAX);
    assert_eq!(top.first.x, 4294967295 * 256);
    assert_eq!(top.second.x, 4294967296 * 256);
    assert_eq!(top.first.y, 4294967295 * 256 + 5);
}

#[test]
fn closing_brushes_of_a_grid() {
    let brushes = generate_closing_brushes(30, 30);
    assert_eq!(
        brushes,
        vec![
            wall(point(0, 7685, 0), point(7680, 7675, 256)),
            wall(point(7685, 0, 0), point(7675, 7680, 256)),
            Brush {
                first: point(0, 0, 261),
                second: point(7680, 7680, 251),
                texture: Texture::Ceiling,
            },
            Brush { first: point(0, 0, 0), second: point(7680, 7680, -5), texture: Texture::Floor },
        ]
    );
}

#[test]
fn combine_keeps_the_order() {
    let a = generate_wall_top(0, 0);
    let b = generate_wall_top(1, 0);
    let c = generate_wall_left(0, 0);
    assert_eq!(combine_vec(vec![a, b], vec![c]), vec![a, b, c]);
    assert_eq!(combine_vec(vec![], vec![c]), vec![c]);
}

#[test]
fn row_walls_stand_where_there_is_no_passage() {
    let open = Cell { north: true, east: true, south: true, west: true };
    let closed = Cell { north: false, east: false, south: false, west: false };
    let north_only = Cell { north: true, east: false, south: false, west: false };
    let maze = MazeGrid::from_cells(3, 1, vec![closed, open, north_only]).unwrap();
    assert_eq!(generate_walls_top(0, &maze), vec![generate_wall_top(0, 0)]);
    assert_eq!(
        generate_walls_left(0, &maze),
        vec![generate_wall_left(0, 0), generate_wall_left(2, 0)]
    );
}

#[test]
fn fully_open_maze_has_only_the_closing_brushes() {
    let open = Cell { north: true, east: true, south: true, west: true };
    for (width, height) in [(1u32, 1u32), (4, 3), (30, 30)] {
        let maze = uniform(width, height, open);
        assert_eq!(synthesize(&maze), generate_closing_brushes(width, height));
        assert_eq!(synthesize(&maze).len(), 4);
    }
}

#[test]
fn fully_closed_maze_has_two_walls_per_cell() {
    let closed = Cell { north: false, east: false, south: false, west: false };
    let maze = uniform(3, 2, closed);
    let brushes = synthesize(&maze);
    assert_eq!(brushes.len(), 3 * 2 * 2 + 4);
    // Row by row: the north walls of the row, then its west walls.
    assert_eq!(brushes[0], generate_wall_top(0, 0));
    assert_eq!(brushes[2], generate_wall_top(2, 0));
    assert_eq!(brushes[3], generate_wall_left(0, 0));
    assert_eq!(brushes[6], generate_wall_top(0, 1));
    assert_eq!(brushes[11], generate_wall_left(2, 1));
    assert_eq!(brushes[12..], generate_closing_brushes(3, 2)[..]);
}

#[test]
fn empty_grid_has_only_the_closing_brushes() {
    let maze = MazeGrid::from_cells(0, 0, vec![]).unwrap();
    assert_eq!(synthesize(&maze), generate_closing_brushes(0, 0));
}

#[test]
fn two_by_one_maze_has_no_wall_between_its_cells() {
    let maze = generate(Some([0u8; 32]), 2, 1).unwrap();
    let brushes = synthesize(&maze);
    let mut expected = vec![generate_wall_top(0, 0), generate_wall_top(1, 0), generate_wall_left(0, 0)];
    expected.extend(generate_closing_brushes(2, 1));
    assert_eq!(brushes, expected);
    assert!(!brushes.contains(&generate_wall_left(1, 0)));
}

#[test]
fn generated_maze_has_a_wall_for_every_closed_side() {
    let maze = generate(Some([3u8; 32]), 6, 5).unwrap();
    let brushes = synthesize(&maze);
    let mut walls = 0;
    for y in 0..5 {
        for x in 0..6 {
            let cell = maze.get_field(x, y).unwrap();
            assert_eq!(brushes.contains(&generate_wall_top(x, y)), !cell.north);
            assert_eq!(brushes.contains(&generate_wall_left(x, y)), !cell.west);
            walls += usize::from(!cell.north) + usize::from(!cell.west);
        }
    }
    assert_eq!(brushes.len(), walls + 4);
    // 6 * 5 cells have 60 north and west sides, 29 of which hold a passage.
    assert_eq!(walls, 60 - 29);
}
