use ozersk_gen::generator::{accept, generate, GenerateError};
use ozersk_gen::grid::{Cell, MazeGrid};
use ozersk_gen::tree::{count_passages, is_connected, is_spanning_tree, is_symmetric};

fn cell(north: bool, east: bool, south: bool, west: bool) -> Cell {
    Cell { north, east, south, west }
}

#[test]
fn two_by_one_joins_its_two_cells() {
    let maze = generate(Some([0u8; 32]), 2, 1).unwrap();
    assert_eq!(maze.width(), 2);
    assert_eq!(maze.height(), 1);
    let west = maze.get_field(0, 0).unwrap();
    let east = maze.get_field(1, 0).unwrap();
    assert!(west.east);
    assert!(east.west);
    assert!(!west.north && !west.west && !east.north && !east.east);
    assert_eq!(count_passages(&maze), 1);
    assert!(is_spanning_tree(&maze));
}

#[test]
fn generation_is_deterministic() {
    let seed = Some([9u8; 32]);
    let first = generate(seed, 7, 5).unwrap();
    let second = generate(seed, 7, 5).unwrap();
    for y in 0..5 {
        for x in 0..7 {
            assert_eq!(first.get_field(x, y), second.get_field(x, y));
        }
    }
}

#[test]
fn generated_mazes_are_spanning_trees() {
    for (seed, width, height) in [(1u8, 1u32, 1u32), (2, 1, 6), (3, 6, 1), (4, 5, 4), (5, 30, 30)] {
        let maze = generate(Some([seed; 32]), width, height).unwrap();
        assert!(is_symmetric(&maze));
        assert!(is_connected(&maze));
        assert_eq!(count_passages(&maze), (width * height - 1) as u128);
    }
}

#[test]
fn unseeded_generation_gives_a_spanning_tree() {
    let maze = generate(None, 6, 6).unwrap();
    assert!(is_spanning_tree(&maze));
}

#[test]
fn empty_grids_are_refused() {
    assert_eq!(generate(Some([0u8; 32]), 0, 3).err(), Some(GenerateError::EmptyGrid));
    assert_eq!(generate(Some([0u8; 32]), 3, 0).err(), Some(GenerateError::EmptyGrid));
    assert_eq!(generate(None, 0, 0).err(), Some(GenerateError::EmptyGrid));
}

#[test]
fn oversized_grids_are_refused() {
    assert_eq!(generate(Some([0u8; 32]), 65536, 32768).err(), Some(GenerateError::TooLarge));
    assert_eq!(generate(None, u32::MAX, u32::MAX).err(), Some(GenerateError::TooLarge));
}

#[test]
fn from_cells_wants_one_cell_per_position() {
    let closed = cell(false, false, false, false);
    assert!(MazeGrid::from_cells(2, 2, vec![closed; 4]).is_some());
    assert!(MazeGrid::from_cells(2, 2, vec![closed; 3]).is_none());
    assert!(MazeGrid::from_cells(0, 5, vec![]).is_some());
}

#[test]
fn get_field_is_row_by_row() {
    let cells = vec![
        cell(true, false, false, false),
        cell(false, true, false, false),
        cell(false, false, true, false),
        cell(false, false, false, true),
        cell(true, true, false, false),
        cell(false, false, true, true),
    ];
    let maze = MazeGrid::from_cells(3, 2, cells.clone()).unwrap();
    assert_eq!(maze.get_field(0, 0), Some(cells[0]));
    assert_eq!(maze.get_field(2, 0), Some(cells[2]));
    assert_eq!(maze.get_field(0, 1), Some(cells[3]));
    assert_eq!(maze.get_field(2, 1), Some(cells[5]));
    assert_eq!(maze.get_field(3, 0), None);
    assert_eq!(maze.get_field(0, 2), None);
}

#[test]
fn a_loop_is_no_spanning_tree() {
    // 2 x 2, all four inner edges open: joined, but with one passage too many.
    let cells = vec![
        cell(false, true, true, false),
        cell(false, false, true, true),
        cell(true, true, false, false),
        cell(true, false, false, true),
    ];
    let maze = MazeGrid::from_cells(2, 2, cells).unwrap();
    assert!(is_symmetric(&maze));
    assert!(is_connected(&maze));
    assert_eq!(count_passages(&maze), 4);
    assert!(!is_spanning_tree(&maze));
}

#[test]
fn a_cut_off_cell_is_no_spanning_tree() {
    // 2 x 2 with the south-east cell walled in.
    let cells = vec![
        cell(false, true, true, false),
        cell(false, false, false, true),
        cell(true, false, false, false),
        cell(false, false, false, false),
    ];
    let maze = MazeGrid::from_cells(2, 2, cells).unwrap();
    assert!(is_symmetric(&maze));
    assert!(!is_connected(&maze));
    assert_eq!(count_passages(&maze), 2);
    assert!(!is_spanning_tree(&maze));
}

#[test]
fn one_sided_passages_are_not_symmetric() {
    let cells = vec![cell(false, true, false, false), cell(false, false, false, false)];
    let maze = MazeGrid::from_cells(2, 1, cells).unwrap();
    assert!(!is_symmetric(&maze));
    assert!(!is_spanning_tree(&maze));
}

#[test]
fn accepted_cells_make_the_maze() {
    let cells = vec![cell(false, true, false, false), cell(false, false, false, true)];
    let maze = accept(2, 1, Some(cells.clone())).unwrap();
    assert_eq!((maze.width(), maze.height()), (2, 1));
    assert_eq!(maze.get_field(0, 0), Some(cells[0]));
    assert_eq!(maze.get_field(1, 0), Some(cells[1]));
}

#[test]
fn passages_that_leave_the_grid_are_not_counted() {
    // One cell, open to the south: there is no cell south of it.
    let maze = accept(1, 1, Some(vec![cell(false, false, true, false)])).unwrap();
    assert_eq!(count_passages(&maze), 0);
}

#[test]
fn cells_that_are_no_spanning_tree_are_refused() {
    let looped = vec![
        cell(false, true, true, false),
        cell(false, false, true, true),
        cell(true, true, false, false),
        cell(true, false, false, true),
    ];
    assert_eq!(accept(2, 2, Some(looped)).err(), Some(GenerateError::NotSpanningTree));
    let walled = vec![cell(false, false, false, false); 4];
    assert_eq!(accept(2, 2, Some(walled)).err(), Some(GenerateError::NotSpanningTree));
    // A loop around a 3 x 3 grid with the middle cell cut off: eight
    // passages for nine cells, and still no spanning tree.
    let ring = vec![
        cell(false, true, true, false),
        cell(false, true, false, true),
        cell(false, false, true, true),
        cell(true, false, true, false),
        cell(false, false, false, false),
        cell(true, false, true, false),
        cell(true, true, false, false),
        cell(false, true, false, true),
        cell(true, false, false, true),
    ];
    let maze = MazeGrid::from_cells(3, 3, ring.clone()).unwrap();
    assert!(is_symmetric(&maze));
    assert_eq!(count_passages(&maze), 8);
    assert!(!is_connected(&maze));
    assert_eq!(accept(3, 3, Some(ring)).err(), Some(GenerateError::NotSpanningTree));
}

#[test]
fn missing_or_miscounted_cells_are_refused() {
    assert_eq!(accept(2, 2, None).err(), Some(GenerateError::Generator));
    let three = vec![cell(false, false, false, false); 3];
    assert_eq!(accept(2, 2, Some(three)).err(), Some(GenerateError::Generator));
    assert_eq!(accept(0, 0, Some(vec![])).err(), Some(GenerateError::NotSpanningTree));
}

#[test]
fn grid_without_cells_counts_as_joined() {
    let maze = MazeGrid::from_cells(0, 4, vec![]).unwrap();
    assert!(is_connected(&maze));
    assert!(is_symmetric(&maze));
    assert_eq!(count_passages(&maze), 0);
    assert!(!is_spanning_tree(&maze));
}
