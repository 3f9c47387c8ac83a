use ozersk_gen::generator::generate;
use ozersk_gen::level::write_level;
use ozersk_gen::maze::{create_maze, generate_maze, MAZE_X_SIZE, MAZE_Y_SIZE};
use ozersk_gen::record::MazeCreationInfo;
use ozersk_gen::transfer::{prepare, Reassembly, Received};
use ozersk_gen::tree::is_spanning_tree;

#[test]
fn standard_size() {
    assert_eq!((MAZE_X_SIZE, MAZE_Y_SIZE), (30, 30));
}

#[test]
fn default_record_has_a_seed() {
    let first = MazeCreationInfo::default();
    let second = MazeCreationInfo::default();
    assert!(first.seed.is_some());
    assert!(second.seed.is_some());
    // 32 random bytes do not come twice.
    assert_ne!(first, second);
}

#[test]
fn created_maze_belongs_to_the_record() {
    let info = MazeCreationInfo::new(Some([11u8; 32]));
    let created = create_maze(Some(info)).unwrap();
    assert_eq!(created.info, info);
    assert_eq!(created.maze.width(), 30);
    assert_eq!(created.maze.height(), 30);
    assert!(is_spanning_tree(&created.maze));
    assert_eq!(created.map_text, write_level(&created.maze));
    assert_eq!(created.slices, prepare(&info));
    let again = generate(info.seed, 30, 30).unwrap();
    assert_eq!(created.map_text, write_level(&again));
}

#[test]
fn created_level_has_one_world_and_two_entities() {
    let created = create_maze(Some(MazeCreationInfo::new(Some([1u8; 32])))).unwrap();
    let text = &created.map_text;
    assert!(text.starts_with("{\n\"classname\" \"worldspawn\"\n"));
    assert_eq!(text.matches("worldspawn").count(), 1);
    assert_eq!(text.matches("\"classname\"").count(), 3);
    assert!(text.contains("\"origin\" \"3840 3840 0\"\n"));
    // 900 cells have 1800 north and west sides, 899 of which hold a passage.
    assert_eq!(text.matches("maze/wallpaper").count(), 1800 - 899 + 2);
    assert_eq!(text.matches("maze/tiles").count(), 1);
    assert_eq!(text.matches("maze/floor").count(), 1);
}

#[test]
fn creation_without_a_record_draws_a_seed() {
    let created = create_maze(None).unwrap();
    assert!(created.info.seed.is_some());
    let again = create_maze(Some(created.info)).unwrap();
    assert_eq!(created.map_text, again.map_text);
    assert_eq!(created.slices, again.slices);
}

#[test]
fn remote_side_rebuilds_the_same_level() {
    let host = create_maze(None).unwrap();
    let mut state = Reassembly::new();
    assert_eq!(state.receive("START"), Received::Started);
    for slice in &host.slices {
        assert_eq!(state.receive(slice), Received::Appended);
    }
    let info = match state.receive("END") {
        Received::Decoded(info) => info,
        other => panic!("no record: {:?}", other),
    };
    assert_eq!(info, host.info);
    let remote = create_maze(Some(info)).unwrap();
    assert_eq!(remote.map_text, host.map_text);
}

#[test]
fn record_without_seed_gives_some_maze() {
    let info = MazeCreationInfo::new(None);
    let created = create_maze(Some(info)).unwrap();
    assert_eq!(created.info, info);
    assert!(is_spanning_tree(&created.maze));
    assert_eq!(created.slices, vec!["AA"]);
}

#[test]
fn generate_maze_appends_the_volumes() {
    let info = MazeCreationInfo::new(Some([2u8; 32]));
    let mut text = String::from("head\n");
    let maze = generate_maze(&mut text, &info).unwrap();
    let whole = write_level(&maze);
    let volumes = &whole["{\n\"classname\" \"worldspawn\"\n".len()..whole.find("}\n\n{").unwrap()];
    assert_eq!(text, format!("head\n{}", volumes));
}
