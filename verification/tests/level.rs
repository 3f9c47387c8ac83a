use ozersk_gen::generator::generate;
use ozersk_gen::geometry::{Brush, Point, Texture};
use ozersk_gen::grid::{Cell, MazeGrid};
use ozersk_gen::level::{
    texture_str, write_brush, write_brushes, write_decimal, write_entities, write_level,
    write_maze, write_natural, write_point,
};

fn decimal(n: i64) -> String {
    let mut text = String::new();
    write_decimal(&mut text, n);
    text
}

#[test]
fn decimal_text_of_integers() {
    assert_eq!(decimal(0), "0");
    assert_eq!(decimal(7), "7");
    assert_eq!(decimal(10), "10");
    assert_eq!(decimal(256), "256");
    assert_eq!(decimal(-5), "-5");
    assert_eq!(decimal(-120), "-120");
    assert_eq!(decimal(7685), "7685");
    assert_eq!(decimal(i64::MAX), "9223372036854775807");
    assert_eq!(decimal(i64::MIN), "-9223372036854775808");
}

#[test]
fn decimal_text_agrees_with_the_standard_library() {
    for n in [1i64, 9, 99, 100, 101, 1234567890, -1, -10, -99999, 1 << 40, -(1 << 40)] {
        assert_eq!(decimal(n), n.to_string());
    }
}

#[test]
fn natural_is_appended() {
    let mut text = String::from("n=");
    write_natural(&mut text, 4096);
    assert_eq!(text, "n=4096");
    write_natural(&mut text, u64::MAX);
    assert_eq!(text, "n=409618446744073709551615");
}

#[test]
fn texture_names() {
    assert_eq!(texture_str(Texture::Wall), "maze/wallpaper");
    assert_eq!(texture_str(Texture::Floor), "maze/floor");
    assert_eq!(texture_str(Texture::Ceiling), "maze/tiles");
}

#[test]
fn point_text() {
    let mut text = String::new();
    write_point(&mut text, &Point { x: 768, y: -5, z: 0 });
    assert_eq!(text, "( 768 -5 0 )");
}

#[test]
fn brush_block() {
    let brush = Brush {
        first: Point { x: 0, y: 5, z: 0 },
        second: Point { x: 256, y: -5, z: 256 },
        texture: Texture::Wall,
    };
    let mut text = String::from("before\n");
    write_brush(&mut text, &brush);
    assert_eq!(text, "before\n{\n( 0 5 0 ) ( 256 -5 256 ) maze/wallpaper\n}\n");
}

#[test]
fn brush_blocks_follow_each_other() {
    let floor = Brush {
        first: Point { x: 0, y: 0, z: 0 },
        second: Point { x: 256, y: 256, z: -5 },
        texture: Texture::Floor,
    };
    let ceiling = Brush {
        first: Point { x: 0, y: 0, z: 261 },
        second: Point { x: 256, y: 256, z: 251 },
        texture: Texture::Ceiling,
    };
    let mut text = String::new();
    write_brushes(&mut text, &vec![floor, ceiling]);
    assert_eq!(
        text,
        "{\n( 0 0 0 ) ( 256 256 -5 ) maze/floor\n}\n{\n( 0 0 261 ) ( 256 256 251 ) maze/tiles\n}\n"
    );
    let mut nothing = String::new();
    write_brushes(&mut nothing, &vec![]);
    assert_eq!(nothing, "");
}

#[test]
fn entities_of_the_standard_grid() {
    let mut text = String::new();
    write_entities(&mut text, 30, 30);
    let expected = "}\n\n{\n\"classname\" \"info_player_start\"\n\"origin\" \"128 128 50\"\n}\n\
                    {\n\"classname\" \"prop_dynamic\"\n\"origin\" \"3840 3840 0\"\n\
                    \"model\" \"models/humans/heroes/mlt_hero_sarah.mdl\"\n\"angles\" \"0 0 0\"\n\
                    \"modelscale\" \"2\"\n}\n";
    assert_eq!(text, expected);
}

#[test]
fn level_of_one_closed_cell() {
    let closed = Cell { north: false, east: false, south: false, west: false };
    let maze = MazeGrid::from_cells(1, 1, vec![closed]).unwrap();
    let expected = "{\n\"classname\" \"worldspawn\"\n\
                    {\n( 0 5 0 ) ( 256 -5 256 ) maze/wallpaper\n}\n\
                    {\n( 5 0 0 ) ( -5 256 256 ) maze/wallpaper\n}\n\
                    {\n( 0 261 0 ) ( 256 251 256 ) maze/wallpaper\n}\n\
                    {\n( 261 0 0 ) ( 251 256 256 ) maze/wallpaper\n}\n\
                    {\n( 0 0 261 ) ( 256 256 251 ) maze/tiles\n}\n\
                    {\n( 0 0 0 ) ( 256 256 -5 ) maze/floor\n}\n\
                    }\n\n{\n\"classname\" \"info_player_start\"\n\"origin\" \"128 128 50\"\n}\n\
                    {\n\"classname\" \"prop_dynamic\"\n\"origin\" \"128 128 0\"\n\
                    \"model\" \"models/humans/heroes/mlt_hero_sarah.mdl\"\n\"angles\" \"0 0 0\"\n\
                    \"modelscale\" \"2\"\n}\n";
    assert_eq!(write_level(&maze), expected);
}

#[test]
fn level_of_the_two_by_one_maze() {
    let maze = generate(Some([0u8; 32]), 2, 1).unwrap();
    let text = write_level(&maze);
    assert_eq!(text.matches("worldspawn").count(), 1);
    assert!(text.starts_with("{\n\"classname\" \"worldspawn\"\n{\n"));
    // Three walls and four closing volumes, then two more blocks and the
    // block of the world itself.
    assert_eq!(text.matches("maze/wallpaper").count(), 3 + 2);
    assert_eq!(text.matches("maze/tiles").count(), 1);
    assert_eq!(text.matches("maze/floor").count(), 1);
    assert_eq!(text.matches("{\n").count(), 7 + 1 + 2);
    assert_eq!(text.matches("\"classname\"").count(), 3);
    assert!(text.contains("\"classname\" \"info_player_start\"\n\"origin\" \"128 128 50\"\n"));
    assert!(text.contains("\"classname\" \"prop_dynamic\"\n\"origin\" \"256 128 0\"\n"));
    assert!(!text.contains("( 261 0 0 ) ( 251 256 256 )"));
    assert!(text.ends_with("\"modelscale\" \"2\"\n}\n"));
}

#[test]
fn maze_volumes_are_appended() {
    let open = Cell { north: true, east: true, south: true, west: true };
    let maze = MazeGrid::from_cells(1, 1, vec![open]).unwrap();
    let mut text = String::from("x");
    write_maze(&mut text, &maze);
    assert_eq!(
        text,
        "x{\n( 0 261 0 ) ( 256 251 256 ) maze/wallpaper\n}\n\
         {\n( 261 0 0 ) ( 251 256 256 ) maze/wallpaper\n}\n\
         {\n( 0 0 261 ) ( 256 256 251 ) maze/tiles\n}\n\
         {\n( 0 0 0 ) ( 256 256 -5 ) maze/floor\n}\n"
    );
}
