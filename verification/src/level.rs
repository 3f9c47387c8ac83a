//! The level description: plain text, line by line, in blocks between braces.
//!
//! A volume is one block of one line, which gives its two corners and its
//! texture:
//!
//! ```text
//! {
//! ( 0 5 0 ) ( 256 -5 256 ) maze/wallpaper
//! }
//! ```
//!
//! A level is a `worldspawn` block that holds every volume, followed by a
//! player start and a prop at the middle of the grid.

use crate::geometry::{synthesize, synthesized, Brush, Point, Texture, SIZE_SEGMENT};
use crate::grid::{MazeGrid, GridView};
use vstd::prelude::*;
use vstd::string::StringExecFns;

verus! {

/// The character for a digit.
pub open spec fn digit_char(digit: nat) -> char {
    if digit == 0 {
        '0'
    } else if digit == 1 {
        '1'
    } else if digit == 2 {
        '2'
    } else if digit == 3 {
        '3'
    } else if digit == 4 {
        '4'
    } else if digit == 5 {
        '5'
    } else if digit == 6 {
        '6'
    } else if digit == 7 {
        '7'
    } else if digit == 8 {
        '8'
    } else {
        '9'
    }
}

/// A natural number in decimal, without leading zeros.
pub open spec fn natural_text(n: nat) -> Seq<char>
    decreases n,
{
    if n < 10 {
        seq![digit_char(n)]
    } else {
        natural_text(n / 10).push(digit_char(n % 10))
    }
}

/// An integer in decimal, with a minus sign in front when it is negative.
pub open spec fn decimal_text(n: int) -> Seq<char> {
    if n < 0 {
        seq!['-'] + natural_text((-n) as nat)
    } else {
        natural_text(n as nat)
    }
}

fn digit_text(digit: u64) -> (text: &'static str)
    requires
        digit < 10,
    ensures
        text@ == seq![digit_char(digit as nat)],
{
    proof {
        reveal_strlit("0");
        reveal_strlit("1");
        reveal_strlit("2");
        reveal_strlit("3");
        reveal_strlit("4");
        reveal_strlit("5");
        reveal_strlit("6");
        reveal_strlit("7");
        reveal_strlit("8");
        reveal_strlit("9");
    }
    let text = if digit == 0 {
        "0"
    } else if digit == 1 {
        "1"
    } else if digit == 2 {
        "2"
    } else if digit == 3 {
        "3"
    } else if digit == 4 {
        "4"
    } else if digit == 5 {
        "5"
    } else if digit == 6 {
        "6"
    } else if digit == 7 {
        "7"
    } else if digit == 8 {
        "8"
    } else {
        "9"
    };
    assert(text@ =~= seq![digit_char(digit as nat)]);
    text
}

/// Appends a natural number in decimal.
pub fn write_natural(text: &mut String, n: u64)
    ensures
        final(text)@ == old(text)@ + natural_text(n as nat),
    decreases n,
{
    if n >= 10 {
        write_natural(text, n / 10);
    }
    text.append(digit_text(n % 10));
    proof {
        if n >= 10 {
            assert(text@ =~= old(text)@ + natural_text(n as nat));
        }
    }
}

/// Appends an integer in decimal.
pub fn write_decimal(text: &mut String, n: i64)
    ensures
        final(text)@ == old(text)@ + decimal_text(n as int),
{
    if n < 0 {
        text.append("-");
        let magnitude: u64 = (-(n + 1)) as u64 + 1;
        write_natural(text, magnitude);
        proof {
            reveal_strlit("-");
            assert("-"@ =~= seq!['-']);
            assert(text@ =~= old(text)@ + decimal_text(n as int));
        }
    } else {
        write_natural(text, n as u64);
    }
}

/// The name that a texture goes by in the level description.
pub open spec fn texture_name(texture: Texture) -> Seq<char> {
    match texture {
        Texture::Wall => "maze/wallpaper"@,
        Texture::Floor => "maze/floor"@,
        Texture::Ceiling => "maze/tiles"@,
    }
}

/// A point: its three coordinates between round brackets.
pub open spec fn point_text(point: Point) -> Seq<char> {
    "( "@ + decimal_text(point.x as int) + " "@ + decimal_text(point.y as int) + " "@
        + decimal_text(point.z as int) + " )"@
}

/// The block of one volume.
pub open spec fn brush_text(brush: Brush) -> Seq<char> {
    "{\n"@ + point_text(brush.first) + " "@ + point_text(brush.second) + " "@ + texture_name(
        brush.texture,
    ) + "\n}\n"@
}

/// The blocks of a run of volumes, in order.
pub open spec fn brushes_text(brushes: Seq<Brush>) -> Seq<char>
    decreases brushes.len(),
{
    if brushes.len() == 0 {
        Seq::empty()
    } else {
        brushes_text(brushes.drop_last()) + brush_text(brushes.last())
    }
}

/// What opens the `worldspawn` block.
pub open spec fn world_opening() -> Seq<char> {
    "{\n\"classname\" \"worldspawn\"\n"@
}

/// What closes the `worldspawn` block, and the player start that follows it.
pub open spec fn world_closing() -> Seq<char> {
    "}\n\n{\n\"classname\" \"info_player_start\"\n\"origin\" \"128 128 50\"\n}\n"@
}

/// The prop that stands at the middle of a grid of `width` by `height` cells.
pub open spec fn prop_text(width: int, height: int) -> Seq<char> {
    "{\n\"classname\" \"prop_dynamic\"\n\"origin\" \""@ + decimal_text(
        width * SIZE_SEGMENT / 2,
    ) + " "@ + decimal_text(height * SIZE_SEGMENT / 2)
        + " 0\"\n\"model\" \"models/humans/heroes/mlt_hero_sarah.mdl\"\n\"angles\" \"0 0 0\"\n\"modelscale\" \"2\"\n}\n"@
}

/// The whole level description of a maze.
pub open spec fn level_text(maze: GridView) -> Seq<char> {
    world_opening() + brushes_text(synthesized(maze)) + world_closing() + prop_text(
        maze.width as int,
        maze.height as int,
    )
}

/// The name that a texture goes by in the level description.
pub fn texture_str(texture: Texture) -> (name: &'static str)
    ensures
        name@ == texture_name(texture),
{
    match texture {
        Texture::Wall => "maze/wallpaper",
        Texture::Floor => "maze/floor",
        Texture::Ceiling => "maze/tiles",
    }
}

/// Appends a point.
pub fn write_point(text: &mut String, point: &Point)
    ensures
        final(text)@ == old(text)@ + point_text(*point),
{
    text.append("( ");
    write_decimal(text, point.x);
    text.append(" ");
    write_decimal(text, point.y);
    text.append(" ");
    write_decimal(text, point.z);
    text.append(" )");
    assert(text@ =~= old(text)@ + point_text(*point));
}

/// Appends the block of one volume.
pub fn write_brush(text: &mut String, brush: &Brush)
    ensures
        final(text)@ == old(text)@ + brush_text(*brush),
{
    text.append("{\n");
    write_point(text, &brush.first);
    text.append(" ");
    write_point(text, &brush.second);
    text.append(" ");
    text.append(texture_str(brush.texture));
    text.append("\n}\n");
    assert(text@ =~= old(text)@ + brush_text(*brush));
}

/// Appends the blocks of a run of volumes, in order.
pub fn write_brushes(text: &mut String, brushes: &Vec<Brush>)
    ensures
        final(text)@ == old(text)@ + brushes_text(brushes@),
{
    let mut i: usize = 0;
    assert(text@ =~= old(text)@ + brushes_text(brushes@.take(0)));
    while i < brushes.len()
        invariant
            i <= brushes.len(),
            text@ == old(text)@ + brushes_text(brushes@.take(i as int)),
        decreases brushes.len() - i,
    {
        let ghost before = text@;
        write_brush(text, &brushes[i]);
        proof {
            let next = brushes@.take(i + 1);
            assert(next.drop_last() =~= brushes@.take(i as int));
            assert(next.last() == brushes@[i as int]);
            assert(text@ =~= old(text)@ + brushes_text(next));
        }
        i = i + 1;
    }
    assert(brushes@.take(i as int) =~= brushes@);
}

/// Appends the volumes of a maze: the walls of its cells, then the four
/// closing volumes.
pub fn write_maze(text: &mut String, maze: &MazeGrid)
    ensures
        final(text)@ == old(text)@ + brushes_text(synthesized(maze@)),
{
    let brushes = synthesize(maze);
    write_brushes(text, &brushes);
}

/// Appends what follows the volumes: the end of the `worldspawn` block, the
/// player start, and the prop at the middle of the grid.
pub fn write_entities(text: &mut String, width: u32, height: u32)
    ensures
        final(text)@ == old(text)@ + world_closing() + prop_text(width as int, height as int),
{
    text.append("}\n\n{\n\"classname\" \"info_player_start\"\n\"origin\" \"128 128 50\"\n}\n");
    text.append("{\n\"classname\" \"prop_dynamic\"\n\"origin\" \"");
    write_decimal(text, width as i64 * SIZE_SEGMENT / 2);
    text.append(" ");
    write_decimal(text, height as i64 * SIZE_SEGMENT / 2);
    text.append(
        " 0\"\n\"model\" \"models/humans/heroes/mlt_hero_sarah.mdl\"\n\"angles\" \"0 0 0\"\n\"modelscale\" \"2\"\n}\n",
    );
    assert(text@ =~= old(text)@ + world_closing() + prop_text(width as int, height as int));
}

/// The whole level description of a maze.
pub fn write_level(maze: &MazeGrid) -> (text: String)
    ensures
        text@ == level_text(maze@),
{
    let mut text = String::new();
    text.append("{\n\"classname\" \"worldspawn\"\n");
    write_maze(&mut text, maze);
    write_entities(&mut text, maze.width(), maze.height());
    assert(text@ =~= level_text(maze@));
    text
}

} // verus!
