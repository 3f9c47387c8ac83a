//! One generation attempt from end to end: pick the seed, grow the maze,
//! write the level description, and prepare the slices that carry the seed to
//! whoever asks for it.

use crate::chunking::{joined, split_spec, SLICE_LENGTH};
use crate::generator::{generate, generate_spec, GenerateError};
use crate::geometry::synthesized;
use crate::grid::{GridView, MazeGrid};
use crate::level::{brushes_text, level_text, write_entities, write_maze};
use crate::record::{wire_bytes, MazeCreationInfo};
use crate::transfer::{base64_text, decode_payload_spec, is_data, prepare, TransferError};
use vstd::prelude::*;
use vstd::string::StringExecFns;

verus! {

/// Number of columns of a generated maze.
pub const MAZE_X_SIZE: u32 = 30;

/// Number of rows of a generated maze.
pub const MAZE_Y_SIZE: u32 = MAZE_X_SIZE;

/// Generates the maze of a record and appends its volumes to `text`. Where no
/// maze comes back, `text` is left as it was.
pub fn generate_maze(text: &mut String, maze_info: &MazeCreationInfo) -> (r: Result<
    MazeGrid,
    GenerateError,
>)
    ensures
        match r {
            Ok(maze) => {
                &&& maze@.wf()
                &&& maze@.width == MAZE_X_SIZE
                &&& maze@.height == MAZE_Y_SIZE
                &&& maze@.is_spanning_tree()
                &&& final(text)@ == old(text)@ + brushes_text(synthesized(maze@))
                &&& maze_info@ matches Some(seed) ==> generate_spec(
                    seed,
                    MAZE_X_SIZE as nat,
                    MAZE_Y_SIZE as nat,
                ) == Ok::<GridView, GenerateError>(maze@)
            },
            Err(e) => {
                &&& final(text)@ == old(text)@
                &&& e == GenerateError::Generator || e == GenerateError::NotSpanningTree
                &&& maze_info@ matches Some(seed) ==> generate_spec(
                    seed,
                    MAZE_X_SIZE as nat,
                    MAZE_Y_SIZE as nat,
                ) == Err::<GridView, GenerateError>(e)
            },
        },
{
    assert(MAZE_X_SIZE * MAZE_Y_SIZE == 900);
    match generate(maze_info.seed, MAZE_X_SIZE, MAZE_Y_SIZE) {
        Ok(maze) => {
            write_maze(text, &maze);
            Ok(maze)
        },
        Err(e) => Err(e),
    }
}

/// What one generation attempt leaves behind.
pub struct CreatedMaze {
    /// The record that the maze was generated from.
    pub info: MazeCreationInfo,
    /// The maze.
    pub maze: MazeGrid,
    /// The level description, to be written out whole.
    pub map_text: String,
    /// The slices that carry the record, to be served as they are.
    pub slices: Vec<String>,
}

impl CreatedMaze {
    /// The parts belong together: the level description is that of the maze,
    /// the slices are those of the record and decode to it, and a maze that
    /// was generated from a seed is the one that the seed stands for.
    pub open spec fn consistent(self) -> bool {
        &&& self.maze@.wf()
        &&& self.maze@.width == MAZE_X_SIZE
        &&& self.maze@.height == MAZE_Y_SIZE
        &&& self.maze@.is_spanning_tree()
        &&& self.map_text@ == level_text(self.maze@)
        &&& self.slices.deep_view() == split_spec(
            base64_text(wire_bytes(self.info@)),
            SLICE_LENGTH as nat,
        )
        &&& forall|i: int| 0 <= i < self.slices.len() ==> is_data(#[trigger] self.slices[i]@)
        &&& decode_payload_spec(joined(self.slices.deep_view())) == Ok::<
            Option<Seq<u8>>,
            TransferError,
        >(self.info@)
        &&& self.info@ matches Some(seed) ==> generate_spec(
            seed,
            MAZE_X_SIZE as nat,
            MAZE_Y_SIZE as nat,
        ) == Ok::<GridView, GenerateError>(self.maze@)
    }
}

/// Runs one generation attempt: for the record given, or for a fresh random
/// seed where none is given.
pub fn create_maze(info: Option<MazeCreationInfo>) -> (r: Result<CreatedMaze, GenerateError>)
    ensures
        match r {
            Ok(created) => {
                &&& created.consistent()
                &&& match info {
                    Some(given) => created.info == given,
                    None => created.info.seed is Some,
                }
            },
            Err(e) => {
                &&& e == GenerateError::Generator || e == GenerateError::NotSpanningTree
                &&& info matches Some(given) ==> given@ matches Some(seed) ==> generate_spec(
                    seed,
                    MAZE_X_SIZE as nat,
                    MAZE_Y_SIZE as nat,
                ) == Err::<GridView, GenerateError>(e)
            },
        },
{
    let maze_info = match info {
        Some(given) => given,
        None => MazeCreationInfo::default(),
    };
    let mut map_text = String::new();
    map_text.append("{\n\"classname\" \"worldspawn\"\n");
    match generate_maze(&mut map_text, &maze_info) {
        Err(e) => Err(e),
        Ok(maze) => {
            write_entities(&mut map_text, MAZE_X_SIZE, MAZE_Y_SIZE);
            let slices = prepare(&maze_info);
            assert(map_text@ =~= level_text(maze@));
            Ok(CreatedMaze { info: maze_info, maze, map_text, slices })
        },
    }
}

} // verus!
