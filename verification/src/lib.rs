//! Maze level synthesis and seed synchronisation.
//!
//! A maze is grown from a 32-byte seed, turned into box volumes and written out
//! as a textual level description. Only the seed travels between processes: it
//! is serialised, text-encoded, cut into bounded slices, and put back together
//! on the receiving side.

pub mod chunking;
pub mod compile;
pub mod cycle;
pub mod generator;
pub mod geometry;
pub mod grid;
pub mod level;
pub mod maze;
pub mod record;
pub mod transfer;
pub mod tree;
