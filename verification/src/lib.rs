//! Twilight Princess modding toolchain: verified format logic.
//!
//! The crate holds the byte-level parsers and writers of the GameCube file
//! formats the toolchain edits (Yaz0, RARC, BMG, BAA/AW, the ISO filesystem
//! table) together with the decisions of the export and build pipelines.
//! File and process I/O lives outside this crate.

pub mod text;
pub mod json;
pub mod cli;
pub mod utils;
pub mod formats;
pub mod build;
pub mod export;
pub mod diff;
