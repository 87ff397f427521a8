//! The decisions of the export: how archive files are named in the mod
//! folder, what the manifest records, and the consolidated message file.

pub mod consolidated_bmg;
pub mod pipeline;
pub mod manifest;
pub mod unpack;
pub mod entries;
pub mod bmg_files;
