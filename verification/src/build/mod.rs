//! The decisions of the build: which files changed, what they compile to,
//! which archives must be rebuilt and from what, and the archives
//! themselves.

pub mod assemble;
pub mod archive_plan;
pub mod hash_check;
pub mod compile;
pub mod output;
