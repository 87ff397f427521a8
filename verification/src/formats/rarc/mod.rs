//! RARC archives: parsing, writing and building from scratch.

pub mod parser;
pub mod writer;
pub mod builder;
pub mod roundtrip;
