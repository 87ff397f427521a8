pub mod compression;
pub mod bmg;
pub mod rarc;
pub mod baa;
pub mod aw;
pub mod iso;
