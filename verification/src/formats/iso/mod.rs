//! The GameCube disc image: its filesystem table and the layout of a
//! rebuilt image.

pub mod iso;
pub mod iso_rebuild;
pub mod rebuild_plan;
