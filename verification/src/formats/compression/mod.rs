//! Compression wrappers used by the game data: Yaz0 and the GZ2E disc
//! header.

pub mod yaz0;
pub mod gz2e;
