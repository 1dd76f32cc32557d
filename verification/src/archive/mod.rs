//! Archives and compressed data.

pub mod lz77;
pub mod u8;
