//! Parsing, checking and rebuilding of Wii title containers.

pub mod codec;
pub mod digest;
pub mod title;
pub mod archive;
pub mod filetypes;
