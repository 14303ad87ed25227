//! Custom in-game cursor: cursor-file decoding, per-file profiles and the
//! decisions of the overlay runtime.

pub mod text;
pub mod config;
pub mod cursor;
pub mod pixels;
pub mod runtime;
pub mod process_list;
