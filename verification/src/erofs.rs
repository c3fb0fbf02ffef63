//! The EROFS image layer: fixed binary layout records, a typed reader over a
//! raw image, a structural walker, and a deterministic textual renderer.

pub mod format;
pub mod reader;
pub mod debug;
