//! A toolkit for building and inspecting composefs images: an in-memory,
//! hard-link-preserving filesystem model, and a byte-exact reader and
//! structural walker for the EROFS on-disk layout that composefs emits.

pub mod erofs;
pub mod cmdline;
pub mod image;
pub mod tmpdir;
