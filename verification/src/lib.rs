//! Extraction of macOS flat installer packages (`.pkg`) into a directory tree.
//!
//! The container format itself is parsed by the `apple-flat-package` crate;
//! this library holds the extraction logic: classifying each payload entry by
//! its mode bits, normalizing its archived name onto a relative path, and
//! materializing directories and regular files — modelled as an in-memory
//! tree that a caller writes to disk.

pub mod filetype;
pub mod paths;
pub mod fstree;
pub mod pipeline;
pub mod container;
pub mod extractor;
