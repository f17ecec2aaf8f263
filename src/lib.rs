//! Builds a tree of path segments from slash-separated paths and renders it
//! as box-drawing lines, one line per node.
pub mod path;
pub mod prefix;
pub mod model;
pub mod tree;
pub mod laws;

pub use path::split_path;
pub use prefix::line_prefix;
pub use tree::{Tree, name_less};
