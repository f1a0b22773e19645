//! The in-memory model of the remote filesystem: directories, files, and
//! the tree renderings.

pub mod directory;
pub mod file;
pub mod node;
