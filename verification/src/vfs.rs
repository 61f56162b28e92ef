//! A toy in-memory file system: a tree of directories and files, edited
//! by path and searched by queries.

pub mod clock;
pub mod fs;
pub mod model;
pub mod node;
pub mod query;
pub mod tree;

pub use fs::{FileSystem, MatchResult};
pub use node::{Dir, File, FileType, Node};
pub use query::QueryParam;
