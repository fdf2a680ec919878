//! The own namespace as a tree of files. The keys under `fs/` are the files; directories
//! are made up from the keys below them. The mounting user is the only one served, so
//! there are no capabilities here: the mount acts as the host itself.

pub mod answers;
pub mod inodes;
pub mod laws;
pub mod mesh;
pub mod path;


pub use crate::fs::mesh::{Attr, DirRow, Errno, Listing, MeshFs, OpenMode};
