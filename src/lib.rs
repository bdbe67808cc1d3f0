//! An in-memory virtual file system for source analysis.
//!
//! Files live under a set of roots: directories whose descendant source files
//! are tracked as a unit. The `Vfs` merges what a background scanner reports
//! about the disk with in-editor overlay text, which always wins, and keeps an
//! ordered log of changes that a consumer drains with `commit_changes`.
use vstd::prelude::*;

pub mod path;
pub mod roots;
pub mod vfs;

pub use crate::path::{RelPath, VfsPath};
pub use crate::roots::{default_filter, is_source_extension, RootFilter, Roots, VfsRoot};
pub use crate::vfs::{Vfs, VfsChange, VfsFile, VfsTask};
