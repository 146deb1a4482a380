//! An in-memory tree of named files and folders, with a resumable pre-order
//! walk that keeps, at every step, the chain of entries from the top level
//! down to the entry it just produced.

pub mod tree;
pub mod walk;
pub mod iter;

pub use iter::EntryIter;
pub use tree::{Content, Entry, File, Folder};
