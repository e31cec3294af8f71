//! Recursive directory walk that hands its entries out as one ordered
//! sequence.
//!
//! Directories may be read in any order and by any number of workers; the
//! iterator still yields entries in the order of a depth-first pre-order walk.
//! This crate holds the rules of that walk: which entries of a directory are
//! admitted and in what order, how results that arrive out of order are handed
//! to the single consumer, and the proofs that the observed sequence does not
//! depend on when a directory's result arrives.
//!
//! The crate itself touches no file system. A caller reads a directory however
//! it likes, passes what it found to [`WalkDirOptions::read_dir`], and
//! publishes the outcome to a [`DirEntryIter`].
//!
//! - [`walk`] holds the builder and the rules by which a directory's entries
//!   are admitted, [`sort`] their order.
//! - [`state`] states the hand-off between readers and walker, [`iter`] is
//!   the iterator that is held to it.
//! - [`order`] says what a depth-first walk hands out and proves that the
//!   hand-off yields it; [`laws`] proves what holds of every walk that is
//!   read by the rules.

pub mod entry;
pub mod iter;
pub mod laws;
pub mod order;
pub mod path;
pub mod read_dir;
pub mod sort;
pub mod state;
pub mod walk;

pub use crate::entry::{DirEntry, EntryResult, FileType, IoError, Metadata, RawEntry, ReadDirSpec};
pub use crate::iter::DirEntryIter;
pub use crate::path::{file_name_of, is_hidden, join};
pub use crate::read_dir::ReadDir;
pub use crate::sort::Sort;
pub use crate::state::{Step, Task};
pub use crate::walk::{ProcessEntries, Unprocessed, Walk, WalkDir, WalkDirOptions};
