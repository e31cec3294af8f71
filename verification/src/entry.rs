//! The values a walk is made of: what a directory read reports, the unit of
//! work that stands for one directory, and the entries handed to the caller.

use crate::path::{join, joined};
use std::sync::Arc;
use vstd::prelude::*;

verus! {

/// What kind of file an entry names.
#[derive(Clone, Copy, Debug, PartialEq, Eq, Structural)]
pub enum FileType {
    Dir,
    File,
    Symlink,
    Other,
}

impl FileType {
    /// Whether this is the type of a directory.
    pub fn is_dir(&self) -> (r: bool)
        ensures
            r == (*self is Dir),
    {
        matches!(self, FileType::Dir)
    }

    /// Whether this is the type of a regular file.
    pub fn is_file(&self) -> (r: bool)
        ensures
            r == (*self is File),
    {
        matches!(self, FileType::File)
    }

    /// Whether this is the type of a symbolic link.
    pub fn is_symlink(&self) -> (r: bool)
        ensures
            r == (*self is Symlink),
    {
        matches!(self, FileType::Symlink)
    }
}

/// The attributes of a file that a walk can load ahead of time. Times are
/// nanoseconds since the Unix epoch; a time the platform does not record is
/// absent.
#[derive(Clone, Copy, Debug, PartialEq, Eq, Structural)]
pub struct Metadata {
    pub file_type: FileType,
    pub len: u64,
    pub accessed: Option<i128>,
    pub created: Option<i128>,
    pub modified: Option<i128>,
}

/// A failure reported by the operating system.
#[derive(Debug)]
pub struct IoError {
    /// The operating system's error code, where it gave one.
    pub code: Option<i32>,
    pub message: String,
}

/// One entry as a directory read reports it, before any rule of the walk has
/// been applied to it.
#[derive(Debug)]
pub struct RawEntry {
    pub file_name: Vec<u8>,
    pub file_type: Result<FileType, IoError>,
    /// The entry's attributes, where the reader was asked to load them.
    pub metadata: Option<Result<Metadata, IoError>>,
}

/// A directory to read: where it is, how deep below the root, and a value of
/// the caller's that is carried along untouched.
#[derive(Debug)]
pub struct ReadDirSpec {
    pub path: Vec<u8>,
    pub depth: usize,
    pub state: Option<Vec<u8>>,
}

impl ReadDirSpec {
    /// The directory at `path`, `depth` levels below the root, with `state`
    /// to carry along.
    pub fn new(path: Vec<u8>, depth: usize, state: Option<Vec<u8>>) -> (r: Self)
        ensures
            r.path == path,
            r.depth == depth,
            r.state == state,
    {
        ReadDirSpec { path, depth, state }
    }
}

/// An entry of the walk.
#[derive(Debug)]
pub struct DirEntry {
    depth: usize,
    file_name: Vec<u8>,
    file_type: Result<FileType, IoError>,
    metadata: Option<Result<Metadata, IoError>>,
    /// The directory that the entry was read from; the root has none.
    parent_spec: Option<Arc<ReadDirSpec>>,
    /// The directory to read below the entry, where the walk descends.
    children_spec: Option<Arc<ReadDirSpec>>,
    /// The path of the root entry; empty in every other entry.
    root_path: Vec<u8>,
}

/// What one position of a directory's listing holds: an entry, or the error
/// met in reading it.
pub type EntryResult = Result<DirEntry, IoError>;

impl DirEntry {
    /// How many levels below the root the entry is.
    pub closed spec fn spec_depth(&self) -> usize {
        self.depth
    }

    /// The name of the entry, as the operating system gave it.
    pub closed spec fn spec_file_name(&self) -> &Vec<u8> {
        &self.file_name
    }

    /// The type of the entry, or the error met in asking for it.
    pub closed spec fn spec_file_type(&self) -> &Result<FileType, IoError> {
        &self.file_type
    }

    /// The attributes of the entry, where they were loaded, or the error met
    /// in loading them.
    pub closed spec fn spec_metadata(&self) -> &Option<Result<Metadata, IoError>> {
        &self.metadata
    }

    /// The directory that the entry was read from; the root has none.
    pub closed spec fn spec_parent_spec(&self) -> &Option<Arc<ReadDirSpec>> {
        &self.parent_spec
    }

    /// The directory that the walk reads below the entry, if it descends.
    pub closed spec fn spec_children_spec(&self) -> &Option<Arc<ReadDirSpec>> {
        &self.children_spec
    }

    /// The path of the entry: the root's own path, or the entry's name inside
    /// the directory it was read from.
    pub closed spec fn spec_path(&self) -> Seq<u8> {
        match self.parent_spec {
            Some(parent) => joined(parent.path@, self.file_name@),
            None => self.root_path@,
        }
    }

    /// An entry is one level below the directory it was read from; the root,
    /// which was read from none, is at depth 0. This holds of every entry
    /// there is.
    #[verifier::type_invariant]
    pub open spec fn wf(&self) -> bool {
        match self.parent_spec() {
            Some(parent) => self.depth() == parent.depth + 1,
            None => self.depth() == 0,
        }
    }

    /// Whether the walk descends below this entry.
    pub open spec fn is_branch(&self) -> bool {
        self.children_spec() is Some
    }

    /// The root entry of a walk that starts at `path`.
    pub fn root(
        path: Vec<u8>,
        file_name: Vec<u8>,
        file_type: Result<FileType, IoError>,
        children_spec: Option<Arc<ReadDirSpec>>,
    ) -> (r: Self)
        ensures
            r.depth() == 0,
            r.file_name() == file_name,
            r.file_type() == file_type,
            r.metadata() is None,
            r.parent_spec() is None,
            r.children_spec() == children_spec,
            r.spec_path() == path@,
            r.wf(),
    {
        DirEntry {
            depth: 0,
            file_name,
            file_type,
            metadata: None,
            parent_spec: None,
            children_spec,
            root_path: path,
        }
    }

    /// An entry read from the directory `parent_spec`.
    pub fn new(
        parent_spec: Arc<ReadDirSpec>,
        file_name: Vec<u8>,
        file_type: Result<FileType, IoError>,
        metadata: Option<Result<Metadata, IoError>>,
        children_spec: Option<Arc<ReadDirSpec>>,
    ) -> (r: Self)
        requires
            parent_spec.depth < usize::MAX,
        ensures
            r.depth() == parent_spec.depth + 1,
            r.file_name() == file_name,
            r.file_type() == file_type,
            r.metadata() == metadata,
            r.parent_spec() == Some(parent_spec),
            r.children_spec() == children_spec,
            r.spec_path() == joined(parent_spec.path@, file_name@),
            r.wf(),
    {
        DirEntry {
            depth: parent_spec.depth + 1,
            file_name,
            file_type,
            metadata,
            parent_spec: Some(parent_spec),
            children_spec,
            root_path: Vec::new(),
        }
    }

    /// How many levels below the root the entry is.
    #[verifier::when_used_as_spec(spec_depth)]
    pub fn depth(&self) -> (r: usize)
        ensures
            r == self.depth(),
    {
        self.depth
    }

    /// The name of the entry, as the operating system gave it.
    #[verifier::when_used_as_spec(spec_file_name)]
    pub fn file_name(&self) -> (r: &Vec<u8>)
        ensures
            r == self.file_name(),
    {
        &self.file_name
    }

    /// The type of the entry, or the error met in asking for it.
    #[verifier::when_used_as_spec(spec_file_type)]
    pub fn file_type(&self) -> (r: &Result<FileType, IoError>)
        ensures
            r == self.file_type(),
    {
        &self.file_type
    }

    /// The attributes of the entry, where they were loaded.
    #[verifier::when_used_as_spec(spec_metadata)]
    pub fn metadata(&self) -> (r: &Option<Result<Metadata, IoError>>)
        ensures
            r == self.metadata(),
    {
        &self.metadata
    }

    /// The directory that the entry was read from; the root has none.
    #[verifier::when_used_as_spec(spec_parent_spec)]
    pub fn parent_spec(&self) -> (r: &Option<Arc<ReadDirSpec>>)
        ensures
            r == self.parent_spec(),
    {
        &self.parent_spec
    }

    /// The directory that the walk reads below the entry, if it descends.
    #[verifier::when_used_as_spec(spec_children_spec)]
    pub fn children_spec(&self) -> (r: &Option<Arc<ReadDirSpec>>)
        ensures
            r == self.children_spec(),
    {
        &self.children_spec
    }

    /// The path of the entry.
    pub fn path(&self) -> (r: Vec<u8>)
        ensures
            r@ == self.spec_path(),
    {
        match &self.parent_spec {
            Some(parent) => join(&parent.path, &self.file_name),
            None => {
                let path = self.root_path.clone();
                assert(path@ =~= self.root_path@);
                path
            },
        }
    }

    /// Replaces the directory that the walk reads for this entry. With `None`
    /// the walk does not descend below it. Nothing else of the entry changes.
    pub fn set_children_spec(&mut self, children_spec: Option<Arc<ReadDirSpec>>)
        ensures
            final(self).children_spec() == children_spec,
            final(self).depth() == old(self).depth(),
            final(self).file_name() == old(self).file_name(),
            final(self).file_type() == old(self).file_type(),
            final(self).metadata() == old(self).metadata(),
            final(self).parent_spec() == old(self).parent_spec(),
            final(self).spec_path() == old(self).spec_path(),
    {
        proof {
            use_type_invariant(&*self);
        }
        self.children_spec = children_spec;
    }
}

/// The path of an entry that was read from a directory is its name inside
/// that directory.
pub proof fn law_entry_path(entry: DirEntry)
    ensures
        *entry.parent_spec() matches Some(parent) ==> entry.spec_path() == joined(
            parent.path@,
            entry.file_name()@,
        ),
{
}

/// The directory the walk reads below `item`, if it reads one.
pub open spec fn branch_of(item: EntryResult) -> Option<Arc<ReadDirSpec>> {
    match item {
        Ok(entry) => *entry.children_spec(),
        Err(_) => None,
    }
}

} // verus!
