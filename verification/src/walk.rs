//! The builder of a walk, and the rules by which the entries of a directory
//! are admitted to it.

use crate::entry::{DirEntry, EntryResult, FileType, IoError, RawEntry, ReadDirSpec};
use crate::iter::{task_views, DirEntryIter};
use crate::path::{file_name_of, hidden, is_hidden, join, joined};
use crate::read_dir::ReadDir;
use crate::sort::{is_stable_sort, Sort};
use crate::state::{branches, tasks_for, Task, WalkState};
use std::sync::Arc;
use vstd::prelude::*;

verus! {

/// What a directory read reports at one position: an entry, or the error met
/// in reading it.
pub type RawResult = Result<RawEntry, IoError>;

/// A transform of the caller's, applied to the listing of each directory
/// after it has been filtered and put in order. It may drop items, reorder
/// them, and change below which entries the walk descends.
pub trait ProcessEntries {
    /// What the transform may make of a listing: `after` is a listing that it
    /// may leave when it is handed `before`. A transform that says nothing
    /// of itself may leave any listing.
    open spec fn processed(&self, before: Seq<EntryResult>, after: Seq<EntryResult>) -> bool {
        true
    }

    /// Changes the listing of one directory in place. It may be called from
    /// several threads at once, each time on another listing.
    fn process(&self, entries: &mut Vec<EntryResult>)
        ensures
            self.processed(old(entries)@, final(entries)@),
    ;
}

/// The transform of a walk that has none: it leaves a listing as it is.
#[derive(Clone, Copy, Debug)]
pub struct Unprocessed;

impl ProcessEntries for Unprocessed {
    open spec fn processed(&self, before: Seq<EntryResult>, after: Seq<EntryResult>) -> bool {
        after == before
    }

    fn process(&self, entries: &mut Vec<EntryResult>) {
    }
}

/// The settings of a walk.
#[derive(Debug)]
pub struct WalkDirOptions<P> {
    pub sort: Option<Sort>,
    pub max_depth: usize,
    pub skip_hidden: bool,
    pub num_threads: usize,
    pub preload_metadata: bool,
    pub process_entries: Option<Arc<P>>,
}

/// Builder of a walk.
#[derive(Debug)]
pub struct WalkDir<P = Unprocessed> {
    root: Vec<u8>,
    options: WalkDirOptions<P>,
}

/// A walk that is ready to run: the settings by which directories are read,
/// the iterator, and the tasks to begin with.
#[derive(Debug)]
pub struct Walk<P> {
    pub options: WalkDirOptions<P>,
    pub iter: DirEntryIter,
    pub tasks: Vec<Task>,
}

/// The results that are left of `raw` once hidden entries are dropped, where
/// `skip_hidden` asks for that. An error is never dropped.
pub open spec fn kept(skip_hidden: bool, raw: Seq<RawResult>) -> Seq<RawResult>
    decreases raw.len(),
{
    if raw.len() == 0 {
        Seq::empty()
    } else {
        let before = kept(skip_hidden, raw.drop_last());
        if skip_hidden && (raw.last() matches Ok(entry) && hidden(entry.file_name@)) {
            before
        } else {
            before.push(raw.last())
        }
    }
}

/// `output` is `input` in the order `sort`, or as it was where there is none.
pub open spec fn ordered(sort: Option<Sort>, input: Seq<EntryResult>, output: Seq<EntryResult>) -> bool {
    match sort {
        Some(sort) => is_stable_sort(sort, input, output),
        None => output == input,
    }
}

impl<P> WalkDirOptions<P> {
    /// Whether the attributes of each entry are to be loaded when its
    /// directory is read: when the caller asked for that, and when the
    /// entries are ordered by one of their times.
    pub open spec fn spec_loads_metadata(&self) -> bool {
        self.preload_metadata || (self.sort matches Some(sort) && sort != Sort::Name)
    }

    /// The number of threads that the walk is run with: one where only the
    /// root directory is read, else what was asked for.
    pub open spec fn spec_workers(&self) -> usize {
        if self.max_depth == 1 {
            1
        } else {
            self.num_threads
        }
    }

    /// Whether the walk descends below the entry `raw` of the directory
    /// `spec`: it is a directory, and its entries are within the depth cap.
    pub open spec fn descends(&self, spec: ReadDirSpec, raw: RawEntry) -> bool {
        raw.file_type == Ok::<FileType, IoError>(FileType::Dir) && spec.depth + 1 < self.max_depth
    }

    /// `item` is what the walk makes of `raw`, read from the directory `spec`.
    ///
    /// An error stays the error. An entry keeps its name, its type and, where
    /// attributes are loaded, its attributes; it is one level below `spec`,
    /// which it names as its parent. Where the walk descends below it, it
    /// names the directory to read: its own path, at its own depth.
    pub open spec fn admitted_as(&self, spec: Arc<ReadDirSpec>, raw: RawResult, item: EntryResult) -> bool {
        match raw {
            Err(error) => item == Err::<DirEntry, IoError>(error),
            Ok(raw) => {
                &&& item matches Ok(entry)
                &&& entry.depth() == spec.depth + 1
                &&& *entry.file_name() == raw.file_name
                &&& *entry.file_type() == raw.file_type
                &&& *entry.metadata() == (if self.spec_loads_metadata() {
                    raw.metadata
                } else {
                    None
                })
                &&& *entry.parent_spec() == Some(spec)
                &&& entry.spec_path() == joined(spec.path@, raw.file_name@)
                &&& entry.wf()
                &&& match *entry.children_spec() {
                    Some(below) => {
                        &&& self.descends(*spec, raw)
                        &&& below.path@ == joined(spec.path@, raw.file_name@)
                        &&& below.depth == spec.depth + 1
                        &&& below.state is None
                    },
                    None => !self.descends(*spec, raw),
                }
            },
        }
    }

    /// `items` is what the walk admits of `raw`, read from the directory
    /// `spec`: one item for each result that is kept, in the order read.
    pub open spec fn admits(&self, spec: Arc<ReadDirSpec>, raw: Seq<RawResult>, items: Seq<EntryResult>) -> bool {
        let kept = kept(self.skip_hidden, raw);
        &&& items.len() == kept.len()
        &&& forall|k: int| 0 <= k < kept.len() ==> self.admitted_as(spec, kept[k], #[trigger] items[k])
    }

    /// `listing` is what the walk lists for the directory `spec` that was
    /// read as `raw`, before any transform of the caller's: what it admits,
    /// in order.
    pub open spec fn lists(&self, spec: Arc<ReadDirSpec>, raw: Seq<RawResult>, listing: Seq<EntryResult>) -> bool {
        exists|items: Seq<EntryResult>| #[trigger]
            self.admits(spec, raw, items) && ordered(self.sort, items, listing)
    }

    /// `root` is the root entry of a walk of `path`, a file of type
    /// `file_type`. The walk descends below it where it is a directory and
    /// the depth cap admits entries below it.
    pub open spec fn is_root(&self, path: Seq<u8>, file_type: Result<FileType, IoError>, root: DirEntry) -> bool {
        &&& root.depth() == 0
        &&& root.file_name()@ == crate::path::final_component(path)
        &&& *root.file_type() == file_type
        &&& *root.metadata() is None
        &&& *root.parent_spec() is None
        &&& root.spec_path() == path
        &&& root.wf()
        &&& match *root.children_spec() {
            Some(below) => {
                &&& file_type == Ok::<FileType, IoError>(FileType::Dir)
                &&& self.max_depth > 0
                &&& below.path@ == path
                &&& below.depth == 0
                &&& below.state is None
            },
            None => !(file_type == Ok::<FileType, IoError>(FileType::Dir) && self.max_depth > 0),
        }
    }

    /// Whether the attributes of each entry are to be loaded when its
    /// directory is read.
    #[verifier::when_used_as_spec(spec_loads_metadata)]
    pub fn loads_metadata(&self) -> (r: bool)
        ensures
            r == self.spec_loads_metadata(),
    {
        self.preload_metadata || match self.sort {
            Some(Sort::Name) => false,
            Some(_) => true,
            None => false,
        }
    }

    /// The number of threads that the walk is run with.
    #[verifier::when_used_as_spec(spec_workers)]
    pub fn workers(&self) -> (r: usize)
        ensures
            r == self.spec_workers(),
    {
        if self.max_depth == 1 {
            1
        } else {
            self.num_threads
        }
    }

    /// Whether an entry of this name is kept.
    pub fn keeps(&self, file_name: &Vec<u8>) -> (r: bool)
        ensures
            r == !(self.skip_hidden && hidden(file_name@)),
    {
        !(self.skip_hidden && is_hidden(file_name))
    }

    /// The root entry of a walk of `path`, a file of type `file_type`.
    pub fn root_entry(&self, path: Vec<u8>, file_type: Result<FileType, IoError>) -> (root: DirEntry)
        ensures
            self.is_root(path@, file_type, root),
    {
        let file_name = file_name_of(&path);
        let is_dir = match &file_type {
            Ok(file_type) => file_type.is_dir(),
            Err(_) => false,
        };
        let children_spec = if is_dir && self.max_depth > 0 {
            let below = path.clone();
            assert(below@ =~= path@);
            Some(Arc::new(ReadDirSpec::new(below, 0, None)))
        } else {
            None
        };
        DirEntry::root(path, file_name, file_type, children_spec)
    }

    /// What the walk makes of one entry read from the directory `spec`.
    fn admit_entry(&self, spec: &Arc<ReadDirSpec>, raw: RawEntry) -> (entry: DirEntry)
        requires
            spec.depth < usize::MAX,
        ensures
            self.admitted_as(*spec, Ok(raw), Ok(entry)),
    {
        let depth = spec.depth + 1;
        let is_dir = match &raw.file_type {
            Ok(file_type) => file_type.is_dir(),
            Err(_) => false,
        };
        let children_spec = if is_dir && depth < self.max_depth {
            Some(Arc::new(ReadDirSpec::new(join(&spec.path, &raw.file_name), depth, None)))
        } else {
            None
        };
        let metadata = if self.loads_metadata() {
            raw.metadata
        } else {
            None
        };
        DirEntry::new(spec.clone(), raw.file_name, raw.file_type, metadata, children_spec)
    }

    /// What the walk admits of the results of reading the directory `spec`:
    /// hidden entries are dropped where that is asked for, and each entry
    /// that is kept is given its place in the walk.
    #[verifier::rlimit(50)]
    pub fn admit_all(&self, spec: &Arc<ReadDirSpec>, raw: Vec<RawResult>) -> (items: Vec<EntryResult>)
        requires
            spec.depth < usize::MAX,
        ensures
            self.admits(*spec, raw@, items@),
    {
        let mut rest = crate::read_dir::reversed(raw);
        let mut items: Vec<EntryResult> = Vec::new();
        let ghost mut i: int = 0;
        assert(raw@.take(0) == Seq::<RawResult>::empty());
        while rest.len() > 0
            invariant
                spec.depth < usize::MAX,
                0 <= i <= raw@.len(),
                rest@.len() == raw@.len() - i,
                rest@ == raw@.skip(i).reverse(),
                self.admits(*spec, raw@.take(i), items@),
            decreases rest.len(),
        {
            let ghost before = items@;
            let ghost kept_before = kept(self.skip_hidden, raw@.take(i));
            let result = rest.pop().unwrap();
            proof {
                assert(result == raw@[i]);
                assert(rest@ =~= raw@.skip(i + 1).reverse());
                assert(raw@.take(i + 1).drop_last() == raw@.take(i));
                assert(raw@.take(i + 1).last() == raw@[i]);
            }
            match result {
                Err(error) => {
                    items.push(Err(error));
                },
                Ok(entry) => {
                    if self.keeps(&entry.file_name) {
                        let admitted = self.admit_entry(spec, entry);
                        items.push(Ok(admitted));
                    }
                },
            }
            proof {
                let kept_now = kept(self.skip_hidden, raw@.take(i + 1));
                assert forall|k: int| 0 <= k < kept_now.len() implies self.admitted_as(
                    *spec,
                    kept_now[k],
                    #[trigger] items@[k],
                ) by {
                    if k < kept_before.len() {
                        assert(items@[k] == before[k]);
                        assert(kept_now[k] == kept_before[k]);
                    }
                }
                i = i + 1;
            }
        }
        assert(raw@.take(i) == raw@);
        items
    }

    /// What the walk lists for the directory `spec` before any transform of
    /// the caller's: the results of reading it are admitted, then put in
    /// order where an order is set.
    pub fn list(&self, spec: &Arc<ReadDirSpec>, raw: Vec<RawResult>) -> (items: Vec<EntryResult>)
        requires
            spec.depth < usize::MAX,
        ensures
            self.lists(*spec, raw@, items@),
    {
        let mut items = self.admit_all(spec, raw);
        let ghost admitted = items@;
        match &self.sort {
            Some(sort) => {
                sort.perform_sort(&mut items);
            },
            None => {},
        }
        assert(self.admits(*spec, raw@, admitted) && ordered(self.sort, admitted, items@));
        items
    }
}

impl<P> Clone for WalkDirOptions<P> {
    /// A copy of the settings: the same order, depth cap, number of threads
    /// and flags, and the same transform, which the copy shares.
    fn clone(&self) -> (r: Self)
        ensures
            r == *self,
    {
        WalkDirOptions {
            sort: self.sort,
            max_depth: self.max_depth,
            num_threads: self.num_threads,
            skip_hidden: self.skip_hidden,
            preload_metadata: self.preload_metadata,
            process_entries: match &self.process_entries {
                Some(process) => Some(process.clone()),
                None => None,
            },
        }
    }
}

impl<P: ProcessEntries> WalkDirOptions<P> {
    /// The listing of the directory `spec`, from what reading it gave.
    ///
    /// A directory that could not be read gives its error. Otherwise the
    /// listing is what [`list`](WalkDirOptions::list) makes of the results,
    /// handed to the caller's transform where there is one; what the
    /// transform leaves is the listing.
    pub fn read_dir(&self, spec: &Arc<ReadDirSpec>, raw: Result<Vec<RawResult>, IoError>) -> (r: Result<
        ReadDir,
        IoError,
    >)
        requires
            spec.depth < usize::MAX,
        ensures
            raw matches Err(error) ==> r == Err::<ReadDir, IoError>(error),
            raw matches Ok(results) ==> r matches Ok(listing) && self.lists_to(
                *spec,
                results@,
                listing@,
            ),
    {
        match raw {
            Err(error) => Err(error),
            Ok(results) => {
                let mut items = self.list(spec, results);
                let ghost listed = items@;
                match &self.process_entries {
                    Some(process) => {
                        process.process(&mut items);
                    },
                    None => {},
                }
                assert(self.lists(*spec, results@, listed) && self.hands_on(listed, items@));
                Ok(ReadDir::new(items))
            },
        }
    }

    /// `after` is what may be left of the listing `before` once it has been
    /// handed to the caller's transform: what the transform may make of it,
    /// or the listing itself where no transform is set.
    pub open spec fn hands_on(&self, before: Seq<EntryResult>, after: Seq<EntryResult>) -> bool {
        match self.process_entries {
            Some(process) => process.processed(before, after),
            None => after == before,
        }
    }

    /// `listing` is what may be published for the directory `spec` that was
    /// read as `raw`: what the walk lists for it, handed to the caller's
    /// transform.
    pub open spec fn lists_to(
        &self,
        spec: Arc<ReadDirSpec>,
        raw: Seq<RawResult>,
        listing: Seq<EntryResult>,
    ) -> bool {
        exists|before: Seq<EntryResult>| #[trigger]
            self.lists(spec, raw, before) && self.hands_on(before, listing)
    }
}

impl WalkDir<Unprocessed> {
    /// A builder of a walk that starts at the path `root`. If `root` is a
    /// directory, it is the first item of the walk. If it is a file, it is the
    /// only one.
    ///
    /// By default entries are unordered and of any depth, hidden entries are
    /// skipped, attributes are not loaded, and the number of threads is left
    /// to the caller's default pool.
    pub fn new(root: Vec<u8>) -> (r: Self)
        ensures
            r.root() == root,
            r.options() == (WalkDirOptions::<Unprocessed> {
                sort: None,
                max_depth: usize::MAX,
                num_threads: 0,
                skip_hidden: true,
                preload_metadata: false,
                process_entries: None,
            }),
    {
        WalkDir {
            root,
            options: WalkDirOptions {
                sort: None,
                max_depth: usize::MAX,
                num_threads: 0,
                skip_hidden: true,
                preload_metadata: false,
                process_entries: None,
            },
        }
    }
}

impl<P: ProcessEntries> WalkDir<P> {
    /// The path at which the walk starts.
    pub closed spec fn spec_root(&self) -> &Vec<u8> {
        &self.root
    }

    /// The settings of the walk.
    pub closed spec fn spec_options(&self) -> &WalkDirOptions<P> {
        &self.options
    }

    /// The path at which the walk starts.
    #[verifier::when_used_as_spec(spec_root)]
    pub fn root(&self) -> (r: &Vec<u8>)
        ensures
            r == self.root(),
    {
        &self.root
    }

    /// The settings of the walk.
    #[verifier::when_used_as_spec(spec_options)]
    pub fn options(&self) -> (r: &WalkDirOptions<P>)
        ensures
            r == self.options(),
    {
        &self.options
    }

    /// Sets the greatest depth of the entries of the walk. The root is at
    /// depth 0, the entries of the root directory at depth 1, and so on.
    ///
    /// With a depth of 1 a single directory is read, so the number of threads
    /// becomes 1.
    pub fn max_depth(self, depth: usize) -> (r: Self)
        ensures
            r.root() == self.root(),
            *r.options() == (WalkDirOptions {
                max_depth: depth,
                num_threads: if depth == 1 {
                    1
                } else {
                    self.options().num_threads
                },
                ..*self.options()
            }),
    {
        let mut walk = self;
        walk.options.max_depth = depth;
        if depth == 1 {
            walk.options.num_threads = 1;
        }
        walk
    }

    /// Sets the order of the entries of each directory, or none.
    pub fn sort(self, sort: Option<Sort>) -> (r: Self)
        ensures
            r.root() == self.root(),
            *r.options() == (WalkDirOptions { sort, ..*self.options() }),
    {
        let mut walk = self;
        walk.options.sort = sort;
        walk
    }

    /// Sets the number of threads: 0 for the caller's default pool, 1 to read
    /// every directory on the thread that walks, a greater number for a pool
    /// of that many threads.
    pub fn num_threads(self, n: usize) -> (r: Self)
        ensures
            r.root() == self.root(),
            *r.options() == (WalkDirOptions { num_threads: n, ..*self.options() }),
    {
        let mut walk = self;
        walk.options.num_threads = n;
        walk
    }

    /// Sets whether entries whose name starts with a dot are skipped.
    pub fn skip_hidden(self, skip_hidden: bool) -> (r: Self)
        ensures
            r.root() == self.root(),
            *r.options() == (WalkDirOptions { skip_hidden, ..*self.options() }),
    {
        let mut walk = self;
        walk.options.skip_hidden = skip_hidden;
        walk
    }

    /// Sets whether the attributes of each entry are loaded where its
    /// directory is read.
    pub fn preload_metadata(self, preload_metadata: bool) -> (r: Self)
        ensures
            r.root() == self.root(),
            *r.options() == (WalkDirOptions { preload_metadata, ..*self.options() }),
    {
        let mut walk = self;
        walk.options.preload_metadata = preload_metadata;
        walk
    }

    /// Sets the transform that each listing is handed to before the walk
    /// yields its entries. The transform may filter and reorder the listing,
    /// and keeps the walk from descending below an entry by setting the
    /// entry's `children_spec` to `None`.
    pub fn process_entries<Q: ProcessEntries>(self, process_by: Q) -> (r: WalkDir<Q>)
        ensures
            r.root() == self.root(),
            *r.options() == (WalkDirOptions::<Q> {
                sort: self.options().sort,
                max_depth: self.options().max_depth,
                num_threads: self.options().num_threads,
                skip_hidden: self.options().skip_hidden,
                preload_metadata: self.options().preload_metadata,
                process_entries: Some(Arc::new(process_by)),
            }),
    {
        WalkDir {
            root: self.root,
            options: WalkDirOptions {
                sort: self.options.sort,
                max_depth: self.options.max_depth,
                num_threads: self.options.num_threads,
                skip_hidden: self.options.skip_hidden,
                preload_metadata: self.options.preload_metadata,
                process_entries: Some(Arc::new(process_by)),
            },
        }
    }

    /// Turns the builder into a walk that is ready to run, given the type of
    /// the file at the root path, or the error met in asking for it.
    ///
    /// The root entry is the one item of the outermost listing. Where the
    /// walk descends below it, the task of reading the root directory is the
    /// one task to begin with.
    pub fn into_iter(self, root_type: Result<FileType, IoError>) -> (r: Walk<P>)
        ensures
            r.options == *self.options(),
            r.iter.wf(),
            r.iter@.stack.len() == 1,
            r.iter@.stack[0].entries.len() == 1,
            r.iter@.stack[0].entries[0] matches Ok(root) && r.iter@ == WalkState::start(root)
                && self.options().is_root(self.root()@, root_type, root) && task_views(r.tasks@)
                == tasks_for(0, branches(seq![Ok::<DirEntry, IoError>(root)])),
    {
        let root = self.options.root_entry(self.root, root_type);
        let (iter, tasks) = DirEntryIter::new(root);
        Walk { options: self.options, iter, tasks }
    }
}

} // verus!
