use jwalk::sort::name_less;
use jwalk::{
    DirEntry, DirEntryIter, EntryResult, FileType, IoError, Metadata, RawEntry, ReadDir,
    ReadDirSpec, Sort, Step, Unprocessed, WalkDir, WalkDirOptions,
};
use std::sync::Arc;

fn spec(path: &str, depth: usize) -> Arc<ReadDirSpec> {
    Arc::new(ReadDirSpec::new(path.as_bytes().to_vec(), depth, None))
}

fn raw(name: &str, file_type: FileType) -> Result<RawEntry, IoError> {
    Ok(RawEntry { file_name: name.as_bytes().to_vec(), file_type: Ok(file_type), metadata: None })
}

fn broken(code: i32) -> IoError {
    IoError { code: Some(code), message: format!("error {}", code) }
}

fn times(name: &str, accessed: Option<i128>, created: Option<i128>, modified: Option<i128>) -> Result<
    RawEntry,
    IoError,
> {
    Ok(RawEntry {
        file_name: name.as_bytes().to_vec(),
        file_type: Ok(FileType::File),
        metadata: Some(Ok(Metadata { file_type: FileType::File, len: 7, accessed, created, modified })),
    })
}

fn options() -> WalkDirOptions<Unprocessed> {
    WalkDirOptions {
        sort: None,
        max_depth: usize::MAX,
        skip_hidden: true,
        num_threads: 0,
        preload_metadata: false,
        process_entries: None,
    }
}

fn label(item: &EntryResult) -> String {
    match item {
        Ok(entry) => String::from_utf8(entry.file_name().clone()).unwrap(),
        Err(error) => format!("error {}", error.code.unwrap()),
    }
}

fn labels(items: &[EntryResult]) -> Vec<String> {
    items.iter().map(label).collect()
}

fn drain(listing: ReadDir) -> Vec<EntryResult> {
    let mut listing = listing;
    let mut items = Vec::new();
    while let Some(item) = listing.next() {
        items.push(item);
    }
    items
}

#[test]
fn builder_starts_from_the_defaults() {
    let walk_dir = WalkDir::new(b"foo".to_vec());
    assert_eq!(walk_dir.root(), &b"foo".to_vec());
    let options = walk_dir.options();
    assert!(options.sort.is_none());
    assert_eq!(options.max_depth, usize::MAX);
    assert_eq!(options.num_threads, 0);
    assert!(options.skip_hidden);
    assert!(!options.preload_metadata);
    assert!(options.process_entries.is_none());
}

#[test]
fn builder_sets_one_setting_at_a_time() {
    let walk_dir = WalkDir::new(b"foo".to_vec())
        .sort(Some(Sort::Modification))
        .num_threads(3)
        .skip_hidden(false)
        .preload_metadata(true)
        .max_depth(5);
    let options = walk_dir.options();
    assert_eq!(options.sort, Some(Sort::Modification));
    assert_eq!(options.max_depth, 5);
    assert_eq!(options.num_threads, 3);
    assert!(!options.skip_hidden);
    assert!(options.preload_metadata);
    assert_eq!(walk_dir.root(), &b"foo".to_vec());
    let walk_dir = walk_dir.sort(None).process_entries(Unprocessed);
    assert!(walk_dir.options().sort.is_none());
    assert_eq!(walk_dir.options().max_depth, 5);
    assert_eq!(walk_dir.options().num_threads, 3);
    assert!(walk_dir.options().process_entries.is_some());
}

#[test]
fn copy_of_the_options_keeps_every_setting() {
    let walk_dir = WalkDir::new(b"foo".to_vec())
        .sort(Some(Sort::Name))
        .num_threads(3)
        .skip_hidden(false)
        .preload_metadata(true)
        .max_depth(5)
        .process_entries(Unprocessed);
    let copy = walk_dir.options().clone();
    assert_eq!(copy.sort, Some(Sort::Name));
    assert_eq!(copy.max_depth, 5);
    assert_eq!(copy.num_threads, 3);
    assert!(!copy.skip_hidden);
    assert!(copy.preload_metadata);
    assert!(copy.process_entries.is_some());
}

#[test]
fn metadata_is_loaded_for_the_caller_or_for_an_order_by_time() {
    let mut options = options();
    assert!(!options.loads_metadata());
    options.sort = Some(Sort::Name);
    assert!(!options.loads_metadata());
    options.sort = Some(Sort::Access);
    assert!(options.loads_metadata());
    options.sort = Some(Sort::Creation);
    assert!(options.loads_metadata());
    options.sort = Some(Sort::Modification);
    assert!(options.loads_metadata());
    options.sort = None;
    options.preload_metadata = true;
    assert!(options.loads_metadata());
}

#[test]
fn names_are_kept_unless_hidden_and_skipped() {
    let mut options = options();
    assert!(options.keeps(&b"a.txt".to_vec()));
    assert!(!options.keeps(&b".git".to_vec()));
    assert!(options.keeps(&b"".to_vec()));
    options.skip_hidden = false;
    assert!(options.keeps(&b".git".to_vec()));
}

#[test]
fn names_compare_as_byte_strings() {
    assert!(name_less(&b"a".to_vec(), &b"b".to_vec()));
    assert!(!name_less(&b"b".to_vec(), &b"a".to_vec()));
    assert!(!name_less(&b"a".to_vec(), &b"a".to_vec()));
    assert!(name_less(&b"a".to_vec(), &b"ab".to_vec()));
    assert!(!name_less(&b"ab".to_vec(), &b"a".to_vec()));
    assert!(name_less(&b"".to_vec(), &b"a".to_vec()));
    assert!(!name_less(&b"".to_vec(), &b"".to_vec()));
    assert!(name_less(&b"B".to_vec(), &b"a".to_vec()));
    assert!(name_less(&b"group 1".to_vec(), &b"group 2".to_vec()));
    assert!(name_less(&b"a".to_vec(), &vec![0xff]));
    assert!(name_less(&b"abc".to_vec(), &b"abd".to_vec()));
}

#[test]
fn file_types_tell_themselves_apart() {
    assert!(FileType::Dir.is_dir());
    assert!(!FileType::Dir.is_file());
    assert!(FileType::File.is_file());
    assert!(!FileType::File.is_symlink());
    assert!(FileType::Symlink.is_symlink());
    assert!(!FileType::Other.is_dir() && !FileType::Other.is_file() && !FileType::Other.is_symlink());
}

#[test]
fn listing_hands_out_from_first_to_last_once() {
    let parent = spec("/r", 0);
    let items = options().admit_all(
        &parent,
        vec![raw("x", FileType::File), Err(broken(5)), raw("y", FileType::File)],
    );
    let mut listing = ReadDir::new(items);
    assert_eq!(listing.len(), 3);
    assert!(!listing.is_done());
    assert_eq!(label(listing.get(0)), "x");
    assert_eq!(label(listing.get(2)), "y");
    assert_eq!(label(&listing.next().unwrap()), "x");
    assert_eq!(listing.len(), 2);
    assert_eq!(label(listing.get(0)), "error 5");
    assert_eq!(label(&listing.next().unwrap()), "error 5");
    assert_eq!(label(&listing.next().unwrap()), "y");
    assert!(listing.is_done());
    assert!(listing.next().is_none());
    assert!(listing.next().is_none());
    assert_eq!(listing.len(), 0);
}

#[test]
fn empty_listing_is_done() {
    let mut listing = ReadDir::new(Vec::new());
    assert!(listing.is_done());
    assert!(listing.next().is_none());
}

#[test]
fn entries_are_admitted_one_level_below_their_directory() {
    let parent = spec("/r/sub", 3);
    let mut options = options();
    options.max_depth = 5;
    let items = options.admit_all(
        &parent,
        vec![
            raw("file", FileType::File),
            raw(".hid", FileType::File),
            Err(broken(9)),
            raw("dir", FileType::Dir),
            raw("link", FileType::Symlink),
            Ok(RawEntry { file_name: b"odd".to_vec(), file_type: Err(broken(4)), metadata: None }),
        ],
    );
    assert_eq!(labels(&items), vec!["file", "error 9", "dir", "link", "odd"]);
    let file = items[0].as_ref().unwrap();
    assert_eq!(file.depth(), 4);
    assert_eq!(file.file_name(), &b"file".to_vec());
    assert_eq!(file.file_type().as_ref().unwrap(), &FileType::File);
    assert!(file.metadata().is_none());
    assert!(file.children_spec().is_none());
    assert_eq!(file.path(), b"/r/sub/file".to_vec());
    let above = file.parent_spec().as_ref().unwrap();
    assert_eq!(above.path, b"/r/sub".to_vec());
    assert_eq!(above.depth, 3);
    let dir = items[2].as_ref().unwrap();
    let below = dir.children_spec().as_ref().unwrap();
    assert_eq!(below.path, b"/r/sub/dir".to_vec());
    assert_eq!(below.depth, 4);
    assert!(below.state.is_none());
    assert!(items[3].as_ref().unwrap().children_spec().is_none());
    let odd = items[4].as_ref().unwrap();
    assert_eq!(odd.file_type().as_ref().unwrap_err().code, Some(4));
    assert!(odd.children_spec().is_none());
}

#[test]
fn directory_at_the_depth_cap_is_not_descended_below() {
    let mut options = options();
    options.max_depth = 4;
    let items = options.admit_all(&spec("/r", 3), vec![raw("dir", FileType::Dir)]);
    assert_eq!(items[0].as_ref().unwrap().depth(), 4);
    assert!(items[0].as_ref().unwrap().children_spec().is_none());
    options.max_depth = 5;
    let items = options.admit_all(&spec("/r", 3), vec![raw("dir", FileType::Dir)]);
    assert!(items[0].as_ref().unwrap().children_spec().is_some());
}

#[test]
fn hidden_entries_stay_where_they_are_not_skipped() {
    let mut options = options();
    options.skip_hidden = false;
    let items = options.admit_all(
        &spec("/r", 0),
        vec![raw(".a", FileType::File), raw("b", FileType::File), raw(".c", FileType::Dir)],
    );
    assert_eq!(labels(&items), vec![".a", "b", ".c"]);
    assert!(items[2].as_ref().unwrap().children_spec().is_some());
}

#[test]
fn metadata_is_attached_only_where_it_is_loaded() {
    let mut options = options();
    let items = options.admit_all(&spec("/r", 0), vec![times("a", Some(1), Some(2), Some(3))]);
    assert!(items[0].as_ref().unwrap().metadata().is_none());
    options.preload_metadata = true;
    let items = options.admit_all(
        &spec("/r", 0),
        vec![
            times("a", Some(1), Some(2), Some(3)),
            Ok(RawEntry {
                file_name: b"b".to_vec(),
                file_type: Ok(FileType::File),
                metadata: Some(Err(broken(13))),
            }),
        ],
    );
    let metadata = items[0].as_ref().unwrap().metadata().as_ref().unwrap().as_ref().unwrap();
    assert_eq!(metadata.len, 7);
    assert_eq!(metadata.accessed, Some(1));
    assert_eq!(metadata.created, Some(2));
    assert_eq!(metadata.modified, Some(3));
    let failed = items[1].as_ref().unwrap().metadata().as_ref().unwrap().as_ref().unwrap_err();
    assert_eq!(failed.code, Some(13));
}

#[test]
fn sort_by_name_puts_errors_last_and_keeps_their_order() {
    let mut items = options().admit_all(
        &spec("/r", 0),
        vec![
            Err(broken(1)),
            raw("b", FileType::File),
            Err(broken(2)),
            raw("a", FileType::File),
            raw("ab", FileType::Dir),
            Err(broken(3)),
            raw("B", FileType::File),
        ],
    );
    Sort::Name.perform_sort(&mut items);
    assert_eq!(labels(&items), vec!["B", "a", "ab", "b", "error 1", "error 2", "error 3"]);
}

#[test]
fn sort_keeps_entries_of_one_name_in_the_order_read() {
    let mut items = options().admit_all(
        &spec("/r", 0),
        vec![
            raw("same", FileType::File),
            raw("a", FileType::File),
            raw("same", FileType::Dir),
            raw("same", FileType::Symlink),
        ],
    );
    Sort::Name.perform_sort(&mut items);
    assert_eq!(labels(&items), vec!["a", "same", "same", "same"]);
    assert_eq!(items[1].as_ref().unwrap().file_type().as_ref().unwrap(), &FileType::File);
    assert_eq!(items[2].as_ref().unwrap().file_type().as_ref().unwrap(), &FileType::Dir);
    assert_eq!(items[3].as_ref().unwrap().file_type().as_ref().unwrap(), &FileType::Symlink);
}

#[test]
fn sort_by_a_time_puts_earlier_first_and_unknown_times_behind() {
    let read = || {
        vec![
            times("a", Some(30), Some(-5), None),
            Err(broken(1)),
            times("b", Some(10), None, Some(2)),
            raw("c", FileType::File),
            times("d", Some(20), Some(-7), Some(1)),
            times("e", Some(10), Some(0), Some(2)),
        ]
    };
    let mut options = options();
    options.sort = Some(Sort::Access);
    let items = options.list(&spec("/r", 0), read());
    assert_eq!(labels(&items), vec!["b", "e", "d", "a", "c", "error 1"]);
    assert!(items[0].as_ref().unwrap().metadata().is_some());
    options.sort = Some(Sort::Creation);
    let items = options.list(&spec("/r", 0), read());
    assert_eq!(labels(&items), vec!["d", "a", "e", "b", "c", "error 1"]);
    options.sort = Some(Sort::Modification);
    let items = options.list(&spec("/r", 0), read());
    assert_eq!(labels(&items), vec!["d", "b", "e", "a", "c", "error 1"]);
}

#[test]
fn sort_of_many_entries_is_in_order() {
    let mut read = Vec::new();
    let mut seed: u32 = 7;
    for _ in 0..500 {
        seed = seed.wrapping_mul(1103515245).wrapping_add(12345);
        read.push(raw(&format!("f{:03}", (seed >> 16) % 200), FileType::File));
    }
    let mut items = options().admit_all(&spec("/r", 0), read);
    Sort::Name.perform_sort(&mut items);
    assert_eq!(items.len(), 500);
    for pair in items.windows(2) {
        assert!(pair[0].as_ref().unwrap().file_name() <= pair[1].as_ref().unwrap().file_name());
    }
    Sort::Name.perform_sort(&mut items);
    assert_eq!(items.len(), 500);
    let mut none: Vec<EntryResult> = Vec::new();
    Sort::Name.perform_sort(&mut none);
    assert!(none.is_empty());
}

#[test]
fn comes_before_is_strict() {
    let items = options().admit_all(
        &spec("/r", 0),
        vec![raw("a", FileType::File), raw("b", FileType::File), Err(broken(1)), Err(broken(2))],
    );
    assert!(Sort::Name.comes_before(&items[0], &items[1]));
    assert!(!Sort::Name.comes_before(&items[1], &items[0]));
    assert!(!Sort::Name.comes_before(&items[0], &items[0]));
    assert!(Sort::Name.comes_before(&items[1], &items[2]));
    assert!(!Sort::Name.comes_before(&items[2], &items[1]));
    assert!(!Sort::Name.comes_before(&items[2], &items[3]));
    assert!(!Sort::Name.comes_before(&items[3], &items[2]));
    // without attributes an order by time tells no two entries apart
    assert!(!Sort::Access.comes_before(&items[0], &items[1]));
    assert!(!Sort::Access.comes_before(&items[1], &items[0]));
    assert!(Sort::Access.comes_before(&items[1], &items[2]));
}

#[test]
fn read_dir_gives_the_error_of_a_directory_that_cannot_be_read() {
    let result = options().read_dir(&spec("/r", 0), Err(broken(13)));
    assert_eq!(result.unwrap_err().code, Some(13));
}

#[test]
fn read_dir_filters_then_sorts() {
    let mut options = options();
    options.sort = Some(Sort::Name);
    let listing = options
        .read_dir(
            &spec("/r", 0),
            Ok(vec![raw("b", FileType::File), raw(".z", FileType::File), raw("a", FileType::File)]),
        )
        .unwrap();
    assert_eq!(labels(&drain(listing)), vec!["a", "b"]);
}

#[test]
fn root_entry_descends_below_a_directory_within_the_cap() {
    let mut options = options();
    let root = options.root_entry(b"/r/top/".to_vec(), Ok(FileType::Dir));
    assert_eq!(root.depth(), 0);
    assert_eq!(root.file_name(), &b"top".to_vec());
    assert_eq!(root.path(), b"/r/top/".to_vec());
    assert!(root.parent_spec().is_none());
    assert!(root.metadata().is_none());
    let below = root.children_spec().as_ref().unwrap();
    assert_eq!(below.path, b"/r/top/".to_vec());
    assert_eq!(below.depth, 0);
    assert!(below.state.is_none());
    options.max_depth = 0;
    assert!(options.root_entry(b"/r/top".to_vec(), Ok(FileType::Dir)).children_spec().is_none());
    options.max_depth = 1;
    assert!(options.root_entry(b"/r/top".to_vec(), Ok(FileType::Dir)).children_spec().is_some());
    assert!(options.root_entry(b"/r/top".to_vec(), Ok(FileType::File)).children_spec().is_none());
    assert!(options.root_entry(b"/r/top".to_vec(), Ok(FileType::Symlink)).children_spec().is_none());
    assert!(options.root_entry(b"/r/top".to_vec(), Err(broken(2))).children_spec().is_none());
}

#[test]
fn set_children_spec_changes_nothing_else() {
    let parent = spec("/r", 0);
    let mut entry = DirEntry::new(parent, b"d".to_vec(), Ok(FileType::Dir), None, None);
    assert!(entry.children_spec().is_none());
    entry.set_children_spec(Some(spec("/elsewhere", 9)));
    assert_eq!(entry.children_spec().as_ref().unwrap().path, b"/elsewhere".to_vec());
    assert_eq!(entry.children_spec().as_ref().unwrap().depth, 9);
    assert_eq!(entry.depth(), 1);
    assert_eq!(entry.file_name(), &b"d".to_vec());
    assert_eq!(entry.path(), b"/r/d".to_vec());
    entry.set_children_spec(None);
    assert!(entry.children_spec().is_none());
}

#[test]
fn read_dir_spec_keeps_what_it_is_given() {
    let spec = ReadDirSpec::new(b"/p".to_vec(), 4, Some(b"state".to_vec()));
    assert_eq!(spec.path, b"/p".to_vec());
    assert_eq!(spec.depth, 4);
    assert_eq!(spec.state, Some(b"state".to_vec()));
}

#[test]
fn result_for_a_node_that_does_not_wait_is_dropped() {
    let options = options();
    let root = options.root_entry(b"/r".to_vec(), Ok(FileType::Dir));
    let (mut iter, tasks) = DirEntryIter::new(root);
    assert_eq!(tasks.len(), 1);
    assert!(iter.is_pending(0));
    assert!(!iter.is_pending(1));
    // no such node
    let listing = options.read_dir(&tasks[0].spec, Ok(vec![raw("lost", FileType::File)]));
    assert!(iter.publish(7, listing).is_empty());
    assert!(iter.is_pending(0));
    let listing = options.read_dir(
        &tasks[0].spec,
        Ok(vec![raw("a", FileType::Dir), raw("b", FileType::File), raw("c", FileType::Dir)]),
    );
    let found = iter.publish(0, listing);
    assert_eq!(found.len(), 2);
    assert_eq!((found[0].node, found[1].node), (1, 2));
    assert_eq!(found[0].spec.path, b"/r/a".to_vec());
    assert_eq!(found[1].spec.path, b"/r/c".to_vec());
    assert_eq!(found[0].spec.depth, 1);
    assert!(!iter.is_pending(0));
    // a second result for the same node
    let listing = options.read_dir(&tasks[0].spec, Ok(vec![raw("late", FileType::File)]));
    assert!(iter.publish(0, listing).is_empty());
    // results may arrive in any order
    let listing = options.read_dir(&found[1].spec, Ok(vec![raw("y", FileType::File)]));
    assert!(iter.publish(2, listing).is_empty());
    let mut seen = Vec::new();
    loop {
        match iter.next() {
            Step::Entry(item) => seen.push(label(&item)),
            Step::Pending(task) => {
                seen.push(format!("wait {}", task.node));
                assert_eq!(task.node, 1);
                assert_eq!(task.spec.path, b"/r/a".to_vec());
                let listing = options.read_dir(&task.spec, Ok(vec![raw("x", FileType::File)]));
                assert!(iter.publish(task.node, listing).is_empty());
            },
            Step::Done => break,
        }
    }
    assert_eq!(seen, vec!["r", "wait 1", "a", "x", "b", "c", "y"]);
    assert!(matches!(iter.next(), Step::Done));
}

#[test]
fn waiting_walk_stays_where_it_is() {
    let options = options();
    let root = options.root_entry(b"/r".to_vec(), Ok(FileType::Dir));
    let (mut iter, _tasks) = DirEntryIter::new(root);
    for _ in 0..3 {
        match iter.next() {
            Step::Pending(task) => assert_eq!(task.node, 0),
            _ => panic!("the walk waits for the root directory"),
        }
    }
}

#[test]
fn copy_of_the_options_lists_in_the_same_order() {
    let walk_dir = WalkDir::new(b"/r".to_vec()).sort(Some(Sort::Name));
    let copy = walk_dir.options().clone();
    let read = || vec![raw("b", FileType::File), raw("c", FileType::File), raw("a", FileType::File)];
    let listed = walk_dir.options().list(&spec("/r", 0), read());
    let again = copy.list(&spec("/r", 0), read());
    assert_eq!(labels(&listed), vec!["a", "b", "c"]);
    assert_eq!(labels(&again), vec!["a", "b", "c"]);
}
