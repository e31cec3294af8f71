use jwalk::{
    DirEntry, EntryResult, FileType, IoError, ProcessEntries, RawEntry, ReadDirSpec, Sort, Step,
    Task, Walk, WalkDir,
};
use std::collections::VecDeque;
use std::sync::Arc;

// The tree that the walks below run on:
//
// test_dir/
//   a.txt
//   b.txt
//   c.txt
//   .hidden
//   group 1/
//     d.txt
//   group 2/
//     e.txt
//     .hidden_file.txt

fn test_dir() -> Vec<u8> {
    b"/tmp/assets/test_dir".to_vec()
}

fn file(name: &str) -> Result<RawEntry, IoError> {
    Ok(RawEntry { file_name: name.as_bytes().to_vec(), file_type: Ok(FileType::File), metadata: None })
}

fn dir(name: &str) -> Result<RawEntry, IoError> {
    Ok(RawEntry { file_name: name.as_bytes().to_vec(), file_type: Ok(FileType::Dir), metadata: None })
}

fn not_found() -> IoError {
    IoError { code: Some(2), message: "No such file or directory".to_string() }
}

/// What reading the directory at `path` reports. The order is the one a file
/// system might give: none in particular.
fn read(path: &[u8]) -> Result<Vec<Result<RawEntry, IoError>>, IoError> {
    match String::from_utf8(path.to_vec()).unwrap().as_str() {
        "/tmp/assets/test_dir" => Ok(vec![
            file("c.txt"),
            dir("group 2"),
            file(".hidden"),
            file("a.txt"),
            dir("group 1"),
            file("b.txt"),
        ]),
        "/tmp/assets/test_dir/group 1" => Ok(vec![file("d.txt")]),
        "/tmp/assets/test_dir/group 2" => Ok(vec![file(".hidden_file.txt"), file("e.txt")]),
        _ => Err(not_found()),
    }
}

fn type_of(path: &[u8]) -> Result<FileType, IoError> {
    match String::from_utf8(path.to_vec()).unwrap().as_str() {
        "/tmp/assets/test_dir" | "/tmp/assets/test_dir/group 1" | "/tmp/assets/test_dir/group 2" => {
            Ok(FileType::Dir)
        },
        "/tmp/assets/test_dir/a.txt"
        | "/tmp/assets/test_dir/b.txt"
        | "/tmp/assets/test_dir/c.txt"
        | "/tmp/assets/test_dir/.hidden"
        | "/tmp/assets/test_dir/group 1/d.txt"
        | "/tmp/assets/test_dir/group 2/e.txt"
        | "/tmp/assets/test_dir/group 2/.hidden_file.txt" => Ok(FileType::File),
        _ => Err(not_found()),
    }
}

/// Runs a walk to its end. With one thread a directory is read when the walk
/// reaches it. With the default pool every directory is read as soon as it is
/// known, first known first. With a pool of its own the directories are read
/// ahead of the walk too, but last known first and a few at a time.
fn walk_all<P: ProcessEntries>(walk_dir: WalkDir<P>) -> Vec<EntryResult> {
    let root = walk_dir.root().clone();
    let Walk { options, mut iter, tasks } = walk_dir.into_iter(type_of(&root));
    let workers = options.workers();
    let mut queue: VecDeque<Task> = VecDeque::new();
    queue.extend(tasks);
    let mut items = Vec::new();
    loop {
        let mut budget = match workers {
            0 => usize::MAX,
            1 => 0,
            n => n,
        };
        while budget > 0 && !queue.is_empty() {
            let task = if workers == 0 { queue.pop_front().unwrap() } else { queue.pop_back().unwrap() };
            if iter.is_pending(task.node) {
                assert!(task.spec.depth < usize::MAX);
                let listing = options.read_dir(&task.spec, read(&task.spec.path));
                queue.extend(iter.publish(task.node, listing));
                budget -= 1;
            }
        }
        match iter.next() {
            Step::Entry(item) => items.push(item),
            Step::Pending(task) => {
                assert!(iter.is_pending(task.node));
                assert!(task.spec.depth < usize::MAX);
                let listing = options.read_dir(&task.spec, read(&task.spec.path));
                let found = iter.publish(task.node, listing);
                if workers != 1 {
                    queue.extend(found);
                }
            },
            Step::Done => break,
        }
    }
    assert!(matches!(iter.next(), Step::Done));
    items
}

fn local_path(entry: &DirEntry) -> String {
    let path = entry.path();
    let root = test_dir();
    assert!(path.starts_with(&root));
    let mut local = &path[root.len()..];
    if local.first() == Some(&b'/') {
        local = &local[1..];
    }
    format!("{} ({})", String::from_utf8(local.to_vec()).unwrap(), entry.depth())
}

fn local_paths<P: ProcessEntries>(walk_dir: WalkDir<P>) -> Vec<String> {
    walk_all(walk_dir).iter().map(|each_result| local_path(each_result.as_ref().unwrap())).collect()
}

#[test]
fn test_walk() {
    let paths = local_paths(WalkDir::new(test_dir()));
    assert!(paths.contains(&"b.txt (1)".to_string()));
    assert!(paths.contains(&"group 1 (1)".to_string()));
    assert!(paths.contains(&"group 1/d.txt (2)".to_string()));
}

#[test]
fn test_sort_by_name_single_thread() {
    let paths = local_paths(WalkDir::new(test_dir()).num_threads(1).sort(Some(Sort::Name)));
    assert!(
        paths
            == vec![
                " (0)",
                "a.txt (1)",
                "b.txt (1)",
                "c.txt (1)",
                "group 1 (1)",
                "group 1/d.txt (2)",
                "group 2 (1)",
                "group 2/e.txt (2)",
            ]
    );
}

#[test]
fn test_sort_by_name_rayon_pool_global() {
    let paths = local_paths(WalkDir::new(test_dir()).sort(Some(Sort::Name)));
    assert!(
        paths
            == vec![
                " (0)",
                "a.txt (1)",
                "b.txt (1)",
                "c.txt (1)",
                "group 1 (1)",
                "group 1/d.txt (2)",
                "group 2 (1)",
                "group 2/e.txt (2)",
            ]
    );
}

#[test]
fn test_sort_by_name_rayon_pool_2_threads() {
    let paths = local_paths(WalkDir::new(test_dir()).num_threads(2).sort(Some(Sort::Name)));
    assert!(
        paths
            == vec![
                " (0)",
                "a.txt (1)",
                "b.txt (1)",
                "c.txt (1)",
                "group 1 (1)",
                "group 1/d.txt (2)",
                "group 2 (1)",
                "group 2/e.txt (2)",
            ]
    );
}

#[test]
fn test_see_hidden_files() {
    let paths = local_paths(WalkDir::new(test_dir()).skip_hidden(false).sort(Some(Sort::Name)));
    assert!(paths.contains(&"group 2/.hidden_file.txt (2)".to_string()));
}

#[test]
fn test_max_depth() {
    let paths = local_paths(WalkDir::new(test_dir()).max_depth(1).sort(Some(Sort::Name)));
    assert!(
        paths
            == vec![
                " (0)",
                "a.txt (1)",
                "b.txt (1)",
                "c.txt (1)",
                "group 1 (1)",
                "group 2 (1)",
            ]
    );
}

#[test]
fn test_walk_file() {
    let walk_dir = WalkDir::new(jwalk::join(&test_dir(), &b"a.txt".to_vec()));
    let root = walk_dir.root().clone();
    let Walk { mut iter, tasks, .. } = walk_dir.into_iter(type_of(&root));
    assert!(tasks.is_empty());
    match iter.next() {
        Step::Entry(item) => {
            assert!(String::from_utf8(item.unwrap().file_name().clone()).unwrap() == "a.txt");
        },
        _ => panic!("the walk of a file yields the file"),
    }
    assert!(matches!(iter.next(), Step::Done));
}

#[test]
fn hidden_files_are_listed_in_full_when_asked_for() {
    let paths = local_paths(WalkDir::new(test_dir()).skip_hidden(false).sort(Some(Sort::Name)));
    assert_eq!(
        paths,
        vec![
            " (0)",
            ".hidden (1)",
            "a.txt (1)",
            "b.txt (1)",
            "c.txt (1)",
            "group 1 (1)",
            "group 1/d.txt (2)",
            "group 2 (1)",
            "group 2/.hidden_file.txt (2)",
            "group 2/e.txt (2)",
        ]
    );
}

#[test]
fn unsorted_walk_keeps_the_order_read() {
    let paths = local_paths(WalkDir::new(test_dir()).num_threads(1));
    assert_eq!(
        paths,
        vec![
            " (0)",
            "c.txt (1)",
            "group 2 (1)",
            "group 2/e.txt (2)",
            "a.txt (1)",
            "group 1 (1)",
            "group 1/d.txt (2)",
            "b.txt (1)",
        ]
    );
}

#[test]
fn unsorted_walks_agree_whatever_the_number_of_threads() {
    let serial = local_paths(WalkDir::new(test_dir()).num_threads(1));
    let pool = local_paths(WalkDir::new(test_dir()).num_threads(2));
    let global = local_paths(WalkDir::new(test_dir()).num_threads(0));
    let mut sorted = vec![serial.clone(), pool.clone(), global.clone()];
    for paths in sorted.iter_mut() {
        paths.sort();
    }
    assert_eq!(sorted[0], sorted[1]);
    assert_eq!(sorted[0], sorted[2]);
    // the order is the same one at that
    assert_eq!(serial, pool);
    assert_eq!(serial, global);
    // every parent stands before what is below it
    for paths in [&serial, &pool, &global] {
        let at = |name: &str| paths.iter().position(|path| path == name).unwrap();
        assert_eq!(at(" (0)"), 0);
        assert!(at("group 1 (1)") < at("group 1/d.txt (2)"));
        assert!(at("group 2 (1)") < at("group 2/e.txt (2)"));
    }
}

#[test]
fn no_entry_is_deeper_than_the_cap() {
    for cap in 0..4usize {
        for threads in 0..3usize {
            let items = walk_all(WalkDir::new(test_dir()).num_threads(threads).max_depth(cap));
            for item in items.iter() {
                assert!(item.as_ref().unwrap().depth() <= cap);
            }
        }
    }
}

#[test]
fn no_hidden_entry_is_yielded_by_default() {
    for item in walk_all(WalkDir::new(test_dir())).iter() {
        assert_ne!(item.as_ref().unwrap().file_name().first(), Some(&b'.'));
    }
}

#[test]
fn each_entry_is_one_below_its_parent() {
    let items = walk_all(WalkDir::new(test_dir()).sort(Some(Sort::Name)));
    let mut seen_root = false;
    for item in items.iter() {
        let entry = item.as_ref().unwrap();
        match entry.parent_spec() {
            None => {
                assert!(!seen_root);
                seen_root = true;
                assert_eq!(entry.depth(), 0);
            },
            Some(parent) => {
                assert_eq!(entry.depth(), parent.depth + 1);
                let above = items
                    .iter()
                    .map(|other| other.as_ref().unwrap())
                    .find(|other| other.path() == parent.path)
                    .unwrap();
                assert_eq!(entry.depth(), above.depth() + 1);
            },
        }
    }
    assert!(seen_root);
}

#[test]
fn depth_zero_yields_the_root_alone() {
    let paths = local_paths(WalkDir::new(test_dir()).max_depth(0));
    assert_eq!(paths, vec![" (0)"]);
}

#[test]
fn depth_one_reads_on_one_thread() {
    let walk_dir = WalkDir::new(test_dir()).num_threads(8).max_depth(1);
    assert_eq!(walk_dir.options().num_threads, 1);
    assert_eq!(walk_dir.options().workers(), 1);
    let walk_dir = WalkDir::new(test_dir()).max_depth(1).num_threads(8);
    assert_eq!(walk_dir.options().num_threads, 8);
    assert_eq!(walk_dir.options().workers(), 1);
    let walk_dir = WalkDir::new(test_dir()).max_depth(2).num_threads(8);
    assert_eq!(walk_dir.options().workers(), 8);
}

#[test]
fn root_that_does_not_exist_is_an_entry_without_a_type() {
    let walk_dir = WalkDir::new(b"/tmp/assets/missing".to_vec());
    let items = walk_all(walk_dir);
    assert_eq!(items.len(), 1);
    let root = items[0].as_ref().unwrap();
    assert_eq!(root.file_name(), &b"missing".to_vec());
    assert_eq!(root.file_type().as_ref().unwrap_err().code, Some(2));
    assert!(root.children_spec().is_none());
    assert!(root.metadata().is_none());
    assert_eq!(root.path(), b"/tmp/assets/missing".to_vec());
}

/// Keeps the walk from descending below any entry.
struct NoDescent;

impl ProcessEntries for NoDescent {
    fn process(&self, entries: &mut Vec<EntryResult>) {
        for each in entries.iter_mut() {
            if let Ok(entry) = each {
                entry.set_children_spec(None);
            }
        }
    }
}

#[test]
fn transform_that_clears_every_children_spec_stops_below_the_root() {
    for threads in 0..3usize {
        let paths = local_paths(
            WalkDir::new(test_dir())
                .num_threads(threads)
                .sort(Some(Sort::Name))
                .process_entries(NoDescent),
        );
        assert_eq!(
            paths,
            vec![" (0)", "a.txt (1)", "b.txt (1)", "c.txt (1)", "group 1 (1)", "group 2 (1)"]
        );
    }
}

/// Reverses each listing and drops the text files whose name starts with `b`.
struct Backwards;

impl ProcessEntries for Backwards {
    fn process(&self, entries: &mut Vec<EntryResult>) {
        entries.retain(|each| match each {
            Ok(entry) => entry.file_name().first() != Some(&b'b'),
            Err(_) => true,
        });
        entries.reverse();
    }
}

#[test]
fn transform_runs_on_the_sorted_listing() {
    let paths = local_paths(
        WalkDir::new(test_dir()).sort(Some(Sort::Name)).process_entries(Backwards),
    );
    assert_eq!(
        paths,
        vec![
            " (0)",
            "group 2 (1)",
            "group 2/e.txt (2)",
            "group 1 (1)",
            "group 1/d.txt (2)",
            "c.txt (1)",
            "a.txt (1)",
        ]
    );
}

/// Sends the walk below `group 1` into `group 2` instead.
struct Redirect;

impl ProcessEntries for Redirect {
    fn process(&self, entries: &mut Vec<EntryResult>) {
        for each in entries.iter_mut() {
            if let Ok(entry) = each {
                if entry.file_name() == &b"group 1".to_vec() {
                    let other = ReadDirSpec::new(
                        b"/tmp/assets/test_dir/group 2".to_vec(),
                        entry.depth(),
                        Some(b"sent".to_vec()),
                    );
                    entry.set_children_spec(Some(Arc::new(other)));
                }
            }
        }
    }
}

#[test]
fn transform_that_sets_another_spec_sends_the_walk_there() {
    let items = walk_all(
        WalkDir::new(test_dir()).num_threads(1).sort(Some(Sort::Name)).process_entries(Redirect),
    );
    let paths: Vec<String> = items.iter().map(|item| local_path(item.as_ref().unwrap())).collect();
    assert_eq!(
        paths,
        vec![
            " (0)",
            "a.txt (1)",
            "b.txt (1)",
            "c.txt (1)",
            "group 1 (1)",
            "group 2/e.txt (2)",
            "group 2 (1)",
            "group 2/e.txt (2)",
        ]
    );
    let sent = items[5].as_ref().unwrap().parent_spec().as_ref().unwrap();
    assert_eq!(sent.state, Some(b"sent".to_vec()));
}

/// The tree above with a directory that cannot be opened between the groups.
fn read_with_locked(path: &[u8]) -> Result<Vec<Result<RawEntry, IoError>>, IoError> {
    match String::from_utf8(path.to_vec()).unwrap().as_str() {
        "/tmp/assets/test_dir" => {
            let mut entries = read(path).unwrap();
            entries.push(dir("group 1b"));
            Ok(entries)
        },
        "/tmp/assets/test_dir/group 1b" => {
            Err(IoError { code: Some(13), message: "Permission denied".to_string() })
        },
        _ => read(path),
    }
}

fn walk_with_locked(threads: usize) -> Vec<String> {
    let walk_dir = WalkDir::new(test_dir()).num_threads(threads).sort(Some(Sort::Name));
    let Walk { options, mut iter, tasks } = walk_dir.into_iter(Ok(FileType::Dir));
    let mut queue: Vec<Task> = tasks;
    let mut seen = Vec::new();
    loop {
        if threads != 1 {
            while let Some(task) = queue.pop() {
                let listing = options.read_dir(&task.spec, read_with_locked(&task.spec.path));
                queue.extend(iter.publish(task.node, listing));
            }
        }
        match iter.next() {
            Step::Entry(Ok(entry)) => seen.push(local_path(&entry)),
            Step::Entry(Err(error)) => seen.push(format!("error {}", error.code.unwrap())),
            Step::Pending(task) => {
                let listing = options.read_dir(&task.spec, read_with_locked(&task.spec.path));
                iter.publish(task.node, listing);
            },
            Step::Done => break,
        }
    }
    seen
}

#[test]
fn directory_that_cannot_be_opened_yields_one_error_in_its_place() {
    for threads in 0..3usize {
        assert_eq!(
            walk_with_locked(threads),
            vec![
                " (0)",
                "a.txt (1)",
                "b.txt (1)",
                "c.txt (1)",
                "group 1 (1)",
                "group 1/d.txt (2)",
                "error 13",
                "group 2 (1)",
                "group 2/e.txt (2)",
            ]
        );
    }
}

#[test]
fn root_directory_that_cannot_be_opened_yields_its_error() {
    let walk_dir = WalkDir::new(b"/tmp/assets/nowhere".to_vec());
    let Walk { options, mut iter, tasks } = walk_dir.into_iter(Ok(FileType::Dir));
    assert_eq!(tasks.len(), 1);
    assert_eq!(tasks[0].node, 0);
    assert_eq!(tasks[0].spec.path, b"/tmp/assets/nowhere".to_vec());
    assert_eq!(tasks[0].spec.depth, 0);
    let listing = options.read_dir(&tasks[0].spec, read(&tasks[0].spec.path));
    assert!(iter.publish(0, listing).is_empty());
    match iter.next() {
        Step::Entry(Err(error)) => assert_eq!(error.code, Some(2)),
        _ => panic!("the error of the root directory comes first"),
    }
    assert!(matches!(iter.next(), Step::Done));
}

#[test]
fn walking_each_yielded_directory_once_gives_the_same_entries() {
    let whole = local_paths(WalkDir::new(test_dir()).skip_hidden(false).sort(Some(Sort::Name)));
    let mut again: Vec<String> = vec![" (0)".to_string()];
    for item in walk_all(WalkDir::new(test_dir()).skip_hidden(false).sort(Some(Sort::Name))) {
        let entry = item.unwrap();
        if entry.children_spec().is_some() {
            let below = walk_all(WalkDir::new(entry.path()).skip_hidden(false).max_depth(1));
            for each in below.iter().skip(1) {
                let each = each.as_ref().unwrap();
                let path = each.path();
                let local = String::from_utf8(path[test_dir().len() + 1..].to_vec()).unwrap();
                again.push(format!("{} ({})", local, entry.depth() + each.depth()));
            }
        }
    }
    let mut whole_sorted = whole.clone();
    whole_sorted.sort();
    again.sort();
    assert_eq!(whole_sorted, again);
}
