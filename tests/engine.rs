use dir_diff::diff::{diff, classify, DiffRecord, Error, RootTree, WalkItem};
use dir_diff::entry::{entries_differ, is_dir, Entry, ErrorKind, FileKind};
use dir_diff::path::{ancestor_of, compare_bytes, compare_paths, PathKey};

fn key(s: &str) -> PathKey {
    PathKey::new(s.split('/').filter(|c| !c.is_empty()).map(|c| c.as_bytes().to_vec()).collect())
}

fn found(p: &str, kind: FileKind, len: u64) -> WalkItem {
    WalkItem::Found { path: key(p), metadata: Ok((kind, len)) }
}

fn tree(root: &str, items: Vec<WalkItem>) -> RootTree {
    let mut t = RootTree::new(key(root));
    for item in &items {
        assert!(t.admits(item));
        t.record(item);
    }
    t
}

fn paths(records: &[DiffRecord]) -> Vec<String> {
    records
        .iter()
        .map(|r| {
            let parts: Vec<String> = r.path.parts.iter().map(|c| String::from_utf8(c.clone()).unwrap()).collect();
            format!("/{}", parts.join("/"))
        })
        .collect()
}

fn run(trees: Vec<RootTree>, filter: bool) -> Vec<String> {
    let d = diff(trees.into_iter().map(Some).collect()).unwrap();
    paths(&d.diff_paths(filter))
}

#[test]
fn file_size_change_is_one_record() {
    let a = tree("/a", vec![found("/a", FileKind::Dir, 4096), found("/a/x", FileKind::File, 10)]);
    let b = tree("/b", vec![found("/b", FileKind::Dir, 4096), found("/b/x", FileKind::File, 20)]);
    let d = diff(vec![Some(a), Some(b)]).unwrap();
    let recs = d.diff_paths(true);
    assert_eq!(paths(&recs), vec!["/x".to_string()]);
    assert_eq!(recs[0].columns.len(), 2);
    assert!(matches!(recs[0].columns[0], Some(Entry::Metadata(FileKind::File, 10))));
    assert!(matches!(recs[0].columns[1], Some(Entry::Metadata(FileKind::File, 20))));
}

#[test]
fn missing_directory_hides_its_children() {
    let a = tree(
        "/a",
        vec![found("/a", FileKind::Dir, 0), found("/a/dir", FileKind::Dir, 0), found("/a/dir/a.txt", FileKind::File, 3)],
    );
    let b = tree("/b", vec![found("/b", FileKind::Dir, 0)]);
    let d = diff(vec![Some(a), Some(b)]).unwrap();
    let recs = d.diff_paths(true);
    assert_eq!(paths(&recs), vec!["/dir".to_string()]);
    assert!(recs[0].columns[1].is_none());
    assert_eq!(paths(&d.diff_paths(false)), vec!["/dir".to_string(), "/dir/a.txt".to_string()]);
}

#[test]
fn identical_directories_give_no_records() {
    let a = tree(
        "/a",
        vec![found("/a", FileKind::Dir, 0), found("/a/dir", FileKind::Dir, 64), found("/a/dir/a.txt", FileKind::File, 5)],
    );
    let b = tree(
        "/b",
        vec![found("/b", FileKind::Dir, 0), found("/b/dir", FileKind::Dir, 64), found("/b/dir/a.txt", FileKind::File, 5)],
    );
    assert!(run(vec![a, b], true).is_empty());
}

#[test]
fn metadata_against_metadata_error_differs() {
    let a = tree("/a", vec![found("/a", FileKind::Dir, 0), found("/a/p", FileKind::File, 1)]);
    let b = tree(
        "/b",
        vec![
            found("/b", FileKind::Dir, 0),
            WalkItem::Found { path: key("/b/p"), metadata: Err(Some(ErrorKind::PermissionDenied)) },
        ],
    );
    assert_eq!(run(vec![a, b], true), vec!["/p".to_string()]);
}

#[test]
fn root_against_itself_is_empty() {
    let items = || vec![found("/r", FileKind::Dir, 0), found("/r/d", FileKind::Dir, 0), found("/r/d/f", FileKind::File, 9)];
    assert!(run(vec![tree("/r", items()), tree("/r", items())], true).is_empty());
    assert!(run(vec![tree("/r", items()), tree("/r", items())], false).is_empty());
}

#[test]
fn absent_path_is_reported_with_or_without_filter() {
    let a = tree("/a", vec![found("/a", FileKind::Dir, 0), found("/a/only", FileKind::File, 1)]);
    let b = tree("/b", vec![found("/b", FileKind::Dir, 0)]);
    assert_eq!(run(vec![a, b], true), vec!["/only".to_string()]);
    let a = tree("/a", vec![found("/a", FileKind::Dir, 0), found("/a/only", FileKind::File, 1)]);
    let b = tree("/b", vec![found("/b", FileKind::Dir, 0)]);
    assert_eq!(run(vec![a, b], false), vec!["/only".to_string()]);
}

#[test]
fn filter_hides_every_depth_below_a_differing_directory() {
    let a = tree(
        "/a",
        vec![
            found("/a", FileKind::Dir, 0),
            found("/a/d", FileKind::Dir, 0),
            found("/a/d/s", FileKind::Dir, 0),
            found("/a/d/s/f", FileKind::File, 1),
        ],
    );
    let b = tree("/b", vec![found("/b", FileKind::Dir, 0), found("/b/d", FileKind::File, 0)]);
    assert_eq!(run(vec![a, b], true), vec!["/d".to_string()]);
}

#[test]
fn entry_errors_compare_equal() {
    let err = |p: &str| WalkItem::Failed { at: Some(key(p)), io_error: None };
    let a = tree("/a", vec![found("/a", FileKind::Dir, 0), err("/a/e")]);
    let b = tree("/b", vec![found("/b", FileKind::Dir, 0), err("/b/e")]);
    assert!(run(vec![a, b], true).is_empty());
    let a = tree("/a", vec![found("/a", FileKind::Dir, 0), err("/a/e")]);
    let b = tree("/b", vec![found("/b", FileKind::Dir, 0), found("/b/e", FileKind::File, 0)]);
    assert_eq!(run(vec![a, b], true), vec!["/e".to_string()]);
}

#[test]
fn io_errors_compare_by_kind() {
    let io = |p: &str, k: ErrorKind| WalkItem::Failed { at: Some(key(p)), io_error: Some(k) };
    let a = tree("/a", vec![io("/a/e", ErrorKind::PermissionDenied)]);
    let b = tree("/b", vec![io("/b/e", ErrorKind::PermissionDenied)]);
    assert!(run(vec![a, b], true).is_empty());
    let a = tree("/a", vec![io("/a/e", ErrorKind::PermissionDenied)]);
    let b = tree("/b", vec![io("/b/e", ErrorKind::NotFound)]);
    assert_eq!(run(vec![a, b], true), vec!["/e".to_string()]);
}

#[test]
fn repeated_runs_agree() {
    let make = || {
        vec![
            tree("/a", vec![found("/a/z", FileKind::File, 1), found("/a/b", FileKind::File, 2), found("/a/m", FileKind::Dir, 0)]),
            tree("/b", vec![found("/b/m", FileKind::File, 0), found("/b/z", FileKind::File, 3)]),
        ]
    };
    let first = run(make(), true);
    assert_eq!(first, run(make(), true));
    assert_eq!(first, vec!["/b".to_string(), "/m".to_string(), "/z".to_string()]);
}

#[test]
fn neighbours_follow_root_order() {
    let x = |r: &str, len: u64| tree(r, vec![found(&format!("{}/x", r), FileKind::File, len)]);
    let d = diff(vec![Some(x("/a", 1)), Some(x("/b", 1)), Some(x("/c", 2))]).unwrap();
    let fwd = d.diff_paths(true);
    let d = diff(vec![Some(x("/c", 2)), Some(x("/b", 1)), Some(x("/a", 1))]).unwrap();
    let rev = d.diff_paths(true);
    assert_eq!(paths(&fwd), paths(&rev));
    assert!(matches!(fwd[0].columns[2], Some(Entry::Metadata(FileKind::File, 2))));
    assert!(matches!(rev[0].columns[0], Some(Entry::Metadata(FileKind::File, 2))));
}

#[test]
fn directory_sizes_are_not_compared() {
    let a = tree("/a", vec![found("/a/d", FileKind::Dir, 4096)]);
    let b = tree("/b", vec![found("/b/d", FileKind::Dir, 8192)]);
    assert!(run(vec![a, b], true).is_empty());
}

#[test]
fn kind_change_with_equal_size_differs() {
    let a = tree("/a", vec![found("/a/d", FileKind::Dir, 0)]);
    let b = tree("/b", vec![found("/b/d", FileKind::File, 0)]);
    assert_eq!(run(vec![a, b], true), vec!["/d".to_string()]);
}

#[test]
fn lost_walk_fails_the_run() {
    let a = tree("/a", vec![found("/a", FileKind::Dir, 0)]);
    let r = diff(vec![Some(a), None]);
    assert!(matches!(r, Err(Error::ThreadError)));
}

#[test]
fn trees_keep_root_order() {
    let d = diff(vec![Some(tree("/b", vec![])), Some(tree("/a", vec![]))]).unwrap();
    assert_eq!(d.tree_count(), 2);
    assert_eq!(d.root(0).parts, vec![b"b".to_vec()]);
    assert_eq!(d.root(1).parts, vec![b"a".to_vec()]);
}

#[test]
fn later_item_replaces_earlier() {
    let a = tree("/a", vec![found("/a/x", FileKind::File, 1), found("/a/x", FileKind::File, 7)]);
    assert!(matches!(a.get(&key("/x")), Some(Entry::Metadata(FileKind::File, 7))));
    assert!(a.get(&key("/y")).is_none());
}

#[test]
fn item_without_path_is_dropped() {
    let mut t = RootTree::new(key("/a"));
    let item = WalkItem::Failed { at: None, io_error: Some(ErrorKind::Other) };
    assert!(t.admits(&item));
    t.record(&item);
    assert!(t.get(&key("")).is_none());
}

#[test]
fn item_outside_root_is_not_admitted() {
    let t = RootTree::new(key("/a/b"));
    assert!(!t.admits(&found("/a/c", FileKind::File, 0)));
    assert!(!t.admits(&found("/a", FileKind::Dir, 0)));
    assert!(t.admits(&found("/a/b", FileKind::Dir, 0)));
}

#[test]
fn one_tree_reports_nothing() {
    assert!(run(vec![tree("/a", vec![found("/a/x", FileKind::File, 1)])], true).is_empty());
    assert!(run(vec![], true).is_empty());
}

#[test]
fn classification_of_items() {
    assert!(matches!(classify(&found("/a", FileKind::Other, 3)), Entry::Metadata(FileKind::Other, 3)));
    let m = WalkItem::Found { path: key("/a"), metadata: Err(None) };
    assert!(matches!(classify(&m), Entry::MetadataError(None)));
    let f = WalkItem::Failed { at: None, io_error: Some(ErrorKind::TimedOut) };
    assert!(matches!(classify(&f), Entry::EntryIoError(ErrorKind::TimedOut)));
    let g = WalkItem::Failed { at: None, io_error: None };
    assert!(matches!(classify(&g), Entry::EntryError));
}

#[test]
fn column_rules() {
    let file = |n: u64| Some(Entry::Metadata(FileKind::File, n));
    assert!(!entries_differ(file(1), file(1)));
    assert!(entries_differ(file(1), file(2)));
    assert!(!entries_differ(Some(Entry::Metadata(FileKind::Dir, 1)), Some(Entry::Metadata(FileKind::Dir, 2))));
    assert!(entries_differ(None, file(1)));
    assert!(entries_differ(None, None));
    assert!(entries_differ(Some(Entry::EntryError), file(0)));
    assert!(!entries_differ(Some(Entry::MetadataError(None)), Some(Entry::MetadataError(None))));
    assert!(entries_differ(Some(Entry::MetadataError(None)), Some(Entry::MetadataError(Some(ErrorKind::Other)))));
    assert!(is_dir(Some(Entry::Metadata(FileKind::Dir, 0))));
    assert!(!is_dir(Some(Entry::Metadata(FileKind::File, 0))));
    assert!(!is_dir(None));
}

#[test]
fn path_order() {
    assert_eq!(compare_bytes(&b"a".to_vec(), &b"b".to_vec()), -1);
    assert_eq!(compare_bytes(&b"ab".to_vec(), &b"a".to_vec()), 1);
    assert_eq!(compare_bytes(&b"ab".to_vec(), &b"ab".to_vec()), 0);
    assert_eq!(compare_paths(&key("/a/b"), &key("/a-b")), -1);
    assert_eq!(compare_paths(&key("/a"), &key("/a/b")), -1);
    assert_eq!(compare_paths(&key("/b"), &key("/a/z")), 1);
    assert!(ancestor_of(&key("/a"), &key("/a/b/c")));
    assert!(!ancestor_of(&key("/a/b"), &key("/a/b")));
    assert!(!ancestor_of(&key("/a/c"), &key("/a/b/c")));
    assert_eq!(key("/a/b/c").subpath(1).parts, vec![b"b".to_vec(), b"c".to_vec()]);
}

#[test]
fn records_sorted_by_components() {
    let a = tree("/a", vec![found("/a/a-b", FileKind::File, 1), found("/a/a", FileKind::Dir, 0), found("/a/a/b", FileKind::File, 1)]);
    let b = tree("/b", vec![]);
    assert_eq!(run(vec![a, b], false), vec!["/a".to_string(), "/a/b".to_string(), "/a-b".to_string()]);
}
