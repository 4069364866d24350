use std::path::{Path, PathBuf};

use tempdir::TempDir;
use walkdir::WalkDir;
use where_is::finder::is_named;
use where_is::{Finder, Outcome};

/// Creates the directories of `rel` (components split on '/') under `base`.
fn make_dirs(base: &Path, rel: &str) {
    let mut cur = base.to_path_buf();
    for part in rel.split('/') {
        if !cur.join(part).exists() {
            tempfile::Builder::new()
                .prefix(part)
                .rand_bytes(0)
                .keep(true)
                .tempdir_in(&cur)
                .unwrap();
        }
        cur = cur.join(part);
    }
}

fn collect(root: &Path, target: &str) -> Vec<PathBuf> {
    let mut iter = Finder::new(root, target).into_iter();
    let mut out = Vec::new();
    while let Some(e) = iter.next() {
        out.push(e.path().to_path_buf());
    }
    out
}

#[test]
fn find_missing_file() {
    let tmp_dir = TempDir::new("test_where_is").unwrap();
    make_dirs(tmp_dir.path(), "a/b/c");

    let finder = Finder::new(tmp_dir.path(), "does_not_exist");
    let mut iter = finder.into_iter();

    assert!(iter.next().is_none());
}

#[test]
fn find_non_recursive_file() {
    let tmp_dir = TempDir::new("test_where_is").unwrap();
    make_dirs(tmp_dir.path(), "a/b/c");

    let finder = Finder::new(tmp_dir.path(), "a");
    let mut iter = finder.into_iter();

    assert_eq!(tmp_dir.path().join("a"), iter.next().unwrap().path());
    assert!(iter.next().is_none());
}

#[test]
fn find_repeated_recursive_file() {
    let tmp_dir = TempDir::new("test_where_is").unwrap();
    make_dirs(tmp_dir.path(), "a/b/c/a");

    let finder = Finder::new(tmp_dir.path(), "a");
    let mut iter = finder.into_iter();

    assert_eq!(tmp_dir.path().join("a"), iter.next().unwrap().path());
    assert_eq!(tmp_dir.path().join("a/b/c/a"), iter.next().unwrap().path());
    assert!(iter.next().is_none());
}

#[test]
fn every_entry_handed_out_is_named_target() {
    let tmp_dir = TempDir::new("test_where_is").unwrap();
    make_dirs(tmp_dir.path(), "x/y/x");
    make_dirs(tmp_dir.path(), "z/xx");
    make_dirs(tmp_dir.path(), "z/X");
    let found = collect(tmp_dir.path(), "x");
    assert_eq!(found.len(), 2);
    for p in &found {
        assert_eq!(p.file_name().unwrap(), "x");
    }
}

#[test]
fn root_named_target_comes_first() {
    let tmp_dir = TempDir::new("test_where_is").unwrap();
    make_dirs(tmp_dir.path(), "a/b/a");
    let root = tmp_dir.path().join("a");
    let found = collect(&root, "a");
    assert_eq!(found, vec![root.clone(), root.join("b/a")]);
}

#[test]
fn matches_in_sibling_subtrees_are_all_found() {
    let tmp_dir = TempDir::new("test_where_is").unwrap();
    make_dirs(tmp_dir.path(), "p/t");
    make_dirs(tmp_dir.path(), "q/t");
    make_dirs(tmp_dir.path(), "q/r/t");
    let mut found = collect(tmp_dir.path(), "t");
    found.sort();
    let mut expected = vec![
        tmp_dir.path().join("p/t"),
        tmp_dir.path().join("q/t"),
        tmp_dir.path().join("q/r/t"),
    ];
    expected.sort();
    assert_eq!(found, expected);
}

#[test]
fn match_is_exact_and_case_sensitive() {
    let tmp_dir = TempDir::new("test_where_is").unwrap();
    make_dirs(tmp_dir.path(), "abc/Abc");
    assert!(collect(tmp_dir.path(), "ab").is_empty());
    assert!(collect(tmp_dir.path(), "ABC").is_empty());
    assert!(collect(tmp_dir.path(), "abc/Abc").is_empty());
    assert_eq!(collect(tmp_dir.path(), "Abc"), vec![tmp_dir.path().join("abc/Abc")]);
}

#[test]
fn missing_root_gives_nothing() {
    let tmp_dir = TempDir::new("test_where_is").unwrap();
    let mut iter = Finder::new(tmp_dir.path().join("absent"), "absent").into_iter();
    assert!(iter.next().is_none());
    assert!(iter.next().is_none());
}

#[test]
fn finished_iterator_stays_finished() {
    let tmp_dir = TempDir::new("test_where_is").unwrap();
    make_dirs(tmp_dir.path(), "a");
    let mut iter = Finder::new(tmp_dir.path(), "a").into_iter();
    assert!(iter.next().is_some());
    assert!(iter.next().is_none());
    assert!(iter.next().is_none());
}

#[test]
fn two_finders_give_the_same_sequence() {
    let tmp_dir = TempDir::new("test_where_is").unwrap();
    make_dirs(tmp_dir.path(), "a/b/a");
    make_dirs(tmp_dir.path(), "c/a");
    make_dirs(tmp_dir.path(), "d/e/f/a");
    let first = collect(tmp_dir.path(), "a");
    let second = collect(tmp_dir.path(), "a");
    assert_eq!(first.len(), 4);
    assert_eq!(first, second);
}

#[test]
fn take_hands_out_entry_named_target() {
    let tmp_dir = TempDir::new("test_where_is").unwrap();
    make_dirs(tmp_dir.path(), "a");
    let path = tmp_dir.path().join("a");
    let mut iter = Finder::new(tmp_dir.path(), "a").into_iter();
    let pulled = WalkDir::new(&path).into_iter().next();
    match iter.take(pulled) {
        Outcome::Found(e) => assert_eq!(e.path(), path.as_path()),
        _ => panic!("the entry named a was not handed out"),
    }
}

#[test]
fn take_passes_over_other_names() {
    let tmp_dir = TempDir::new("test_where_is").unwrap();
    make_dirs(tmp_dir.path(), "b");
    let mut iter = Finder::new(tmp_dir.path(), "a").into_iter();
    let pulled = WalkDir::new(tmp_dir.path().join("b")).into_iter().next();
    assert!(matches!(iter.take(pulled), Outcome::Skipped));
}

#[test]
fn take_finishes_at_end_of_walk() {
    let tmp_dir = TempDir::new("test_where_is").unwrap();
    make_dirs(tmp_dir.path(), "a");
    let mut iter = Finder::new(tmp_dir.path(), "a").into_iter();
    assert!(matches!(iter.take(None), Outcome::Finished));
    assert!(iter.next().is_none());
}

#[test]
fn traversal_error_ends_the_sequence() {
    let tmp_dir = TempDir::new("test_where_is").unwrap();
    make_dirs(tmp_dir.path(), "a/b/a");
    let mut iter = Finder::new(tmp_dir.path(), "a").into_iter();
    let failure = WalkDir::new(tmp_dir.path().join("absent")).into_iter().next();
    assert!(matches!(failure, Some(Err(_))));
    assert!(matches!(iter.take(failure), Outcome::Finished));
    assert!(iter.next().is_none());
    assert!(iter.next().is_none());
}

#[test]
fn is_named_compares_exactly() {
    let target = "a".to_string();
    assert!(is_named(&Some("a".to_string()), &target));
    assert!(!is_named(&Some("A".to_string()), &target));
    assert!(!is_named(&Some("ab".to_string()), &target));
    assert!(!is_named(&Some(String::new()), &target));
}

#[test]
fn is_named_without_final_component_matches_nothing() {
    assert!(!is_named(&None, &"a".to_string()));
    assert!(!is_named(&None, &String::new()));
}

#[test]
fn root_without_final_component_is_skipped() {
    let tmp_dir = TempDir::new("test_where_is").unwrap();
    make_dirs(tmp_dir.path(), "a/b");
    let root = tmp_dir.path().join("a/b/..");
    assert_eq!(collect(&root, ".."), Vec::<PathBuf>::new());
    assert_eq!(collect(&root, "b"), vec![root.join("b")]);
}
