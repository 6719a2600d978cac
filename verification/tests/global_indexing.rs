//! Tests of per-file global indexing, merging, and the depth-bounded
//! selection of walked files.

use word_index::global::{index_content, merge_maps, GlobalIndex};
use word_index::snapshot::render_snapshot;
use word_index::walk::{resolve_max_depth, resolve_workers, select_files, WalkEntry, UNBOUNDED_DEPTH};

const LOREM: &str = "Lorem ipsum dolor sit amet, consectetur adipiscing elit, sed do eiusmod tempor incididunt ut labore et dolore magna aliqua. Ut enim ad minim veniam, quis nostrud exercitation ullamco laboris nisi ut aliquip ex ea commodo consequat. Duis aute irure dolor in reprehenderit in voluptate velit esse cillum dolore eu fugiat nulla pariatur. Excepteur sint occaecat cupidatat non proident, sunt in culpa qui officia deserunt mollit anim id est laborum.";

#[test]
fn one_lorem_file_counts() {
    let g = index_content("./test_data/lorem1".as_bytes(), LOREM.as_bytes());
    let lorem = g.files_for("Lorem".as_bytes()).unwrap();
    assert_eq!(lorem.len(), 1);
    assert_eq!(lorem[0].offsets.len(), 1);
    let dolor = g.files_for("dolor".as_bytes()).unwrap();
    assert_eq!(dolor.len(), 1);
    assert_eq!(dolor[0].offsets.len(), 2);
    let dolore = g.files_for("dolore".as_bytes()).unwrap();
    assert_eq!(dolore.len(), 1);
    assert_eq!(dolore[0].offsets.len(), 2);
}

#[test]
fn merge_collects_files_under_one_word() {
    let mut g = GlobalIndex::new();
    merge_maps(&mut g, index_content("f1".as_bytes(), "x y".as_bytes()));
    merge_maps(&mut g, index_content("f2".as_bytes(), "y z".as_bytes()));
    let x = g.files_for("x".as_bytes()).unwrap();
    assert_eq!(x.len(), 1);
    assert_eq!(x[0].path, "f1".as_bytes().to_vec());
    let y = g.files_for("y".as_bytes()).unwrap();
    assert_eq!(y.len(), 2);
    assert_eq!(y[0].path, "f1".as_bytes().to_vec());
    assert_eq!(y[0].offsets, vec![2]);
    assert_eq!(y[1].path, "f2".as_bytes().to_vec());
    assert_eq!(y[1].offsets, vec![0]);
    assert!(g.files_for("w".as_bytes()).is_none());
}

#[test]
fn merge_order_does_not_change_the_result() {
    let parts = [
        ("dir/a", "a b a"),
        ("dir/b", "b c"),
        ("dir/c", "c a b"),
    ];
    let mut forward = GlobalIndex::new();
    for (path, text) in parts.iter() {
        merge_maps(&mut forward, index_content(path.as_bytes(), text.as_bytes()));
    }
    let mut backward = GlobalIndex::new();
    for (path, text) in parts.iter().rev() {
        merge_maps(&mut backward, index_content(path.as_bytes(), text.as_bytes()));
    }
    assert_eq!(render_snapshot(&forward), render_snapshot(&backward));
}

#[test]
fn duplicate_arrival_appends_and_loses_nothing() {
    let mut g = GlobalIndex::new();
    merge_maps(&mut g, index_content("f".as_bytes(), "a b a".as_bytes()));
    merge_maps(&mut g, index_content("f".as_bytes(), "a b a".as_bytes()));
    let a = g.files_for("a".as_bytes()).unwrap();
    assert_eq!(a.len(), 1);
    assert_eq!(a[0].offsets, vec![0, 4, 0, 4]);
}

#[test]
fn empty_run_yields_empty_index() {
    let g = GlobalIndex::new();
    assert_eq!(g.word_count(), 0);
    assert_eq!(render_snapshot(&g), "{}".as_bytes().to_vec());
}

fn entry(path: &str, depth: usize, is_file: bool) -> WalkEntry {
    WalkEntry { path: path.as_bytes().to_vec(), depth, is_file }
}

#[test]
fn depth_bound_selects_only_shallow_files() {
    let entries = vec![
        entry(".", 0, false),
        entry("./top", 0, true),
        entry("./d1", 1, false),
        entry("./d1/one", 1, true),
        entry("./d1/d2/two", 2, true),
        entry("./d1/d2/d3/three", 3, true),
        entry("./d1/d2/d3/d4/four", 4, true),
    ];
    let selected = select_files(&entries, 1);
    let expected: Vec<Vec<u8>> = vec!["./top".as_bytes().to_vec(), "./d1/one".as_bytes().to_vec()];
    assert_eq!(selected, expected);

    let all = select_files(&entries, resolve_max_depth(0));
    assert_eq!(all.len(), 5);
}

#[test]
fn depth_zero_means_unbounded_and_other_values_stand() {
    assert_eq!(resolve_max_depth(0), UNBOUNDED_DEPTH);
    assert_eq!(resolve_max_depth(3), 3);
}

#[test]
fn worker_count_zero_means_host_parallelism() {
    assert_eq!(resolve_workers(0, 8), 8);
    assert_eq!(resolve_workers(4, 8), 4);
    assert_eq!(resolve_workers(1, 1), 1);
}
