//! Tests of single-buffer indexing: word offsets within one string.

use word_index::index::index_string;

const LOREM: &str = "Lorem ipsum dolor sit amet, consectetur adipiscing elit, sed do eiusmod tempor incididunt ut labore et dolore magna aliqua. Ut enim ad minim veniam, quis nostrud exercitation ullamco laboris nisi ut aliquip ex ea commodo consequat. Duis aute irure dolor in reprehenderit in voluptate velit esse cillum dolore eu fugiat nulla pariatur. Excepteur sint occaecat cupidatat non proident, sunt in culpa qui officia deserunt mollit anim id est laborum.";

#[test]
fn test_short() {
    let map = index_string("a b a");
    assert_eq!(map.offsets_for("a".as_bytes()).unwrap(), &vec![0, 4]);
    assert_eq!(map.offsets_for("b".as_bytes()).unwrap(), &vec![2]);
}

#[test]
fn main_test_short() {
    let map = index_string("a b a");
    println!("{:?}", map.offsets_for("a".as_bytes()));
    assert_eq!(map.offsets_for("a".as_bytes()).unwrap(), &vec![0, 4]);
    assert_eq!(map.offsets_for("b".as_bytes()).unwrap(), &vec![2]);
}

#[test]
fn test_long() {
    let map = index_string(LOREM);
    assert_eq!(map.offsets_for("Lorem".as_bytes()).unwrap().len(), 1);
    assert_eq!(map.offsets_for("dolor".as_bytes()).unwrap().len(), 2);
    assert_eq!(map.offsets_for("dolore".as_bytes()).unwrap().len(), 2);
}

#[test]
fn main_test_long() {
    let map = index_string(LOREM);
    println!("{:?}", map.offsets_for("Lorem".as_bytes()));
    assert_eq!(map.offsets_for("Lorem".as_bytes()).unwrap().len(), 1);
    assert_eq!(map.offsets_for("dolor".as_bytes()).unwrap().len(), 2);
    assert_eq!(map.offsets_for("dolore".as_bytes()).unwrap().len(), 2);
}

#[test]
fn test_cyrillic() {
    let map = index_string("привіт привіт");
    assert_eq!(map.offsets_for("привіт".as_bytes()).unwrap(), &vec![0, 13]);
}

#[test]
fn main_test_cyrillic() {
    let map = index_string("привіт привіт");
    println!("{:?}", map.offsets_for("привіт".as_bytes()));
    assert_eq!(map.offsets_for("привіт".as_bytes()).unwrap(), &vec![0, 13]);
}

#[test]
fn all_separators_split_words() {
    let map = index_string("one,two;three.four five");
    assert_eq!(map.offsets_for("one".as_bytes()).unwrap(), &vec![0]);
    assert_eq!(map.offsets_for("two".as_bytes()).unwrap(), &vec![4]);
    assert_eq!(map.offsets_for("three".as_bytes()).unwrap(), &vec![8]);
    assert_eq!(map.offsets_for("four".as_bytes()).unwrap(), &vec![14]);
    assert_eq!(map.offsets_for("five".as_bytes()).unwrap(), &vec![19]);
    assert_eq!(map.word_count(), 5);
}

#[test]
fn consecutive_separators_yield_no_empty_word() {
    let map = index_string("a,, ..b");
    assert_eq!(map.word_count(), 2);
    assert_eq!(map.offsets_for("a".as_bytes()).unwrap(), &vec![0]);
    assert_eq!(map.offsets_for("b".as_bytes()).unwrap(), &vec![6]);
    assert!(map.offsets_for("".as_bytes()).is_none());
}

#[test]
fn empty_and_separator_only_input() {
    assert_eq!(index_string("").word_count(), 0);
    assert_eq!(index_string(" .,; . ").word_count(), 0);
}

#[test]
fn word_is_not_found_inside_a_longer_word() {
    let map = index_string("dolore dolor");
    assert_eq!(map.offsets_for("dolor".as_bytes()).unwrap(), &vec![7]);
    assert_eq!(map.offsets_for("dolore".as_bytes()).unwrap(), &vec![0]);
    assert!(map.offsets_for("dolo".as_bytes()).is_none());
}

#[test]
fn indexing_twice_yields_identical_content() {
    let first = index_string(LOREM);
    let second = index_string(LOREM);
    assert_eq!(first.word_count(), second.word_count());
    for word in LOREM.split([' ', ',', ';', '.']) {
        if !word.is_empty() {
            assert_eq!(
                first.offsets_for(word.as_bytes()).unwrap(),
                second.offsets_for(word.as_bytes()).unwrap()
            );
        }
    }
}
