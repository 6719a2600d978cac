//! Tests of the snapshot writer: exact output, determinism, and that the
//! rendered document is well-formed JSON with the expected content.

use word_index::global::{index_content, merge_maps, GlobalIndex};
use word_index::snapshot::render_snapshot;

#[test]
fn snapshot_of_a_small_index_is_exact() {
    let g = index_content("f".as_bytes(), "a b a".as_bytes());
    let rendered = String::from_utf8(render_snapshot(&g)).unwrap();
    let expected = "{\n  \"a\": {\n    \"f\": [\n      0,\n      4\n    ]\n  },\n  \"b\": {\n    \"f\": [\n      2\n    ]\n  }\n}";
    assert_eq!(rendered, expected);
}

#[test]
fn snapshot_keys_are_sorted_by_byte_value() {
    let mut g = GlobalIndex::new();
    merge_maps(&mut g, index_content("zz".as_bytes(), "beta".as_bytes()));
    merge_maps(&mut g, index_content("aa".as_bytes(), "beta alpha".as_bytes()));
    let rendered = String::from_utf8(render_snapshot(&g)).unwrap();
    let alpha_at = rendered.find("\"alpha\"").unwrap();
    let beta_at = rendered.find("\"beta\"").unwrap();
    assert!(alpha_at < beta_at);
    let aa_at = rendered.find("\"aa\"").unwrap();
    let zz_at = rendered.find("\"zz\"").unwrap();
    assert!(aa_at < zz_at);
}

#[test]
fn snapshot_parses_as_json_with_the_expected_content() {
    let mut g = GlobalIndex::new();
    merge_maps(&mut g, index_content("f1".as_bytes(), "a b a".as_bytes()));
    merge_maps(&mut g, index_content("f2".as_bytes(), "b".as_bytes()));
    let rendered = render_snapshot(&g);
    let parsed: serde_json::Value = serde_json::from_slice(&rendered).unwrap();
    let expected: serde_json::Value =
        serde_json::from_str("{\"a\":{\"f1\":[0,4]},\"b\":{\"f1\":[2],\"f2\":[0]}}").unwrap();
    assert_eq!(parsed, expected);
}

#[test]
fn quotes_and_backslashes_in_words_are_escaped() {
    let g = index_content("f".as_bytes(), "sa\"id back\\slash".as_bytes());
    let rendered = render_snapshot(&g);
    let parsed: serde_json::Value = serde_json::from_slice(&rendered).unwrap();
    assert!(parsed.get("sa\"id").is_some());
    assert!(parsed.get("back\\slash").is_some());
}

#[test]
fn large_offsets_render_in_decimal() {
    let mut text = String::new();
    for _ in 0..1200 {
        text.push('x');
        text.push(' ');
    }
    text.push_str("needle");
    let g = index_content("f".as_bytes(), text.as_bytes());
    let parsed: serde_json::Value = serde_json::from_slice(&render_snapshot(&g)).unwrap();
    assert_eq!(parsed["needle"]["f"][0], serde_json::Value::from(2400u64));
}
