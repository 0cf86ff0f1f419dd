use mackerel_plugin::name::{is_valid_graph_name, is_valid_metric_name, key_matches};

#[test]
fn wildcard_matches_exactly_the_single_segment_keys() {
    // readings {a.b.x: 1, a.b.y: 2, a.c.x: 3} against pattern a.*.x
    assert!(key_matches("a.*.x", "a.b.x"));
    assert!(!key_matches("a.*.x", "a.b.y"));
    assert!(key_matches("a.*.x", "a.c.x"));
}

#[test]
fn extra_segments_match_nothing() {
    assert!(!key_matches("a.*.x.etc", "a.b.x"));
    assert!(!key_matches("a.*.x", "a.b.x.etc"));
    assert!(!key_matches("a.*.x", "a.x"));
}

#[test]
fn wildcard_never_matches_empty_or_dotted_segments() {
    assert!(!key_matches("inode.percentage.#.used", "inode.percentage..used"));
    assert!(!key_matches("inode.percentage.#.used", "inode.percentage.sda3.used.etc"));
    assert!(key_matches("inode.percentage.#.used", "inode.percentage.sda-2_1Z.used"));
    assert!(!key_matches("*", ""));
    assert!(!key_matches("a.*", "a."));
}

#[test]
fn star_and_hash_are_interchangeable() {
    assert!(key_matches("baz.*.diff", "baz.qux.diff"));
    assert!(key_matches("baz.#.diff", "baz.qux.diff"));
    assert!(key_matches("#", "qux"));
    assert!(key_matches("*", "qux"));
}

#[test]
fn wildcard_does_not_match_wildcard_characters() {
    assert!(!key_matches("a.*", "a.*"));
    assert!(!key_matches("a.#", "a.b#c"));
}

#[test]
fn literal_patterns_match_only_themselves() {
    assert!(key_matches("dice.d6", "dice.d6"));
    assert!(!key_matches("dice.d6", "dice.d20"));
    assert!(!key_matches("dice.d6", "dice"));
    assert!(!key_matches("dice.d6", "dice.d6.x"));
}

#[test]
fn metric_name_validity() {
    assert!(is_valid_metric_name("abcxyzABCXYZ012789-_"));
    assert!(is_valid_metric_name("*"));
    assert!(is_valid_metric_name("#"));
    assert!(!is_valid_metric_name(""));
    assert!(!is_valid_metric_name("a.b"));
    assert!(!is_valid_metric_name("a*"));
    assert!(!is_valid_metric_name("a b"));
}

#[test]
fn graph_name_validity() {
    assert!(is_valid_graph_name(""));
    assert!(is_valid_graph_name("inode.percentage.#"));
    assert!(is_valid_graph_name("baz.*"));
    assert!(is_valid_graph_name("SAMPLE.FOOBAR"));
    assert!(!is_valid_graph_name(".a"));
    assert!(!is_valid_graph_name("a."));
    assert!(!is_valid_graph_name("a..b"));
    assert!(!is_valid_graph_name("a*b"));
}
