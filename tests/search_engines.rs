use std::collections::BTreeSet;

use fuzzy_trie::{
    advance_node, build_path, expand, render_node, EngineError, PathNode, SearchEngine,
    SearchTrie, TEngine, UNDO,
};

fn trie_of(lines: &[&str]) -> SearchTrie {
    let mut trie = SearchTrie::new();
    for line in lines {
        trie.insert(line);
    }
    trie
}

fn set_of(v: Vec<String>) -> BTreeSet<String> {
    v.into_iter().collect()
}

fn t_query(engine: &mut TEngine, c: char) {
    let parts = if c == UNDO {
        Vec::new()
    } else {
        engine.frontier().iter().map(|h| advance_node(h, c)).collect()
    };
    engine.query(c, parts);
}

fn t_options(engine: &TEngine) -> Vec<String> {
    let parts = engine.frontier().iter().map(render_node).collect();
    engine.options(parts)
}

#[test]
fn insert_then_list_gives_the_vocabulary() {
    let trie = trie_of(&["line 1", "line 2", "not a line"]);
    assert_eq!(trie.list(), vec!["line 1", "line 2", "not a line"]);
    assert_eq!(trie.len(), 3);
    assert!(trie.contains("line 2"));
    assert!(!trie.contains("line"));
}

#[test]
fn empty_trie_lists_nothing() {
    let trie = SearchTrie::new();
    assert!(trie.list().is_empty());
    assert_eq!(trie.len(), 0);
}

#[test]
fn insert_twice_stores_once() {
    let trie = trie_of(&["ab", "ab"]);
    assert_eq!(trie.list(), vec!["ab"]);
    assert_eq!(trie.len(), 1);
    assert_eq!(trie.root().val[0].1.ref_count(), 1);
}

#[test]
fn remove_subset_round_trip() {
    let words = ["a", "ab", "abc", "b", "ba", "xyz"];
    let mut trie = trie_of(&words);
    assert_eq!(set_of(trie.list()), words.iter().map(|s| s.to_string()).collect());
    trie.remove("ab");
    trie.remove("xyz");
    trie.remove("nothing");
    let expected: BTreeSet<String> = ["a", "abc", "b", "ba"].iter().map(|s| s.to_string()).collect();
    assert_eq!(set_of(trie.list()), expected);
    assert!(trie.contains("a"));
    assert!(!trie.contains("ab"));
    trie.remove("a");
    trie.remove("abc");
    trie.remove("b");
    trie.remove("ba");
    assert!(trie.list().is_empty());
    assert!(trie.root().val.is_empty());
}

#[test]
fn remove_prefix_keeps_longer_string() {
    let mut trie = trie_of(&["a", "ab"]);
    trie.remove("a");
    assert_eq!(trie.list(), vec!["ab"]);
    let a = &trie.root().val[0].1;
    assert!(!a.end);
    assert_eq!(a.ref_count(), 1);
}

#[test]
fn ref_counts_follow_the_vocabulary() {
    let mut trie = trie_of(&["abc", "abd", "ax", "b"]);
    let a = &trie.root().val[0].1;
    assert_eq!(trie.root().val[0].0, 'a');
    assert_eq!(a.ref_count(), 3);
    let ab = &a.val[0].1;
    assert_eq!(ab.ref_count(), 2);
    assert_eq!(ab.val[0].1.ref_count(), 1);
    trie.remove("abc");
    let a = &trie.root().val[0].1;
    assert_eq!(a.ref_count(), 2);
    assert_eq!(a.val[0].1.ref_count(), 1);
    assert_eq!(a.val[0].1.val.len(), 1);
    assert_eq!(a.val[0].1.val[0].0, 'd');
}

#[test]
fn empty_string_is_stored_at_the_root() {
    let mut trie = trie_of(&[""]);
    assert!(trie.root().end);
    assert_eq!(trie.list(), vec![""]);
    trie.remove("");
    assert!(trie.list().is_empty());
}

#[test]
fn build_path_marks_matches() {
    let path = vec![
        PathNode { val: 'l', in_query: true },
        PathNode { val: 'i', in_query: false },
        PathNode { val: 'n', in_query: true },
    ];
    assert_eq!(build_path(&path), "-l-i-n-");
    assert_eq!(build_path(&Vec::new()), "");
}

#[test]
fn expand_lists_suffixes_below() {
    let trie = trie_of(&["a", "ab", "ac"]);
    assert_eq!(expand(trie.root()), vec!["a", "ab", "ac"]);
    assert_eq!(expand(&trie.root().val[0].1), vec!["b", "c"]);
    assert!(expand(&trie.root().val[0].1.val[0].1).is_empty());
}

#[test]
fn subsequence_skips_characters() {
    let trie = trie_of(&["line 1", "line 2", "not a line"]);
    let mut engine = trie.engine();
    engine.query('l');
    engine.query('n');
    assert_eq!(engine.options(), vec!["-l-i-n-e 1", "-l-i-n-e 2", "not a -l-i-n-e"]);
}

#[test]
fn terminal_and_internal_render() {
    let trie = trie_of(&["a", "ab"]);
    let mut engine = trie.engine();
    engine.query('a');
    assert_eq!(engine.options(), vec!["-a-", "-a-b"]);
}

#[test]
fn initial_options_list_everything() {
    let trie = trie_of(&["a", "ab"]);
    let engine = trie.engine();
    assert_eq!(engine.options(), vec!["a", "ab"]);
}

#[test]
fn absent_character_gives_no_options() {
    let trie = trie_of(&["line 1", "line 2", "not a line"]);
    let mut engine = trie.engine();
    engine.query('z');
    assert!(engine.options().is_empty());
    let mut pooled = trie.tp_engine(2).unwrap();
    pooled.query('z');
    assert!(pooled.options().is_empty());
    let mut scoped = trie.t_engine();
    t_query(&mut scoped, 'z');
    assert!(t_options(&scoped).is_empty());
    engine.query('l');
    assert!(engine.options().is_empty());
}

#[test]
fn undo_at_start_changes_nothing() {
    let trie = trie_of(&["abc", "b"]);
    let mut engine = trie.engine();
    let before = engine.options();
    engine.query(UNDO);
    engine.query(UNDO);
    assert_eq!(engine.options(), before);
    engine.query('b');
    assert_eq!(engine.options(), vec!["a-b-c", "-b-"]);
}

#[test]
fn undo_restores_previous_frontier() {
    let trie = trie_of(&["line 1", "line 2", "not a line"]);
    let mut engine = trie.engine();
    engine.query('l');
    let after_l = engine.options();
    engine.query('n');
    assert_ne!(engine.options(), after_l);
    engine.query(UNDO);
    assert_eq!(engine.options(), after_l);
    engine.query(UNDO);
    assert_eq!(engine.options(), vec!["line 1", "line 2", "not a line"]);
}

#[test]
fn variants_agree_on_every_prefix() {
    let trie = trie_of(&["line 1", "line 2", "not a line", "alien", "nine lines", "l"]);
    let mut seq = trie.engine();
    let mut scoped = trie.t_engine();
    let mut pooled = trie.tp_engine(3).unwrap();
    for c in "lin*e*ne ".chars() {
        seq.query(c);
        t_query(&mut scoped, c);
        pooled.query(c);
        let a = seq.options();
        assert_eq!(set_of(a.clone()), set_of(t_options(&scoped)));
        assert_eq!(set_of(a.clone()), set_of(pooled.options()));
        assert_eq!(a, pooled.options());
    }
}

#[test]
fn pool_without_workers_is_refused() {
    let trie = trie_of(&["a"]);
    assert_eq!(trie.tp_engine(0).err(), Some(EngineError::NoWorkers));
    assert!(trie.tp_engine(1).is_ok());
}

#[test]
fn unicode_characters_are_single_steps() {
    let trie = trie_of(&["héllo", "hé"]);
    let mut engine = trie.engine();
    engine.query('é');
    assert_eq!(engine.options(), vec!["h-é-", "h-é-llo"]);
}
