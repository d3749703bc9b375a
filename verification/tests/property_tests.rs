use trie::{Trie, TrieBuilder};

fn b(s: &str) -> Vec<u8> {
    s.as_bytes().to_vec()
}

fn to_strings(keys: Vec<Vec<u8>>) -> Vec<String> {
    keys.into_iter()
        .map(|k| String::from_utf8(k).unwrap())
        .collect()
}

fn scenario_trie() -> Trie {
    let mut builder = TrieBuilder::new();
    for key in ["a", "app", "apple", "better", "application"] {
        builder.insert(&b(key));
    }
    builder.build()
}

#[test]
fn scenario_exact_match() {
    let trie = scenario_trie();
    assert_eq!(trie.exact_match(&b("app")), true);
    assert_eq!(trie.exact_match(&b("appl")), false);
}

#[test]
fn scenario_predictive_search() {
    let trie = scenario_trie();
    assert_eq!(
        to_strings(trie.predictive_search(&b("app"))),
        vec!["app", "apple", "application"]
    );
}

#[test]
fn scenario_postfix_search() {
    let trie = scenario_trie();
    assert_eq!(
        to_strings(trie.postfix_search(&b("app"))),
        vec!["", "le", "lication"]
    );
}

#[test]
fn scenario_common_prefix_search() {
    let trie = scenario_trie();
    assert_eq!(
        to_strings(trie.common_prefix_search(&b("application"))),
        vec!["a", "app", "application"]
    );
}

#[test]
fn scenario_is_prefix_and_iter() {
    let trie = scenario_trie();
    assert_eq!(trie.is_prefix(&b("appl")), true);
    assert_eq!(
        to_strings(trie.iter()),
        vec!["a", "app", "apple", "application", "better"]
    );
}

#[test]
fn exact_match_only_for_inserted_keys() {
    let trie = scenario_trie();
    for key in ["a", "app", "apple", "better", "application"] {
        assert!(trie.exact_match(&b(key)));
    }
    for other in ["", "ap", "appl", "applications", "b", "bet", "z", "アップル🍎"] {
        assert!(!trie.exact_match(&b(other)));
    }
}

#[test]
fn insert_reports_presence_and_deduplicates() {
    let mut builder = TrieBuilder::new();
    assert!(!builder.insert(&b("dup")));
    assert!(builder.insert(&b("dup")));
    assert!(!builder.insert(&b("du")));
    let trie = builder.build();
    assert_eq!(to_strings(trie.iter()), vec!["du", "dup"]);
}

#[test]
fn postfix_results_prefixed_give_predictive_results() {
    let trie = scenario_trie();
    let query = b("app");
    let postfixes = trie.postfix_search(&query);
    let predictive = trie.predictive_search(&query);
    assert_eq!(postfixes.len(), predictive.len());
    for (suffix, full) in postfixes.iter().zip(predictive.iter()) {
        let mut joined = query.clone();
        joined.extend_from_slice(suffix);
        assert_eq!(&joined, full);
        assert!(trie.exact_match(&joined));
    }
}

#[test]
fn longest_prefix_cases() {
    let trie = scenario_trie();
    assert_eq!(trie.longest_prefix(&b("appler")), Some(b("apple")));
    assert_eq!(trie.longest_prefix(&b("application")), Some(b("application")));
    assert_eq!(trie.longest_prefix(&b("ap")), Some(b("a")));
    assert_eq!(trie.longest_prefix(&b("bet")), None);
    assert_eq!(trie.longest_prefix(&b("")), None);
}

#[test]
fn determinism_across_insertion_orders() {
    let mut b1 = TrieBuilder::new();
    for key in ["a", "app", "apple", "better", "application"] {
        b1.insert(&b(key));
    }
    let mut b2 = TrieBuilder::new();
    for key in ["better", "application", "a", "apple", "app"] {
        b2.insert(&b(key));
    }
    let t1 = b1.build();
    let t2 = b2.build();
    assert_eq!(t1.0.louds_bits(), t2.0.louds_bits());
    assert_eq!(t1.0.label_array(), t2.0.label_array());
    assert_eq!(t1.0.terminal_bits(), t2.0.terminal_bits());
    assert_eq!(t1.0.value_array(), t2.0.value_array());
}

#[test]
fn serialize_arrays_and_reconstruct() {
    let trie = scenario_trie();
    let bits = trie.0.louds_bits();
    let labels = trie.0.label_array().clone();
    let terminals = trie.0.terminal_bits();
    let values = trie.0.value_array().clone();
    let rebuilt = trie::map_trie::Trie::from_arrays(bits, labels, terminals, values);
    for key in ["a", "app", "apple", "better", "application", "", "ap", "x"] {
        assert_eq!(
            trie.exact_match(&b(key)),
            rebuilt.exact_match(&b(key)).is_some()
        );
    }
    let rebuilt_set = trie::Trie(rebuilt);
    assert_eq!(
        to_strings(trie.predictive_search(&b("app"))),
        to_strings(rebuilt_set.predictive_search(&b("app")))
    );
}

#[test]
fn encoded_arrays_of_small_trie() {
    let mut builder = TrieBuilder::new();
    builder.insert(&b("a"));
    let trie = builder.build();
    assert_eq!(trie.0.louds_bits(), vec![true, false, true, false, false]);
    assert_eq!(trie.0.label_array(), &vec![97u8]);
    assert_eq!(trie.0.terminal_bits(), vec![false, false, true]);
    assert_eq!(trie.0.value_array().len(), 1);
}

#[test]
fn map_trie_stores_and_overwrites_values() {
    let mut builder: trie::map_trie::TrieBuilder<u32> = trie::map_trie::TrieBuilder::new();
    assert_eq!(builder.insert(&b("one"), 1), None);
    assert_eq!(builder.insert(&b("two"), 2), None);
    assert_eq!(builder.insert(&b("one"), 10), Some(1));
    let trie = builder.build();
    assert_eq!(trie.exact_match(&b("one")), Some(&10));
    assert_eq!(trie.exact_match(&b("two")), Some(&2));
    assert_eq!(trie.exact_match(&b("three")), None);
    assert_eq!(trie.exact_match(&b("on")), None);
}

#[test]
fn empty_trie_answers_every_query_negatively() {
    let trie = TrieBuilder::new().build();
    assert!(!trie.exact_match(&b("")));
    assert!(!trie.exact_match(&b("a")));
    assert!(trie.is_prefix(&b("")));
    assert!(!trie.is_prefix(&b("a")));
    assert!(trie.iter().is_empty());
    assert!(trie.predictive_search(&b("a")).is_empty());
    assert!(trie.common_prefix_search(&b("abc")).is_empty());
    assert_eq!(trie.longest_prefix(&b("abc")), None);
}

#[test]
fn extreme_byte_labels() {
    let mut builder = TrieBuilder::new();
    builder.insert(&vec![0u8]);
    builder.insert(&vec![0u8, 255u8]);
    builder.insert(&vec![255u8]);
    let trie = builder.build();
    assert!(trie.exact_match(&vec![0u8]));
    assert!(trie.exact_match(&vec![0u8, 255u8]));
    assert!(trie.exact_match(&vec![255u8]));
    assert!(!trie.exact_match(&vec![255u8, 0u8]));
    assert_eq!(trie.iter(), vec![vec![0u8], vec![0u8, 255u8], vec![255u8]]);
}

#[test]
fn map_trie_inc_search_value() {
    let mut builder: trie::map_trie::TrieBuilder<i64> = trie::map_trie::TrieBuilder::new();
    builder.insert(&b("no"), -7);
    builder.insert(&b("nod"), 9);
    let t = builder.build();
    let mut cursor = t.inc_search();
    assert!(cursor.value().is_none());
    cursor.step(b'n');
    assert!(cursor.value().is_none());
    cursor.step(b'o');
    assert_eq!(cursor.value(), Some(&-7));
    cursor.step(b'd');
    assert_eq!(cursor.value(), Some(&9));
    assert!(cursor.is_match());
}

#[test]
fn inc_search_walks_and_matches() {
    let trie = scenario_trie();
    let mut cursor = trie.inc_search();
    let a1 = cursor.step(b'a').unwrap();
    assert!(a1.is_match());
    assert!(a1.is_prefix());
    let a2 = cursor.step(b'p').unwrap();
    assert!(!a2.is_match());
    let a3 = cursor.step(b'p').unwrap();
    assert!(a3.is_match());
    assert!(cursor.is_match());
    assert!(cursor.value().is_some());
}

#[test]
fn inc_search_dead_state_is_permanent() {
    let trie = scenario_trie();
    let mut cursor = trie.inc_search();
    assert!(cursor.step(b'a').is_some());
    assert!(cursor.step(b'z').is_none());
    assert!(cursor.step(b'p').is_none());
    assert!(!cursor.is_match());
    assert!(cursor.value().is_none());
}

#[test]
fn inc_search_matches_byte_by_byte() {
    let trie = scenario_trie();
    let mut cursor = trie.inc_search();
    let word = b("application");
    for (i, label) in word.iter().enumerate() {
        let answer = cursor.step(*label).expect("prefix of a key");
        assert_eq!(answer.is_match(), i + 1 == word.len() || i + 1 == 1 || i + 1 == 3);
    }
}
