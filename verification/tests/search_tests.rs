use trie::{Trie, TrieBuilder};

fn b(s: &str) -> Vec<u8> {
    s.as_bytes().to_vec()
}

fn to_strings(keys: Vec<Vec<u8>>) -> Vec<String> {
    keys.into_iter()
        .map(|k| String::from_utf8(k).unwrap())
        .collect()
}

fn build_trie() -> Trie {
    let mut builder = TrieBuilder::new();
    builder.insert(&b("a"));
    builder.insert(&b("app"));
    builder.insert(&b("apple"));
    builder.insert(&b("better"));
    builder.insert(&b("application"));
    builder.insert(&b("アップル🍎"));
    builder.build()
}

#[test]
fn trie_from_iter() {
    let mut builder = TrieBuilder::new();
    for key in ["a", "app", "apple", "better", "application"] {
        builder.insert(&b(key));
    }
    let trie = builder.build();
    assert!(trie.exact_match(&b("application")));
}

#[test]
fn collect_a_trie() {
    let mut builder = TrieBuilder::new();
    for key in ["a", "app", "apple", "better", "application"] {
        builder.insert(&b(key));
    }
    let trie = builder.build();
    assert!(trie.exact_match(&b("application")));
}

#[test]
fn clone() {
    let trie = build_trie();
    let c: Trie = trie.clone();
    assert!(c.exact_match(&b("apple")));
    assert!(!c.exact_match(&b("appl")));
}

#[test]
fn print_debug_builder() {
    let mut builder = TrieBuilder::new();
    builder.insert(&b("a"));
    builder.insert(&b("app"));
    let actual = format!("{:#?}", builder);
    let expected = "TrieBuilder(\n    TrieBuilder {\n        naive_trie: NaiveNode {\n            label: 0,\n            value: None,\n            children: [\n                NaiveNode {\n                    label: 97,\n                    value: Some(\n                        (),\n                    ),\n                    children: [\n                        NaiveNode {\n                            label: 112,\n                            value: None,\n                            children: [\n                                NaiveNode {\n                                    label: 112,\n                                    value: Some(\n                                        (),\n                                    ),\n                                    children: [],\n                                },\n                            ],\n                        },\n                    ],\n                },\n            ],\n        },\n    },\n)";
    assert_eq!(actual, expected);
}

#[test]
fn use_empty_queries() {
    let trie = build_trie();
    assert!(!trie.exact_match(&b("")));
    let _ = trie.predictive_search(&b(""));
    let _ = trie.postfix_search(&b(""));
    let _ = trie.common_prefix_search(&b(""));
}

#[test]
fn exact_match_t1() {
    assert_eq!(build_trie().exact_match(&b("a")), true);
}

#[test]
fn exact_match_t2() {
    assert_eq!(build_trie().exact_match(&b("app")), true);
}

#[test]
fn exact_match_t3() {
    assert_eq!(build_trie().exact_match(&b("apple")), true);
}

#[test]
fn exact_match_t4() {
    assert_eq!(build_trie().exact_match(&b("application")), true);
}

#[test]
fn exact_match_t5() {
    assert_eq!(build_trie().exact_match(&b("better")), true);
}

#[test]
fn exact_match_t6() {
    assert_eq!(build_trie().exact_match(&b("アップル🍎")), true);
}

#[test]
fn exact_match_t7() {
    assert_eq!(build_trie().exact_match(&b("appl")), false);
}

#[test]
fn exact_match_t8() {
    assert_eq!(build_trie().exact_match(&b("appler")), false);
}

#[test]
fn is_prefix_t1() {
    assert_eq!(build_trie().is_prefix(&b("a")), true);
}

#[test]
fn is_prefix_t2() {
    assert_eq!(build_trie().is_prefix(&b("app")), true);
}

#[test]
fn is_prefix_t3() {
    assert_eq!(build_trie().is_prefix(&b("apple")), true);
}

#[test]
fn is_prefix_t4() {
    assert_eq!(build_trie().is_prefix(&b("application")), true);
}

#[test]
fn is_prefix_t5() {
    assert_eq!(build_trie().is_prefix(&b("better")), true);
}

#[test]
fn is_prefix_t6() {
    assert_eq!(build_trie().is_prefix(&b("アップル🍎")), true);
}

#[test]
fn is_prefix_t7() {
    assert_eq!(build_trie().is_prefix(&b("appl")), true);
}

#[test]
fn is_prefix_t8() {
    assert_eq!(build_trie().is_prefix(&b("appler")), false);
}

#[test]
fn is_prefix_t9() {
    assert_eq!(build_trie().is_prefix(&b("アップル")), true);
}

#[test]
fn is_prefix_t10() {
    assert_eq!(build_trie().is_prefix(&b("ed")), false);
}

#[test]
fn is_prefix_t11() {
    assert_eq!(build_trie().is_prefix(&b("e")), false);
}

#[test]
fn is_prefix_t12() {
    assert_eq!(build_trie().is_prefix(&b("")), true);
}

#[test]
fn predictive_search_t1() {
    let results = to_strings(build_trie().predictive_search(&b("a")));
    assert_eq!(results, vec!["a", "app", "apple", "application"]);
}

#[test]
fn predictive_search_t2() {
    let results = to_strings(build_trie().predictive_search(&b("app")));
    assert_eq!(results, vec!["app", "apple", "application"]);
}

#[test]
fn predictive_search_t3() {
    let results = to_strings(build_trie().predictive_search(&b("appl")));
    assert_eq!(results, vec!["apple", "application"]);
}

#[test]
fn predictive_search_t4() {
    let results = to_strings(build_trie().predictive_search(&b("apple")));
    assert_eq!(results, vec!["apple"]);
}

#[test]
fn predictive_search_t5() {
    let results = to_strings(build_trie().predictive_search(&b("b")));
    assert_eq!(results, vec!["better"]);
}

#[test]
fn predictive_search_t6() {
    let results = to_strings(build_trie().predictive_search(&b("c")));
    assert_eq!(results, Vec::<String>::new());
}

#[test]
fn predictive_search_t7() {
    let results = to_strings(build_trie().predictive_search(&b("アップ")));
    assert_eq!(results, vec!["アップル🍎"]);
}

#[test]
fn common_prefix_search_t1() {
    let results = to_strings(build_trie().common_prefix_search(&b("a")));
    assert_eq!(results, vec!["a"]);
}

#[test]
fn common_prefix_search_t2() {
    let results = to_strings(build_trie().common_prefix_search(&b("ap")));
    assert_eq!(results, vec!["a"]);
}

#[test]
fn common_prefix_search_t3() {
    let results = to_strings(build_trie().common_prefix_search(&b("appl")));
    assert_eq!(results, vec!["a", "app"]);
}

#[test]
fn common_prefix_search_t4() {
    let results = to_strings(build_trie().common_prefix_search(&b("appler")));
    assert_eq!(results, vec!["a", "app", "apple"]);
}

#[test]
fn common_prefix_search_t5() {
    let results = to_strings(build_trie().common_prefix_search(&b("bette")));
    assert_eq!(results, Vec::<String>::new());
}

#[test]
fn common_prefix_search_t6() {
    let results = to_strings(build_trie().common_prefix_search(&b("betterment")));
    assert_eq!(results, vec!["better"]);
}

#[test]
fn common_prefix_search_t7() {
    let results = to_strings(build_trie().common_prefix_search(&b("c")));
    assert_eq!(results, Vec::<String>::new());
}

#[test]
fn common_prefix_search_t8() {
    let results = to_strings(build_trie().common_prefix_search(&b("アップル🍎🍏")));
    assert_eq!(results, vec!["アップル🍎"]);
}
