use prefix_trie::trie::NodeList;

fn words_of(trie: &NodeList) -> Vec<String> {
    trie.get_all_words()
}

#[test]
fn test_get_nodes() {
    let mut root = NodeList::new();
    root.add_word("abc");
    assert_eq!(root.existing_nodes().unwrap().len(), 1);
    root.add_word("bc");
    assert_eq!(root.existing_nodes().unwrap().len(), 2);
}

#[test]
fn empty_trie_enumerates_nothing() {
    let root = NodeList::new();
    assert_eq!(words_of(&root), Vec::<String>::new());
    assert_eq!(root.find_starts_with(""), Vec::<String>::new());
}

#[test]
fn insert_then_contains() {
    let mut root = NodeList::new();
    root.add_word("hello");
    let all = words_of(&root);
    assert_eq!(all.iter().filter(|w| w.as_str() == "hello").count(), 1);
    let found = root.find_starts_with("hello");
    assert!(found.iter().any(|w| w == "hello"));
}

#[test]
fn insert_twice_is_idempotent() {
    let mut root = NodeList::new();
    root.add_word("dog");
    root.add_word("cat");
    let once = words_of(&root);
    root.add_word("dog");
    let twice = words_of(&root);
    assert_eq!(once, twice);
    assert_eq!(twice.iter().filter(|w| w.as_str() == "dog").count(), 1);
}

#[test]
fn promotion_keeps_longer_word() {
    let mut root = NodeList::new();
    root.add_word("ant");
    root.add_word("an");
    let all = words_of(&root);
    assert!(all.iter().any(|w| w == "ant"));
    assert!(all.iter().any(|w| w == "an"));
}

#[test]
fn extension_keeps_shorter_word() {
    let mut root = NodeList::new();
    root.add_word("an");
    root.add_word("ant");
    let all = words_of(&root);
    assert!(all.iter().any(|w| w == "an"));
    assert!(all.iter().any(|w| w == "ant"));
}

#[test]
fn unknown_prefix_finds_nothing() {
    let mut root = NodeList::new();
    root.add_word("cat");
    root.add_word("car");
    assert_eq!(root.find_starts_with("do"), Vec::<String>::new());
}

#[test]
fn prefix_results_start_with_prefix() {
    let mut root = NodeList::new();
    root.add_word("car");
    root.add_word("cat");
    root.add_word("dog");
    let found = root.find_starts_with("ca");
    assert!(found.iter().all(|w| w.starts_with("ca")));
    let all = words_of(&root);
    let expected: Vec<String> = all.into_iter().filter(|w| w.starts_with("ca")).collect();
    assert_eq!(found, expected);
}

#[test]
fn dictionary_scenario() {
    let mut root = NodeList::new();
    for w in ["a", "an", "ant", "anti", "anagram", "basic", "basically"] {
        root.add_word(w);
    }
    assert_eq!(
        words_of(&root),
        vec!["a", "an", "anagram", "ant", "anti", "basic", "basically"]
    );
    assert_eq!(root.find_starts_with("an"), vec!["an", "anagram", "ant", "anti"]);
    assert_eq!(root.find_starts_with("bas"), vec!["basic", "basically"]);
}

#[test]
fn prefix_equal_to_stored_word_is_included() {
    let mut root = NodeList::new();
    root.add_word("an");
    root.add_word("ant");
    assert_eq!(root.find_starts_with("an"), vec!["an", "ant"]);
    assert_eq!(root.find_starts_with("ant"), vec!["ant"]);
}

#[test]
fn empty_prefix_lists_everything() {
    let mut root = NodeList::new();
    root.add_word("b");
    root.add_word("a");
    assert_eq!(root.find_starts_with(""), vec!["a", "b"]);
}

#[test]
fn words_from_first_child() {
    let mut root = NodeList::new();
    root.add_word("an");
    root.add_word("ant");
    let children = root.existing_nodes().unwrap();
    assert_eq!(children.len(), 1);
    assert_eq!(children[0].words_from(), vec!["an", "ant"]);
    let grandchildren = children[0].get_children().unwrap();
    assert_eq!(grandchildren.len(), 1);
}

#[test]
fn single_letter_word() {
    let mut root = NodeList::new();
    root.add_word("q");
    assert_eq!(words_of(&root), vec!["q"]);
    assert_eq!(root.find_starts_with("q"), vec!["q"]);
}
