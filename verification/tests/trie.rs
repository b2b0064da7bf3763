use rwwf::Trie;

#[test]
fn test_insert_makes_expected_number_of_nodes() {
    let mut t = Trie::new();
    t.insert("cat");
    // one for root, one each for c, ca, cat
    assert_eq!(t.node_count(), 4);
    // one for each letter
    assert_eq!(t.edge_count(), 3);

    t.insert("car");
    t.insert("cab");
    // one more each for last letter of car and cab
    assert_eq!(t.node_count(), 6);
    // one more each for last letter of car and cab
    assert_eq!(t.edge_count(), 5);

    t.insert("pizza");
    // one more for each letter in pizza
    assert_eq!(t.node_count(), 11);
    // one more for each letter in pizza
    assert_eq!(t.edge_count(), 10);
}

#[test]
fn test_contains_works() {
    let mut t = Trie::new();
    t.insert("za");
    t.insert("jo");

    assert!(t.contains("za"), "contains za");
    assert!(t.contains("jo"), "contains jo");

    for first in 0..26 {
        for second in 0..26 {
            let a = 'a' as u8;
            let word = format!("{}{}", (a + first) as char, (a + second) as char);
            if word == "za" || word == "jo" {
                break;
            }
            assert!(!t.contains(&word), "does not contain {}", word);
        }
    }
}

#[test]
fn test_contains_only_finds_terminals() {
    let mut t = Trie::new();
    t.insert("suffix");
    assert!(!t.contains("suf"), "does not contain partial word");
}

#[test]
fn test_tracks_size() {
    let mut t = Trie::new();
    assert_eq!(t.size(), 0, "empty to start with");
    t.insert("a");
    assert_eq!(t.size(), 1, "contains a");
    t.insert("b");
    assert_eq!(t.size(), 2, "contains a and b");
    t.insert("at");
    assert_eq!(t.size(), 3, "contains a, b, and at");
    t.insert("a");
    assert_eq!(t.size(), 3, "didn't increment for duplicate a");
}

#[test]
fn does_not_contain_empty_string() {
    let mut t = Trie::new();
    assert!(!t.contains(""), "does not contain empty word");
    t.insert("word");
    assert!(!t.contains(""), "does not contain empty word");
}

#[test]
fn inserting_the_empty_word_changes_nothing() {
    let mut t = Trie::new();
    t.insert("");
    assert!(!t.contains(""));
    assert_eq!(t.size(), 0);
    assert_eq!(t.node_count(), 1);
    assert_eq!(t.edge_count(), 0);
    t.insert("ab");
    t.insert("");
    assert!(!t.contains(""));
    assert_eq!(t.size(), 1);
    assert_eq!(t.node_count(), 3);
}

#[test]
fn inserted_words_are_contained_and_others_are_not() {
    let words = ["cat", "car", "cab", "at", "a", "pizza", "zebra"];
    let mut t = Trie::new();
    for w in words.iter() {
        t.insert(w);
        assert!(t.contains(w));
    }
    for w in words.iter() {
        assert!(t.contains(w));
    }
    for w in ["c", "ca", "cats", "t", "piz", "pizz", "pizzas", "b", "ta"].iter() {
        assert!(!t.contains(w), "{}", w);
    }
    assert_eq!(t.size(), words.len());
}

#[test]
fn a_prefix_is_contained_once_it_is_inserted_itself() {
    let mut t = Trie::new();
    t.insert("suffix");
    assert!(!t.contains("suf"));
    t.insert("suf");
    assert!(t.contains("suf"));
    assert!(t.contains("suffix"));
    assert_eq!(t.size(), 2);
    assert_eq!(t.node_count(), 7);
}

#[test]
fn inserting_a_word_twice_changes_nothing_the_second_time() {
    let mut t = Trie::new();
    t.insert("cat");
    t.insert("car");
    let size = t.size();
    let nodes = t.node_count();
    let edges = t.edge_count();
    t.insert("cat");
    assert_eq!(t.size(), size);
    assert_eq!(t.node_count(), nodes);
    assert_eq!(t.edge_count(), edges);
    assert!(t.contains("cat"));
    assert!(t.contains("car"));
    assert!(!t.contains("ca"));
    assert!(!t.contains("cab"));
}

#[test]
fn letters_are_unicode_scalar_values() {
    let mut t = Trie::new();
    t.insert("naïve");
    t.insert("日本語");
    assert!(t.contains("naïve"));
    assert!(t.contains("日本語"));
    assert!(!t.contains("naive"));
    assert!(!t.contains("日本"));
    assert_eq!(t.node_count(), 1 + 5 + 3);
}

#[test]
fn letters_in_any_order_under_one_node_are_found() {
    let mut t = Trie::new();
    for w in ["ad", "ab", "ac", "aa", "ae"].iter() {
        t.insert(w);
    }
    for w in ["aa", "ab", "ac", "ad", "ae"].iter() {
        assert!(t.contains(w));
    }
    assert!(!t.contains("af"));
    assert_eq!(t.node_count(), 7);
    assert_eq!(t.edge_count(), 6);
}

#[test]
fn a_small_tree_has_room_for_any_short_word() {
    let mut t = Trie::new();
    assert!(t.has_room(""));
    assert!(t.has_room("cat"));
    t.insert("cat");
    assert!(t.has_room("cat"));
    assert!(t.has_room("catalogue"));
    assert!(t.has_room("dog"));
    assert_eq!(t.node_count(), 4);
}
