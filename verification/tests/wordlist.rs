use rwwf::lexicon_from_lines;
use rwwf::Trie;

fn built(text: &str) -> Trie {
    lexicon_from_lines(text).expect("the tree has room for a short list")
}

#[test]
fn word_list_gives_one_word_per_line() {
    let t = built("cat\ncar\ncab\n");
    assert!(t.contains("cat"));
    assert!(t.contains("car"));
    assert!(t.contains("cab"));
    assert!(!t.contains("ca"));
    assert!(!t.contains(""));
    assert_eq!(t.size(), 3);
    assert_eq!(t.node_count(), 6);
}

#[test]
fn word_list_may_end_without_a_line_feed() {
    let t = built("a\nat");
    assert!(t.contains("a"));
    assert!(t.contains("at"));
    assert_eq!(t.size(), 2);
}

#[test]
fn word_list_skips_empty_lines() {
    let t = built("\n\ncat\n\n\nat\n\n");
    assert_eq!(t.size(), 2);
    assert!(t.contains("cat"));
    assert!(t.contains("at"));
    assert!(!t.contains(""));
    assert_eq!(built("").size(), 0);
    assert_eq!(built("").node_count(), 1);
    assert_eq!(built("\n\n\n").size(), 0);
    assert_eq!(built("\n").node_count(), 1);
}

#[test]
fn word_list_counts_a_repeated_word_once() {
    let t = built("a\nb\na\nb\na");
    assert_eq!(t.size(), 2);
    assert_eq!(t.node_count(), 3);
}

#[test]
fn word_list_splits_at_line_feeds_only() {
    let t = built("cat\r\nat the\n");
    assert!(t.contains("cat\r"));
    assert!(!t.contains("cat"));
    assert!(t.contains("at the"));
    assert!(!t.contains("at"));
    assert_eq!(t.size(), 2);
}

#[test]
fn word_list_gives_the_lexicon_that_insertion_gives() {
    let text = "za\njo\npizza\n";
    let t = built(text);
    let mut u = Trie::new();
    for line in text.split("\n") {
        if line != "" {
            u.insert(line);
        }
    }
    assert_eq!(t.size(), u.size());
    assert_eq!(t.node_count(), u.node_count());
    assert_eq!(t.edge_count(), u.edge_count());
    for w in ["za", "jo", "pizza", "z", "piz", "", "oj"].iter() {
        assert_eq!(t.contains(w), u.contains(w), "{}", w);
    }
}
