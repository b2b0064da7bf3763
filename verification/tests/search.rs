use rwwf::find_words;
use rwwf::note_word;
use rwwf::SearchError;
use rwwf::Trie;
use rwwf::MAX_LETTERS;
use std::collections::HashSet;

fn lexicon(words: &[&str]) -> Trie {
    let mut t = Trie::new();
    for w in words {
        t.insert(w);
    }
    t
}

fn as_set(found: &[String]) -> HashSet<String> {
    found.iter().cloned().collect()
}

fn set_of(words: &[&str]) -> HashSet<String> {
    words.iter().map(|w| w.to_string()).collect()
}

#[test]
fn finds_cat_at_and_a_in_cat() {
    let t = lexicon(&["cat", "car", "cab", "at", "a"]);
    let found = find_words(&t, "cat").unwrap();
    assert_eq!(as_set(&found), set_of(&["cat", "at", "a"]));
    assert_eq!(found.len(), 3);
    for absent in ["ca", "ac", "ct", "tc", "car", "cab", "ta", "act"].iter() {
        assert!(!found.contains(&absent.to_string()), "{}", absent);
    }
}

#[test]
fn lists_words_in_the_order_of_their_discovery() {
    let t = lexicon(&["cat", "car", "cab", "at", "a"]);
    let found = find_words(&t, "cat").unwrap();
    assert_eq!(found, vec!["a".to_string(), "at".to_string(), "cat".to_string()]);
}

#[test]
fn finds_za_but_not_az() {
    let t = lexicon(&["za", "jo"]);
    let found = find_words(&t, "az").unwrap();
    assert_eq!(found, vec!["za".to_string()]);
}

#[test]
fn finds_nothing_in_an_empty_lexicon() {
    let t = Trie::new();
    let found = find_words(&t, "anything").unwrap();
    assert!(found.is_empty());
}

#[test]
fn lists_a_word_of_repeated_letters_once() {
    let t = lexicon(&["aa"]);
    let found = find_words(&t, "aa").unwrap();
    assert_eq!(found, vec!["aa".to_string()]);
}

#[test]
fn finds_every_arrangement_that_is_a_word() {
    let all = ["abc", "acb", "bac", "bca", "cab", "cba"];
    let t = lexicon(&all);
    let found = find_words(&t, "abc").unwrap();
    assert_eq!(found.len(), 6);
    assert_eq!(as_set(&found), set_of(&all));
    let found = find_words(&t, "cba").unwrap();
    assert_eq!(found.len(), 6);
    assert_eq!(as_set(&found), set_of(&all));
}

#[test]
fn uses_each_letter_of_the_hand_at_most_once() {
    let t = lexicon(&["aa", "aab", "ab", "abb", "b", "bab"]);
    let found = find_words(&t, "aab").unwrap();
    assert_eq!(as_set(&found), set_of(&["aa", "aab", "ab", "b"]));
    assert_eq!(found.len(), 4);
}

#[test]
fn finds_nothing_in_an_empty_hand() {
    let t = lexicon(&["a", "at"]);
    let found = find_words(&t, "").unwrap();
    assert!(found.is_empty());
}

#[test]
fn refuses_a_hand_of_too_many_letters() {
    let t = lexicon(&["a"]);
    let hand: String = std::iter::repeat('a').take(MAX_LETTERS + 1).collect();
    assert_eq!(find_words(&t, &hand), Err(SearchError::TooManyLetters));
    assert_eq!(MAX_LETTERS, 16);
}

#[test]
fn accepts_a_hand_of_several_letters() {
    let t = lexicon(&["listen", "silent", "tinsel", "enlist", "inlets", "lent", "net", "ten"]);
    let found = find_words(&t, "listen").unwrap();
    assert_eq!(
        as_set(&found),
        set_of(&["listen", "silent", "tinsel", "enlist", "inlets", "lent", "net", "ten"])
    );
    assert_eq!(found.len(), 8);
}

#[test]
fn counts_letters_by_unicode_scalar_value() {
    let t = lexicon(&["né", "en", "ne"]);
    let found = find_words(&t, "én").unwrap();
    assert_eq!(found, vec!["né".to_string()]);
}

#[test]
fn notes_a_candidate_that_is_a_word_and_new() {
    let t = lexicon(&["at", "a"]);
    let mut found: Vec<String> = Vec::new();
    note_word(&t, &mut found, vec!['a', 't']);
    assert_eq!(found, vec!["at".to_string()]);
    note_word(&t, &mut found, vec!['t', 'a']);
    assert_eq!(found, vec!["at".to_string()]);
    note_word(&t, &mut found, vec!['a', 't']);
    assert_eq!(found, vec!["at".to_string()]);
    note_word(&t, &mut found, vec!['a']);
    assert_eq!(found, vec!["at".to_string(), "a".to_string()]);
    note_word(&t, &mut found, vec![]);
    assert_eq!(found, vec!["at".to_string(), "a".to_string()]);
}
