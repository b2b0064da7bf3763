//! Sets of words, and what insertion does to them.
//!
//! A lexicon is, mathematically, a set of words that never holds the
//! empty word. This module says what it is to insert a word into such a
//! set, and which beginnings the words of a set have.

use vstd::prelude::*;
use vstd::set_lib::lemma_len_subset;
use vstd::set_lib::lemma_len_union;

verus! {

/// The set that holds `word` besides `words`; the empty word is not added.
pub open spec fn with_word(words: Set<Seq<char>>, word: Seq<char>) -> Set<Seq<char>> {
    if word.len() == 0 {
        words
    } else {
        words.insert(word)
    }
}

/// The set that holds the words of `list` besides `words`.
pub open spec fn with_words(words: Set<Seq<char>>, list: Seq<Seq<char>>) -> Set<Seq<char>>
    decreases list.len(),
{
    if list.len() == 0 {
        words
    } else {
        with_word(with_words(words, list.drop_last()), list.last())
    }
}

/// The beginnings of the words of `words`, the empty one left out.
pub open spec fn prefixes(words: Set<Seq<char>>) -> Set<Seq<char>> {
    Set::new(
        |p: Seq<char>|
            p.len() > 0 && exists|w: Seq<char>| words.contains(w) && p.is_prefix_of(w),
    )
}

/// The beginnings of `word` of at most `upto` letters, the empty one left
/// out.
pub open spec fn beginnings(word: Seq<char>, upto: int) -> Set<Seq<char>> {
    Set::new(
        |p: Seq<char>| exists|k: int| 0 < k <= upto && k <= word.len() && p == #[trigger] word.take(k),
    )
}

/// After an insertion the set holds the inserted word, unless that is
/// the empty word, and of all other words those that it held before.
pub proof fn lemma_with_word_members(words: Set<Seq<char>>, word: Seq<char>, other: Seq<char>)
    ensures
        with_word(words, word).contains(other) <==> words.contains(other) || (other == word
            && word.len() > 0),
{
}

/// Inserting a word a second time changes nothing: neither the words, nor
/// their number, nor their beginnings, nor whether any word is held.
pub proof fn lemma_with_word_twice(words: Set<Seq<char>>, word: Seq<char>)
    ensures
        with_word(with_word(words, word), word) == with_word(words, word),
        with_word(with_word(words, word), word).len() == with_word(words, word).len(),
        prefixes(with_word(with_word(words, word), word)) == prefixes(with_word(words, word)),
        forall|other: Seq<char>|
            with_word(with_word(words, word), word).contains(other) == with_word(
                words,
                word,
            ).contains(other),
{
    assert(with_word(with_word(words, word), word) =~= with_word(words, word));
}

/// An insertion adds one to the number of words if the word is new and
/// not empty, and nothing otherwise.
pub proof fn lemma_with_word_len(words: Set<Seq<char>>, word: Seq<char>)
    requires
        words.finite(),
    ensures
        with_word(words, word).finite(),
        with_word(words, word).len() == words.len() + if word.len() > 0 && !words.contains(word) {
            1nat
        } else {
            0nat
        },
{
}

/// A set filled from nothing holds the words that were inserted, except
/// the empty word, and no others.
pub proof fn lemma_with_words_members(list: Seq<Seq<char>>, word: Seq<char>)
    ensures
        with_words(Set::empty(), list).contains(word) <==> word.len() > 0 && list.contains(word),
    decreases list.len(),
{
    if list.len() > 0 {
        let earlier = list.drop_last();
        lemma_with_words_members(earlier, word);
        if earlier.contains(word) {
            let i = choose|i: int| 0 <= i < earlier.len() && earlier[i] == word;
            assert(list[i] == word);
        }
        if list.contains(word) {
            let i = choose|i: int| 0 <= i < list.len() && list[i] == word;
            if i < earlier.len() {
                assert(earlier[i] == word);
            }
        }
        assert(list[list.len() - 1] == list.last());
    }
}

/// A set filled from nothing never holds the empty word.
pub proof fn lemma_with_words_no_empty_word(list: Seq<Seq<char>>)
    ensures
        !with_words(Set::empty(), list).contains(Seq::<char>::empty()),
{
    lemma_with_words_members(list, Seq::<char>::empty());
}

/// A word of `n` letters has at most `n` beginnings.
pub proof fn lemma_beginnings_count(word: Seq<char>, upto: int)
    requires
        0 <= upto,
    ensures
        beginnings(word, upto).finite(),
        beginnings(word, upto).len() <= upto,
    decreases upto,
{
    if upto == 0 {
        assert(beginnings(word, upto) =~= Set::<Seq<char>>::empty());
    } else {
        lemma_beginnings_count(word, upto - 1);
        let shorter = beginnings(word, upto - 1);
        if upto <= word.len() {
            assert forall|p: Seq<char>| beginnings(word, upto).contains(p) <==> shorter.insert(
                word.take(upto),
            ).contains(p) by {
                if beginnings(word, upto).contains(p) {
                    let k = choose|k: int|
                        0 < k <= upto && k <= word.len() && p == #[trigger] word.take(k);
                    if k < upto {
                        assert(shorter.contains(p));
                    }
                }
                if shorter.contains(p) {
                    let k = choose|k: int|
                        0 < k <= upto - 1 && k <= word.len() && p == #[trigger] word.take(k);
                    assert(0 < k <= upto);
                }
            }
            assert(beginnings(word, upto) =~= shorter.insert(word.take(upto)));
        } else {
            assert forall|p: Seq<char>| beginnings(word, upto).contains(p) <==> shorter.contains(
                p,
            ) by {
                if beginnings(word, upto).contains(p) {
                    let k = choose|k: int|
                        0 < k <= upto && k <= word.len() && p == #[trigger] word.take(k);
                    assert(0 < k <= upto - 1);
                }
                if shorter.contains(p) {
                    let k = choose|k: int|
                        0 < k <= upto - 1 && k <= word.len() && p == #[trigger] word.take(k);
                    assert(0 < k <= upto);
                }
            }
            assert(beginnings(word, upto) =~= shorter);
        }
    }
}

/// An insertion adds the beginnings of the inserted word to the
/// beginnings, and nothing else.
pub proof fn lemma_prefixes_with_word(words: Set<Seq<char>>, word: Seq<char>)
    ensures
        prefixes(with_word(words, word)) == prefixes(words).union(
            beginnings(word, word.len() as int),
        ),
{
    let after = prefixes(with_word(words, word));
    let own = beginnings(word, word.len() as int);
    assert forall|p: Seq<char>| after.contains(p) <==> prefixes(words).union(own).contains(p) by {
        if after.contains(p) {
            let w = choose|w: Seq<char>| with_word(words, word).contains(w) && p.is_prefix_of(w);
            if words.contains(w) {
                assert(prefixes(words).contains(p));
            } else {
                assert(w == word);
                assert(p == word.take(p.len() as int));
                assert(own.contains(p));
            }
        }
        if prefixes(words).contains(p) {
            let w = choose|w: Seq<char>| words.contains(w) && p.is_prefix_of(w);
            assert(with_word(words, word).contains(w));
        }
        if own.contains(p) {
            let k = choose|k: int|
                0 < k <= word.len() && k <= word.len() && p == #[trigger] word.take(k);
            assert(with_word(words, word).contains(word) && p.is_prefix_of(word));
        }
    }
    assert(after =~= prefixes(words).union(own));
}

/// An insertion adds at most one beginning for each letter of the word.
pub proof fn lemma_prefixes_step(words: Set<Seq<char>>, word: Seq<char>)
    requires
        prefixes(words).finite(),
    ensures
        prefixes(with_word(words, word)).finite(),
        prefixes(words).len() <= prefixes(with_word(words, word)).len() <= prefixes(words).len()
            + word.len(),
{
    let own = beginnings(word, word.len() as int);
    lemma_prefixes_with_word(words, word);
    lemma_beginnings_count(word, word.len() as int);
    lemma_len_union(prefixes(words), own);
    lemma_len_subset(prefixes(words), prefixes(words).union(own));
}

/// The words of a list have finitely many beginnings.
pub proof fn lemma_prefixes_finite(list: Seq<Seq<char>>)
    ensures
        prefixes(with_words(Set::empty(), list)).finite(),
    decreases list.len(),
{
    if list.len() == 0 {
        assert(prefixes(Set::<Seq<char>>::empty()) =~= Set::<Seq<char>>::empty());
    } else {
        lemma_prefixes_finite(list.drop_last());
        lemma_prefixes_step(with_words(Set::empty(), list.drop_last()), list.last());
    }
}

/// More words have more beginnings.
pub proof fn lemma_prefixes_monotone(fewer: Set<Seq<char>>, more: Set<Seq<char>>)
    requires
        fewer.subset_of(more),
        prefixes(more).finite(),
    ensures
        prefixes(fewer).subset_of(prefixes(more)),
        prefixes(fewer).finite(),
        prefixes(fewer).len() <= prefixes(more).len(),
{
    assert forall|p: Seq<char>| prefixes(fewer).contains(p) implies prefixes(more).contains(p) by {
        let w = choose|w: Seq<char>| fewer.contains(w) && p.is_prefix_of(w);
        assert(more.contains(w));
    }
    lemma_len_subset(prefixes(fewer), prefixes(more));
}

} // verus!
