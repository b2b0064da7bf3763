//! The search: every word of a lexicon that can be laid out with some of
//! the letters of a hand, each letter used at most once.
//!
//! The search goes through the subsets of the hand in the order of
//! their masks and, for each subset, through its arrangements; it notes
//! each arrangement that is a word, once.

use crate::permute::arranges;
use crate::permute::heap_new;
use crate::permute::heap_next;
use crate::permute::heap_order;
use crate::permute::heap_pending;
use crate::permute::MAX_LETTERS;
use crate::powerset::lemma_picked_len;
use crate::powerset::lemma_subsets_are_the_parts;
use crate::powerset::powerset;
use crate::powerset::subset_at;
use crate::text::letters_of;
use crate::text::string_from_letters;
use crate::trie::Trie;
use vstd::arithmetic::power2::pow2;
use vstd::prelude::*;

verus! {

/// Why a search was refused.
#[derive(Debug, Clone, Copy, PartialEq, Eq)]
pub enum SearchError {
    /// The hand holds more than `MAX_LETTERS` letters.
    TooManyLetters,
}

/// The letter sequences of a list of strings.
pub open spec fn texts(list: Seq<String>) -> Seq<Seq<char>> {
    list.map_values(|s: String| s@)
}

/// Whether `word` can be laid out with letters of `hand`, each used at
/// most once.
pub open spec fn formable(word: Seq<char>, hand: Seq<char>) -> bool {
    word.to_multiset().subset_of(hand.to_multiset())
}

/// The list after one candidate: the candidate is appended if it is a
/// word and not yet listed.
pub open spec fn noted(words: Set<Seq<char>>, found: Seq<Seq<char>>, candidate: Seq<char>) -> Seq<
    Seq<char>,
> {
    if words.contains(candidate) && !found.contains(candidate) {
        found.push(candidate)
    } else {
        found
    }
}

/// The list after a run of candidates, taken in order.
pub open spec fn noted_all(
    words: Set<Seq<char>>,
    found: Seq<Seq<char>>,
    candidates: Seq<Seq<char>>,
) -> Seq<Seq<char>>
    decreases candidates.len(),
{
    if candidates.len() == 0 {
        found
    } else {
        noted(words, noted_all(words, found, candidates.drop_last()), candidates.last())
    }
}

/// The order in which the arrangements of the subset at `mask` come.
pub open spec fn subset_order(hand: Seq<char>, mask: nat) -> Seq<Seq<char>> {
    heap_order(subset_at(hand, mask))
}

/// The list after the subsets of `hand` with a mask below `masks`.
pub open spec fn discovered(words: Set<Seq<char>>, hand: Seq<char>, masks: nat) -> Seq<Seq<char>>
    decreases masks,
{
    if masks == 0 {
        Seq::empty()
    } else {
        noted_all(
            words,
            discovered(words, hand, (masks - 1) as nat),
            subset_order(hand, (masks - 1) as nat),
        )
    }
}

/// The words found in `hand`, in the order of their discovery.
pub open spec fn discoveries(words: Set<Seq<char>>, hand: Seq<char>) -> Seq<Seq<char>> {
    discovered(words, hand, pow2(hand.len()))
}

/// For each mask below `masks`, the arrangements of its subset are known
/// to be just that: all sequences of the subset's letters.
pub open spec fn arranged_below(hand: Seq<char>, masks: nat) -> bool {
    forall|mask: nat|
        mask < masks ==> arranges(#[trigger] subset_order(hand, mask), subset_at(hand, mask))
}

/// Appending what is not yet listed keeps a list free of repetitions.
proof fn lemma_push_fresh(found: Seq<Seq<char>>, candidate: Seq<char>)
    requires
        found.no_duplicates(),
        !found.contains(candidate),
    ensures
        found.push(candidate).no_duplicates(),
        forall|w: Seq<char>|
            #[trigger] found.push(candidate).contains(w) <==> found.contains(w) || w == candidate,
{
    let grown = found.push(candidate);
    assert forall|i: int, j: int| 0 <= i < grown.len() && 0 <= j < grown.len() && i != j implies grown[i]
        != grown[j] by {
        if i < found.len() {
            assert(found.contains(found[i]));
        }
        if j < found.len() {
            assert(found.contains(found[j]));
        }
    }
    assert forall|w: Seq<char>| #[trigger]
        grown.contains(w) <==> found.contains(w) || w == candidate by {
        if found.contains(w) {
            let i = choose|i: int| 0 <= i < found.len() && found[i] == w;
            assert(grown[i] == w);
        }
        if w == candidate {
            assert(grown[found.len() as int] == w);
        }
        if grown.contains(w) {
            let i = choose|i: int| 0 <= i < grown.len() && grown[i] == w;
            if i < found.len() {
                assert(found[i] == w);
            }
        }
    }
}

/// After a run of candidates the list holds what it held and those
/// candidates that are words, and it repeats nothing if it did not before.
pub proof fn lemma_noted_all(
    words: Set<Seq<char>>,
    found: Seq<Seq<char>>,
    candidates: Seq<Seq<char>>,
)
    ensures
        found.no_duplicates() ==> noted_all(words, found, candidates).no_duplicates(),
        forall|w: Seq<char>|
            #[trigger] noted_all(words, found, candidates).contains(w) <==> found.contains(w) || (
            words.contains(w) && candidates.contains(w)),
    decreases candidates.len(),
{
    if candidates.len() > 0 {
        let earlier = candidates.drop_last();
        let last = candidates.last();
        let list = noted_all(words, found, earlier);
        lemma_noted_all(words, found, earlier);
        if words.contains(last) && !list.contains(last) {
            if found.no_duplicates() {
                lemma_push_fresh(list, last);
            }
        }
        assert forall|w: Seq<char>| #[trigger]
            noted_all(words, found, candidates).contains(w) <==> found.contains(w) || (
            words.contains(w) && candidates.contains(w)) by {
            let after = noted_all(words, found, candidates);
            if candidates.contains(w) {
                let i = choose|i: int| 0 <= i < candidates.len() && candidates[i] == w;
                if i < earlier.len() {
                    assert(earlier[i] == w);
                }
            }
            if earlier.contains(w) {
                let i = choose|i: int| 0 <= i < earlier.len() && earlier[i] == w;
                assert(candidates[i] == w);
            }
            assert(candidates[candidates.len() - 1] == last);
            if words.contains(last) && !list.contains(last) {
                if list.contains(w) {
                    let i = choose|i: int| 0 <= i < list.len() && list[i] == w;
                    assert(after[i] == w);
                }
                if w == last {
                    assert(after[list.len() as int] == w);
                }
                if after.contains(w) {
                    let i = choose|i: int| 0 <= i < after.len() && after[i] == w;
                    if i < list.len() {
                        assert(list[i] == w);
                    }
                }
            }
        }
    }
}

/// After the subsets below `masks` the list holds, once each, the words
/// that have the letters of one of those subsets.
proof fn lemma_discovered(words: Set<Seq<char>>, hand: Seq<char>, masks: nat)
    requires
        arranged_below(hand, masks),
    ensures
        discovered(words, hand, masks).no_duplicates(),
        forall|w: Seq<char>|
            #[trigger] discovered(words, hand, masks).contains(w) <==> words.contains(w)
                && exists|mask: nat|
                mask < masks && #[trigger] subset_at(hand, mask).to_multiset() == w.to_multiset(),
    decreases masks,
{
    if masks > 0 {
        let top = (masks - 1) as nat;
        let list = discovered(words, hand, top);
        let order = subset_order(hand, top);
        lemma_discovered(words, hand, top);
        lemma_noted_all(words, list, order);
        assert(arranges(order, subset_at(hand, top)));
        assert forall|w: Seq<char>| #[trigger]
            discovered(words, hand, masks).contains(w) <==> words.contains(w) && exists|mask: nat|
                mask < masks && #[trigger] subset_at(hand, mask).to_multiset()
                    == w.to_multiset() by {
            if order.contains(w) {
                assert(subset_at(hand, top).to_multiset() == w.to_multiset());
            }
            if list.contains(w) {
                let mask = choose|mask: nat|
                    mask < top && #[trigger] subset_at(hand, mask).to_multiset() == w.to_multiset();
                assert(mask < masks);
            }
            if words.contains(w) && exists|mask: nat|
                mask < masks && #[trigger] subset_at(hand, mask).to_multiset() == w.to_multiset() {
                let mask = choose|mask: nat|
                    mask < masks && #[trigger] subset_at(hand, mask).to_multiset()
                        == w.to_multiset();
                if mask == top {
                    assert(order.contains(w));
                } else {
                    assert(mask < top);
                    assert(list.contains(w));
                }
            }
        }
    } else {
        assert forall|w: Seq<char>| !(#[trigger] discovered(words, hand, masks).contains(w)) by {}
    }
}

/// What a search discovers is what the hand can form: the search lists,
/// once each, the words whose letters are among the letters of the hand.
proof fn lemma_discoveries(words: Set<Seq<char>>, hand: Seq<char>)
    requires
        arranged_below(hand, pow2(hand.len())),
    ensures
        discoveries(words, hand).no_duplicates(),
        forall|w: Seq<char>|
            #[trigger] discoveries(words, hand).contains(w) <==> words.contains(w) && formable(
                w,
                hand,
            ),
{
    lemma_discovered(words, hand, pow2(hand.len()));
    assert forall|w: Seq<char>| #[trigger]
        discoveries(words, hand).contains(w) <==> words.contains(w) && formable(w, hand) by {
        lemma_subsets_are_the_parts(hand, w.to_multiset());
    }
}

/// Whether `word` is in `found`.
fn listed(found: &Vec<String>, word: &String) -> (yes: bool)
    ensures
        yes == texts(found@).contains(word@),
{
    let mut i: usize = 0;
    while i < found.len()
        invariant
            i <= found.len(),
            forall|k: int| 0 <= k < i ==> texts(found@)[k] != word@,
        decreases found.len() - i,
    {
        if found[i] == *word {
            assert(texts(found@)[i as int] == word@);
            return true;
        }
        i += 1;
    }
    false
}

/// Notes one candidate: appends it to `found` if the lexicon holds it
/// and `found` does not.
pub fn note_word(lexicon: &Trie, found: &mut Vec<String>, candidate: Vec<char>)
    requires
        lexicon.wf(),
    ensures
        texts(final(found)@) == noted(lexicon@, texts(old(found)@), candidate@),
{
    let word = string_from_letters(candidate);
    if lexicon.contains(word.as_str()) && !listed(found, &word) {
        found.push(word);
        assert(texts(found@) =~= texts(old(found)@).push(word@));
    }
}

/// The words of `lexicon` that can be laid out with letters of `hand`,
/// each word once, in the order of their discovery. A hand of more than
/// `MAX_LETTERS` letters is refused.
pub fn find_words(lexicon: &Trie, hand: &str) -> (result: Result<Vec<String>, SearchError>)
    requires
        lexicon.wf(),
    ensures
        result is Err <==> hand@.len() > MAX_LETTERS,
        result matches Ok(found) ==> {
            &&& texts(found@) == discoveries(lexicon@, hand@)
            &&& texts(found@).no_duplicates()
            &&& forall|w: Seq<char>|
                #[trigger] texts(found@).contains(w) <==> lexicon@.contains(w) && formable(
                    w,
                    hand@,
                )
        },
{
    let letters = letters_of(hand);
    if letters.len() > MAX_LETTERS {
        return Err(SearchError::TooManyLetters);
    }
    let subsets = powerset(letters.as_slice());
    let mut found: Vec<String> = Vec::new();
    assert(texts(found@) =~= Seq::<Seq<char>>::empty());
    for subset in it: subsets.into_iter()
        invariant
            lexicon.wf(),
            it.seq() == subsets@,
            subsets@.len() == pow2(hand@.len()),
            forall|mask: int|
                0 <= mask < subsets@.len() ==> (#[trigger] subsets@[mask])@ == subset_at(
                    hand@,
                    mask as nat,
                ),
            hand@.len() <= MAX_LETTERS,
            texts(found@) == discovered(lexicon@, hand@, it.index() as nat),
            arranged_below(hand@, it.index() as nat),
    {
        let ghost mask = it.index();
        let ghost before = texts(found@);
        let mut items = subset;
        let ghost order = heap_order(items@);
        assert(items@ == subset_at(hand@, mask as nat));
        assert(items@.len() <= MAX_LETTERS) by {
            lemma_picked_len(hand@, mask as nat, hand@.len());
        }
        let mut heap = heap_new(&mut items);
        assert(arranges(subset_order(hand@, mask as nat), subset_at(hand@, mask as nat)));
        let ghost mut done: int = 0;
        loop
            invariant
                lexicon.wf(),
                0 <= done <= order.len(),
                heap_pending(heap) == order.skip(done),
                texts(found@) == noted_all(lexicon@, before, order.take(done)),
            ensures
                texts(found@) == noted_all(lexicon@, before, order),
            decreases heap_pending(heap).len(),
        {
            match heap_next(&mut heap) {
                None => {
                    assert(order.take(done) =~= order);
                    break ;
                },
                Some(candidate) => {
                    assert(order.take(done + 1).drop_last() =~= order.take(done));
                    assert(order.skip(done).drop_first() =~= order.skip(done + 1));
                    note_word(lexicon, &mut found, candidate);
                    proof {
                        done = done + 1;
                    }
                },
            }
        }
    }
    proof {
        lemma_discoveries(lexicon@, hand@);
    }
    Ok(found)
}

} // verus!
