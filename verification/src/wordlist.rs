//! A lexicon from a word list: a text with one word on each line.

use crate::text::string_from_letters;
use crate::trie::Trie;
use crate::wordset::lemma_prefixes_finite;
use crate::wordset::lemma_prefixes_monotone;
use crate::wordset::lemma_prefixes_step;
use crate::wordset::lemma_with_words_members;
use crate::wordset::prefixes;
use crate::wordset::with_word;
use crate::wordset::with_words;
use vstd::prelude::*;

verus! {

/// The lines of `text`: the pieces between its line feeds, in order. A
/// text of `n` line feeds has `n + 1` lines, some of which may be empty.
pub open spec fn lines(text: Seq<char>) -> Seq<Seq<char>>
    decreases text.len(),
{
    if text.len() == 0 {
        seq![Seq::empty()]
    } else {
        let before = lines(text.drop_last());
        if text.last() == '\n' {
            before.push(Seq::empty())
        } else {
            before.drop_last().push(before.last().push(text.last()))
        }
    }
}

/// A text has at least one line.
pub proof fn lemma_lines_nonempty(text: Seq<char>)
    ensures
        lines(text).len() > 0,
    decreases text.len(),
{
    if text.len() > 0 {
        lemma_lines_nonempty(text.drop_last());
    }
}

/// A line that the first `upto` letters of a text complete is a line of
/// the text.
pub proof fn lemma_lines_kept(text: Seq<char>, upto: int, line: Seq<char>)
    requires
        0 <= upto <= text.len(),
        lines(text.take(upto)).drop_last().contains(line),
    ensures
        lines(text).contains(line),
    decreases text.len() - upto,
{
    let done = lines(text.take(upto)).drop_last();
    let i = choose|i: int| 0 <= i < done.len() && done[i] == line;
    if upto == text.len() {
        assert(text.take(upto) =~= text);
        assert(lines(text)[i] == line);
    } else {
        let before = lines(text.take(upto));
        let next = lines(text.take(upto + 1));
        assert(text.take(upto + 1).drop_last() =~= text.take(upto));
        lemma_lines_nonempty(text.take(upto));
        assert(next.drop_last()[i] == line);
        lemma_lines_kept(text, upto + 1, line);
    }
}

/// Adds the line to the lexicon, if the tree has room for it.
fn add_line(lexicon: &mut Trie, line: Vec<char>) -> (added: bool)
    requires
        old(lexicon).wf(),
    ensures
        final(lexicon).wf(),
        added == (prefixes(with_word(old(lexicon)@, line@)).len() < u32::MAX),
        added ==> final(lexicon)@ == with_word(old(lexicon)@, line@),
        !added ==> *final(lexicon) == *old(lexicon),
{
    let word = string_from_letters(line);
    if lexicon.has_room(word.as_str()) {
        lexicon.insert(word.as_str());
        true
    } else {
        false
    }
}

/// The words of a list whose first lines do not fit do not fit either.
proof fn lemma_no_room(text: Seq<char>, upto: int)
    requires
        0 <= upto <= text.len(),
        upto < text.len() ==> text[upto] == '\n',
        prefixes(with_words(Set::empty(), lines(text.take(upto)))).len() >= u32::MAX,
    ensures
        prefixes(with_words(Set::empty(), lines(text))).len() >= u32::MAX,
{
    let first = with_words(Set::empty(), lines(text.take(upto)));
    let all = with_words(Set::empty(), lines(text));
    if upto == text.len() {
        assert(text.take(upto) =~= text);
    } else {
        assert forall|w: Seq<char>| first.contains(w) implies all.contains(w) by {
            lemma_with_words_members(lines(text.take(upto)), w);
            lemma_with_words_members(lines(text), w);
            assert(text.take(upto + 1).drop_last() =~= text.take(upto));
            assert(lines(text.take(upto + 1)).drop_last() =~= lines(text.take(upto)));
            lemma_lines_kept(text, upto + 1, w);
        }
        lemma_prefixes_finite(lines(text));
        lemma_prefixes_monotone(first, all);
    }
}

/// The lexicon of the lines of `word_list` that are not empty.
///
/// The tree has a node for each beginning of a word and numbers its nodes
/// in 32 bits: the result is `None` if the words have `u32::MAX`
/// beginnings or more, which takes a list of at least as many letters.
pub fn lexicon_from_lines(word_list: &str) -> (lexicon: Option<Trie>)
    ensures
        lexicon is Some <==> prefixes(with_words(Set::empty(), lines(word_list@))).len()
            < u32::MAX,
        lexicon matches Some(trie) ==> trie.wf() && trie@ == with_words(
            Set::empty(),
            lines(word_list@),
        ),
        word_list@.len() < u32::MAX ==> lexicon is Some,
{
    let mut trie = Trie::new();
    let mut line: Vec<char> = Vec::new();
    proof {
        assert(word_list@.take(0) =~= Seq::<char>::empty());
        assert(lines(word_list@.take(0)).drop_last() =~= Seq::<Seq<char>>::empty());
        trie.lemma_size_fits();
        assert(prefixes(trie@) =~= Set::<Seq<char>>::empty());
    }
    for letter in it: word_list.chars()
        invariant
            it.seq() == word_list@,
            trie.wf(),
            lines(word_list@.take(it.index())).len() > 0,
            trie@ == with_words(Set::empty(), lines(word_list@.take(it.index())).drop_last()),
            line@ == lines(word_list@.take(it.index())).last(),
            prefixes(trie@).len() + line@.len() <= it.index(),
    {
        let ghost i = it.index();
        let ghost before = lines(word_list@.take(i));
        proof {
            assert(word_list@.take(i + 1).drop_last() =~= word_list@.take(i));
            assert(word_list@.take(i + 1).last() == letter);
            lemma_lines_nonempty(word_list@.take(i + 1));
            trie.lemma_size_fits();
            lemma_prefixes_step(trie@, line@);
        }
        if letter == '\n' {
            proof {
                assert(before.push(Seq::empty()).drop_last() =~= before);
            }
            let full = line;
            line = Vec::new();
            if !add_line(&mut trie, full) {
                proof {
                    lemma_no_room(word_list@, i);
                }
                return None;
            }
        } else {
            line.push(letter);
            proof {
                let after = before.drop_last().push(before.last().push(letter));
                assert(after.drop_last() =~= before.drop_last());
            }
        }
    }
    proof {
        assert(word_list@.take(word_list@.len() as int) =~= word_list@);
        let all = lines(word_list@);
        assert(all.drop_last().push(all.last()) =~= all);
        trie.lemma_size_fits();
        lemma_prefixes_step(trie@, line@);
    }
    if !add_line(&mut trie, line) {
        proof {
            lemma_no_room(word_list@, word_list@.len() as int);
        }
        return None;
    }
    proof {
        trie.lemma_size_fits();
    }
    Some(trie)
}

} // verus!
