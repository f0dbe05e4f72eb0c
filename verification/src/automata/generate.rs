//! Patterns for the exercise, put together from numbers drawn elsewhere.

use crate::automata::compile::valid_pattern;
use crate::text::{chars_of, is_alphanumeric, push_char};
use vstd::prelude::*;

verus! {

/// The characters that a drawn pattern is made of.
pub open spec fn letters() -> Seq<char> {
    "abcdefghijklmnopqrstuvwxyzABCDEFGHIJKLMNOPQRSTUVWXYZ1234567890"@
}

/// The word that a list of picks stands for: for each pick the letter at
/// that index, counted round the letters.
pub open spec fn picked_word(picks: Seq<usize>) -> Seq<char> {
    Seq::new(picks.len(), |j: int| letters()[picks[j] as int % 62])
}

/// The words that lists of picks stand for.
pub open spec fn picked_words(picks: Seq<Vec<usize>>) -> Seq<Seq<char>> {
    Seq::new(picks.len(), |i: int| picked_word(picks[i]@))
}

/// The words with a separator `|` between neighbours.
pub open spec fn alternation(ws: Seq<Seq<char>>) -> Seq<char>
    decreases ws.len(),
{
    if ws.len() == 0 {
        Seq::empty()
    } else if ws.len() == 1 {
        ws[0]
    } else {
        alternation(ws.drop_last()) + seq!['|'] + ws.last()
    }
}

/// The number of words of a drawn pattern, from a raw draw: between one
/// and ten.
pub fn word_count(draw: usize) -> (count: usize)
    ensures
        count == 1 + draw % 10,
        1 <= count <= 10,
{
    1 + draw % 10
}

/// The number of letters of a word of a drawn pattern, from a raw draw:
/// between one and nineteen.
pub fn word_length(draw: usize) -> (length: usize)
    ensures
        length == 1 + draw % 19,
        1 <= length <= 19,
{
    1 + draw % 19
}

/// There are 62 letters, each an ASCII letter or digit.
pub proof fn lemma_letters()
    ensures
        letters().len() == 62,
        forall|k: int| 0 <= k < 62 ==> is_alphanumeric(#[trigger] letters()[k]),
{
    reveal_strlit("abcdefghijklmnopqrstuvwxyzABCDEFGHIJKLMNOPQRSTUVWXYZ1234567890");
}

/// Puts a pattern together from picks: one word for each list, one letter
/// for each pick, the words separated by `|`. Whatever the picks, the
/// pattern is one that the compiler accepts.
pub fn pattern_from_picks(picks: &[Vec<usize>]) -> (pattern: String)
    ensures
        pattern@ == alternation(picked_words(picks@)),
        valid_pattern(pattern@),
{
    let table = chars_of("abcdefghijklmnopqrstuvwxyzABCDEFGHIJKLMNOPQRSTUVWXYZ1234567890");
    let mut pattern = String::new();
    let ghost all = picked_words(picks@);
    let mut i: usize = 0;
    proof {
        lemma_letters();
        assert(all.take(0) =~= Seq::<Seq<char>>::empty());
    }
    while i < picks.len()
        invariant
            i <= picks@.len(),
            table@ == letters(),
            table@.len() == 62,
            forall|k: int| 0 <= k < 62 ==> is_alphanumeric(#[trigger] letters()[k]),
            all == picked_words(picks@),
            pattern@ == alternation(all.take(i as int)),
            valid_pattern(pattern@),
        decreases picks@.len() - i,
    {
        let ghost before = pattern@;
        if i > 0 {
            push_char(&mut pattern, '|');
        }
        let ghost opened = pattern@;
        let word = &picks[i];
        let mut j: usize = 0;
        while j < word.len()
            invariant
                j <= word@.len(),
                table@ == letters(),
                table@.len() == 62,
                forall|k: int| 0 <= k < 62 ==> is_alphanumeric(#[trigger] letters()[k]),
                pattern@ == opened + picked_word(word@).take(j as int),
                valid_pattern(pattern@),
            decreases word@.len() - j,
        {
            let c: char = table[word[j] % 62];
            let ghost shorter = pattern@;
            push_char(&mut pattern, c);
            proof {
                assert(picked_word(word@).take(j + 1) =~= picked_word(word@).take(j as int).push(c));
                assert(pattern@ =~= opened + picked_word(word@).take(j + 1));
                assert forall|k: int| 0 <= k < pattern@.len() implies (#[trigger] pattern@[k])
                    == '|' || is_alphanumeric(pattern@[k]) by {
                    if k < shorter.len() {
                        assert(pattern@[k] == shorter[k]);
                    } else {
                        assert(is_alphanumeric(letters()[word@[j as int] as int % 62]));
                    }
                }
            }
            j += 1;
        }
        proof {
            let prefix = all.take(i + 1);
            assert(picked_word(word@).take(j as int) =~= picked_word(word@));
            assert(prefix.drop_last() =~= all.take(i as int));
            assert(prefix.last() == picked_word(word@));
            if i == 0 {
                assert(before =~= Seq::<char>::empty());
                assert(pattern@ =~= alternation(prefix));
            } else {
                assert(opened =~= before + seq!['|']);
                assert(pattern@ =~= alternation(prefix));
            }
        }
        i += 1;
    }
    proof {
        assert(all.take(i as int) =~= all);
    }
    pattern
}

} // verus!
