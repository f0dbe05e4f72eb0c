//! The pattern compiler: from an alternation of words to the transitions of
//! an automaton that accepts each word, letters in either case.

use crate::automata::model::{transitions, Edge, Transition};
use crate::text::{
    alphanumeric, chars_of, decimal, is_alphanumeric, lower, push_char, push_decimal, string_of,
    to_lower, to_upper, upper,
};
use vstd::prelude::*;

verus! {

/// Why a pattern cannot be compiled.
#[derive(Debug, Clone, Copy, PartialEq, Eq, Structural)]
pub enum PatternError {
    /// The character `found`, at index `position` counted in characters, is
    /// neither a letter, nor a digit, nor the separator `|`.
    InvalidCharacter { position: usize, found: char },
}

impl PatternError {
    /// The text of the error.
    pub open spec fn text() -> Seq<char> {
        "Only alhpanumerical chars and | is allowed"@
    }

    /// The text of the error, for the one who wrote the pattern.
    pub fn message(&self) -> (text: String)
        ensures
            text@ == Self::text(),
    {
        "Only alhpanumerical chars and | is allowed".to_string()
    }
}

/// The name of the state of alternative `id` before character `pos`. All
/// alternatives share the state before their first character.
pub open spec fn state_name(id: nat, pos: nat) -> Seq<char> {
    if pos == 0 {
        seq!['0']
    } else {
        decimal(id) + seq!['-'] + decimal(pos)
    }
}

/// The transitions for character `c` at index `pos` of alternative `id`:
/// one for a digit, and for a letter one with the upper-case label
/// followed by one with the lower-case label.
pub open spec fn char_edges(id: nat, pos: nat, c: char) -> Seq<Transition> {
    let from = state_name(id, pos);
    let to = state_name(id, pos + 1);
    if upper(c) == lower(c) {
        seq![Transition { from, to, label: seq![upper(c)] }]
    } else {
        seq![
            Transition { from, to, label: seq![upper(c)] },
            Transition { from, to, label: seq![lower(c)] },
        ]
    }
}

/// The transitions for the word of alternative `id`: a path from the
/// shared first state, character by character.
pub open spec fn word_edges(word: Seq<char>, id: nat) -> Seq<Transition>
    decreases word.len(),
{
    if word.len() == 0 {
        Seq::empty()
    } else {
        word_edges(word.drop_last(), id) + char_edges(id, (word.len() - 1) as nat, word.last())
    }
}

/// The words between the separators `|` of a pattern. A pattern with `n`
/// separators has `n + 1` words, some of which may be empty.
pub open spec fn words(pattern: Seq<char>) -> Seq<Seq<char>>
    decreases pattern.len(),
{
    if pattern.len() == 0 {
        seq![Seq::empty()]
    } else {
        let before = words(pattern.drop_last());
        if pattern.last() == '|' {
            before.push(Seq::empty())
        } else {
            before.update(before.len() - 1, before.last().push(pattern.last()))
        }
    }
}

/// The transitions for a list of words, the word at index `i` as
/// alternative `i`.
pub open spec fn words_edges(ws: Seq<Seq<char>>) -> Seq<Transition>
    decreases ws.len(),
{
    if ws.len() == 0 {
        Seq::empty()
    } else {
        words_edges(ws.drop_last()) + word_edges(ws.last(), (ws.len() - 1) as nat)
    }
}

/// The transitions that a pattern compiles to.
pub open spec fn compiled(pattern: Seq<char>) -> Seq<Transition> {
    words_edges(words(pattern))
}

/// Every character of the word is a letter or a digit.
pub open spec fn valid_word(word: Seq<char>) -> bool {
    forall|i: int| 0 <= i < word.len() ==> is_alphanumeric(#[trigger] word[i])
}

/// Every character of the pattern is a letter, a digit or the separator.
pub open spec fn valid_pattern(pattern: Seq<char>) -> bool {
    forall|i: int|
        0 <= i < pattern.len() ==> (#[trigger] pattern[i]) == '|' || is_alphanumeric(pattern[i])
}

/// A numeral has at least one digit.
pub proof fn lemma_decimal_nonempty(n: nat)
    ensures
        decimal(n).len() >= 1,
    decreases n,
{
    if n >= 10 {
        lemma_decimal_nonempty(n / 10);
    }
}

/// Every transition of a word ends in a state other than the shared first
/// state, and the first transition starts from the shared first state.
pub proof fn lemma_word_edges(word: Seq<char>, id: nat)
    ensures
        forall|e: int|
            0 <= e < word_edges(word, id).len() ==> (#[trigger] word_edges(word, id)[e]).to.len()
                >= 3,
        word.len() > 0 ==> word_edges(word, id).len() > 0 && word_edges(word, id)[0].from
            == seq!['0'],
        word.len() == 0 ==> word_edges(word, id).len() == 0,
    decreases word.len(),
{
    if word.len() > 0 {
        let pos = (word.len() - 1) as nat;
        lemma_word_edges(word.drop_last(), id);
        lemma_decimal_nonempty(id);
        lemma_decimal_nonempty(pos + 1);
        let last = char_edges(id, pos, word.last());
        assert(state_name(id, pos + 1).len() >= 3);
        assert(last[0].from == state_name(id, pos));
        assert forall|e: int| 0 <= e < word_edges(word, id).len() implies (#[trigger] word_edges(
            word,
            id,
        )[e]).to.len() >= 3 by {
            let before = word_edges(word.drop_last(), id);
            if e < before.len() {
                assert(word_edges(word, id)[e] == before[e]);
            } else {
                assert(word_edges(word, id)[e] == last[e - before.len()]);
            }
        }
    }
}

/// Every transition of a compiled pattern ends in a state other than the
/// shared first state, and the first transition starts from it.
pub proof fn lemma_words_edges(ws: Seq<Seq<char>>)
    ensures
        forall|e: int|
            0 <= e < words_edges(ws).len() ==> (#[trigger] words_edges(ws)[e]).to.len() >= 3,
        words_edges(ws).len() > 0 ==> words_edges(ws)[0].from == seq!['0'],
    decreases ws.len(),
{
    if ws.len() > 0 {
        let id = (ws.len() - 1) as nat;
        lemma_words_edges(ws.drop_last());
        lemma_word_edges(ws.last(), id);
        let before = words_edges(ws.drop_last());
        let last = word_edges(ws.last(), id);
        assert forall|e: int| 0 <= e < words_edges(ws).len() implies (#[trigger] words_edges(
            ws,
        )[e]).to.len() >= 3 by {
            if e < before.len() {
                assert(words_edges(ws)[e] == before[e]);
            } else {
                assert(words_edges(ws)[e] == last[e - before.len()]);
            }
        }
        if words_edges(ws).len() > 0 {
            if before.len() > 0 {
                assert(words_edges(ws)[0] == before[0]);
            } else {
                assert(words_edges(ws)[0] == last[0]);
            }
        }
    }
}

/// `e` names the first character of `pattern` that a pattern cannot hold.
/// A pattern with such a character is not valid.
pub open spec fn rejects(pattern: Seq<char>, e: PatternError) -> bool {
    match e {
        PatternError::InvalidCharacter { position, found } => {
            &&& position < pattern.len()
            &&& found == pattern[position as int]
            &&& found != '|'
            &&& !is_alphanumeric(found)
            &&& valid_pattern(pattern.take(position as int))
            &&& !valid_pattern(pattern)
        },
    }
}

/// `e` names the first character of `word` that a word cannot hold. A
/// word with such a character is not valid.
pub open spec fn rejects_word(word: Seq<char>, e: PatternError) -> bool {
    match e {
        PatternError::InvalidCharacter { position, found } => {
            &&& position < word.len()
            &&& found == word[position as int]
            &&& !is_alphanumeric(found)
            &&& valid_word(word.take(position as int))
            &&& !valid_word(word)
        },
    }
}

/// The name of the state of alternative `id` before character `pos`.
pub fn name_of_state(id: usize, pos: usize) -> (name: String)
    ensures
        name@ == state_name(id as nat, pos as nat),
{
    let mut name = String::new();
    if pos == 0 {
        push_char(&mut name, '0');
        proof {
            assert(name@ =~= seq!['0']);
        }
    } else {
        push_decimal(&mut name, id);
        push_char(&mut name, '-');
        push_decimal(&mut name, pos);
        proof {
            assert(name@ =~= decimal(id as nat) + seq!['-'] + decimal(pos as nat));
        }
    }
    name
}

/// The string that holds the one character `c`.
fn label_of(c: char) -> (label: String)
    ensures
        label@ == seq![c],
{
    let mut label = String::new();
    push_char(&mut label, c);
    proof {
        assert(label@ =~= seq![c]);
    }
    label
}

/// Compiles the word of alternative `id` into its transitions. Fails at the
/// first character that is neither a letter nor a digit.
pub fn automata_edges_from_word(word: &str, id: usize) -> (result: Result<Vec<Edge>, PatternError>)
    ensures
        match result {
            Ok(edges) => valid_word(word@) && transitions(edges@) == word_edges(word@, id as nat),
            Err(e) => rejects_word(word@, e),
        },
{
    let chars = chars_of(word);
    let mut edges: Vec<Edge> = Vec::new();
    let mut i: usize = 0;
    proof {
        assert(transitions(edges@) =~= word_edges(word@.take(0), id as nat));
    }
    while i < chars.len()
        invariant
            i <= chars@.len(),
            chars@ == word@,
            valid_word(word@.take(i as int)),
            transitions(edges@) == word_edges(word@.take(i as int), id as nat),
        decreases chars@.len() - i,
    {
        let c: char = chars[i];
        if !alphanumeric(c) {
            proof {
                assert(word@[i as int] == c);
            }
            return Err(PatternError::InvalidCharacter { position: i, found: c });
        }
        let ghost before = transitions(edges@);
        let up: char = to_upper(c);
        let low: char = to_lower(c);
        edges.push(
            Edge { from: name_of_state(id, i), to: name_of_state(id, i + 1), label: label_of(up) },
        );
        if up != low {
            edges.push(
                Edge {
                    from: name_of_state(id, i),
                    to: name_of_state(id, i + 1),
                    label: label_of(low),
                },
            );
        }
        proof {
            let prefix = word@.take(i + 1);
            assert(prefix.drop_last() =~= word@.take(i as int));
            assert(prefix.last() == c);
            assert(transitions(edges@) =~= before + char_edges(id as nat, i as nat, c));
            assert forall|j: int| 0 <= j < prefix.len() implies is_alphanumeric(
                #[trigger] prefix[j],
            ) by {
                if j < i {
                    assert(word@.take(i as int)[j] == prefix[j]);
                }
            }
        }
        i += 1;
    }
    proof {
        assert(word@.take(i as int) =~= word@);
    }
    Ok(edges)
}

/// The transitions of two lists of edges, one after the other.
proof fn lemma_transitions_concat(first: Seq<Edge>, second: Seq<Edge>)
    ensures
        transitions(first + second) == transitions(first) + transitions(second),
{
    assert(transitions(first + second) =~= transitions(first) + transitions(second));
}

/// A word that is rejected makes the pattern rejected in which it stands
/// after a valid beginning: at the same character, counted from the start
/// of the pattern.
proof fn lemma_word_rejected(
    pattern: Seq<char>,
    start: usize,
    end: usize,
    position: usize,
    found: char,
)
    requires
        start <= end <= pattern.len(),
        valid_pattern(pattern.take(start as int)),
        forall|j: int| start <= j < end ==> pattern[j] != '|',
        rejects_word(
            pattern.subrange(start as int, end as int),
            PatternError::InvalidCharacter { position, found },
        ),
    ensures
        start + position < pattern.len(),
        rejects(
            pattern,
            PatternError::InvalidCharacter { position: (start + position) as usize, found },
        ),
{
    let word = pattern.subrange(start as int, end as int);
    let stop = start + position;
    assert(pattern[stop] == word[position as int]);
    assert forall|j: int| 0 <= j < stop implies (#[trigger] pattern.take(stop)[j]) == '|'
        || is_alphanumeric(pattern.take(stop)[j]) by {
        if j < start {
            assert(pattern.take(start as int)[j] == pattern[j]);
        } else {
            assert(word.take(position as int)[j - start] == pattern[j]);
        }
    }
}

/// A valid word makes the pattern valid up to its end, and past the
/// separator that follows it, where it stands after a valid beginning.
proof fn lemma_word_accepted(pattern: Seq<char>, start: usize, end: usize)
    requires
        start <= end <= pattern.len(),
        valid_pattern(pattern.take(start as int)),
        valid_word(pattern.subrange(start as int, end as int)),
    ensures
        valid_pattern(pattern.take(end as int)),
        end < pattern.len() && pattern[end as int] == '|' ==> valid_pattern(pattern.take(end + 1)),
{
    let word = pattern.subrange(start as int, end as int);
    assert forall|j: int| 0 <= j < end implies (#[trigger] pattern[j]) == '|' || is_alphanumeric(
        pattern[j],
    ) by {
        if j < start {
            assert(pattern.take(start as int)[j] == pattern[j]);
        } else {
            assert(word[j - start] == pattern[j]);
        }
    }
    assert forall|j: int| 0 <= j < end implies (#[trigger] pattern.take(end as int)[j]) == '|'
        || is_alphanumeric(pattern.take(end as int)[j]) by {
        assert(pattern[j] == '|' || is_alphanumeric(pattern[j]));
    }
    if end < pattern.len() && pattern[end as int] == '|' {
        assert forall|j: int| 0 <= j < end + 1 implies (#[trigger] pattern.take(end + 1)[j]) == '|'
            || is_alphanumeric(pattern.take(end + 1)[j]) by {
            if j < end {
                assert(pattern[j] == '|' || is_alphanumeric(pattern[j]));
            }
        }
    }
}

/// Compiles a pattern into the transitions of its automaton: one path per
/// alternative, all from the shared first state `0`. Fails at the first
/// character that is neither a letter, nor a digit, nor the separator.
pub fn split_and_collect(regex: &str) -> (result: Result<Vec<Edge>, PatternError>)
    ensures
        match result {
            Ok(edges) => valid_pattern(regex@) && transitions(edges@) == compiled(regex@),
            Err(e) => rejects(regex@, e),
        },
{
    let chars = chars_of(regex);
    let ghost pattern = regex@;
    let mut edges: Vec<Edge> = Vec::new();
    let mut start: usize = 0;
    let mut id: usize = 0;
    let mut i: usize = 0;
    let ghost mut finished: Seq<Seq<char>> = Seq::empty();
    proof {
        assert(pattern.take(0) =~= Seq::<char>::empty());
        assert(words(pattern.take(0)) =~= finished.push(pattern.subrange(0, 0)));
        assert(transitions(edges@) =~= words_edges(finished));
    }
    while i < chars.len()
        invariant
            chars@ == pattern,
            pattern == regex@,
            id <= start <= i <= pattern.len(),
            id == finished.len(),
            words(pattern.take(i as int)) == finished.push(pattern.subrange(start as int, i as int)),
            transitions(edges@) == words_edges(finished),
            valid_pattern(pattern.take(start as int)),
            forall|j: int| start <= j < i ==> pattern[j] != '|',
        decreases pattern.len() - i,
    {
        let ghost prefix = pattern.take(i + 1);
        proof {
            assert(prefix.drop_last() =~= pattern.take(i as int));
            assert(prefix.last() == pattern[i as int]);
        }
        if chars[i] == '|' {
            let word = string_of(chars.as_slice(), start, i);
            match automata_edges_from_word(word.as_str(), id) {
                Err(PatternError::InvalidCharacter { position, found }) => {
                    proof {
                        lemma_word_rejected(pattern, start, i, position, found);
                    }
                    return Err(
                        PatternError::InvalidCharacter { position: start + position, found },
                    );
                },
                Ok(mut more) => {
                    proof {
                        lemma_transitions_concat(edges@, more@);
                    }
                    edges.append(&mut more);
                },
            }
            proof {
                let done = finished.push(word@);
                assert(done.drop_last() =~= finished);
                assert(pattern.subrange(i + 1, i + 1) =~= Seq::<char>::empty());
                assert(words(prefix) =~= done.push(pattern.subrange(i + 1, i + 1)));
                lemma_word_accepted(pattern, start, i);
                finished = done;
            }
            id += 1;
            start = i + 1;
        } else {
            proof {
                assert(pattern.subrange(start as int, i + 1) =~= pattern.subrange(
                    start as int,
                    i as int,
                ).push(pattern[i as int]));
                assert(words(prefix) =~= finished.push(pattern.subrange(start as int, i + 1)));
            }
        }
        i += 1;
    }
    let word = string_of(chars.as_slice(), start, i);
    match automata_edges_from_word(word.as_str(), id) {
        Err(PatternError::InvalidCharacter { position, found }) => {
            proof {
                lemma_word_rejected(pattern, start, i, position, found);
            }
            Err(PatternError::InvalidCharacter { position: start + position, found })
        },
        Ok(mut more) => {
            proof {
                lemma_transitions_concat(edges@, more@);
                let done = finished.push(word@);
                assert(done.drop_last() =~= finished);
                assert(pattern.take(i as int) =~= pattern);
                lemma_word_accepted(pattern, start, i);
            }
            edges.append(&mut more);
            Ok(edges)
        },
    }
}

} // verus!
