//! Every second word in upper case: the transformation and its check.

use crate::text::{push_char, texts};
use vstd::prelude::*;
use vstd::string::StringExecFns;

verus! {

/// The task: a sentence.
#[derive(Debug, Clone, PartialEq)]
pub struct Input {
    pub source: String,
}

/// An answer to the task: the sentence transformed.
#[derive(Debug, Clone, PartialEq)]
pub struct Output {
    pub transformed: String,
}

impl Default for Input {
    fn default() -> (input: Input)
        ensures
            input.source@ == Seq::<char>::empty(),
    {
        Input { source: String::new() }
    }
}

impl Default for Output {
    fn default() -> (output: Output)
        ensures
            output.transformed@ == Seq::<char>::empty(),
    {
        Output { transformed: String::new() }
    }
}

/// The judgement on an answer.
#[derive(Debug)]
pub enum Validation {
    /// The answer is the sentence transformed.
    Correct,
    /// The answer is something else.
    Mismatch { reason: String },
}

/// What `str::to_uppercase` of the standard library makes of `s`.
pub uninterp spec fn uppercased(s: Seq<char>) -> Seq<char>;

/// `str::to_uppercase` of the standard library. Nothing is said of what the
/// upper case of a string is: the result has a name.
#[verifier::external_body]
fn to_uppercase(s: &str) -> (upper: String)
    ensures
        upper@ == uppercased(s@),
{
    s.to_uppercase()
}

/// White space: the characters with the property `White_Space` of
/// Unicode.
pub open spec fn white_space(c: char) -> bool {
    ||| '\u{9}' <= c <= '\u{d}'
    ||| c == ' '
    ||| c == '\u{85}'
    ||| c == '\u{a0}'
    ||| c == '\u{1680}'
    ||| '\u{2000}' <= c <= '\u{200a}'
    ||| c == '\u{2028}'
    ||| c == '\u{2029}'
    ||| c == '\u{202f}'
    ||| c == '\u{205f}'
    ||| c == '\u{3000}'
}

/// Tells whether `c` is white space.
pub fn is_white_space(c: char) -> (yes: bool)
    ensures
        yes == white_space(c),
{
    ('\u{9}' <= c && c <= '\u{d}') || c == ' ' || c == '\u{85}' || c == '\u{a0}' || c
        == '\u{1680}' || ('\u{2000}' <= c && c <= '\u{200a}') || c == '\u{2028}' || c
        == '\u{2029}' || c == '\u{202f}' || c == '\u{205f}' || c == '\u{3000}'
}

/// The words of `s` that are complete, and the word that is open at its
/// end (empty where `s` ends in white space). Words are the runs of
/// characters between white space.
pub open spec fn scanned(s: Seq<char>) -> (Seq<Seq<char>>, Seq<char>)
    decreases s.len(),
{
    if s.len() == 0 {
        (Seq::empty(), Seq::empty())
    } else {
        let (done, open) = scanned(s.drop_last());
        if white_space(s.last()) {
            if open.len() > 0 {
                (done.push(open), Seq::empty())
            } else {
                (done, open)
            }
        } else {
            (done, open.push(s.last()))
        }
    }
}

/// The words of `s`: its runs of characters between white space.
pub open spec fn words(s: Seq<char>) -> Seq<Seq<char>> {
    let (done, open) = scanned(s);
    if open.len() > 0 {
        done.push(open)
    } else {
        done
    }
}

/// The word at index `i`, in upper case where `i` is odd.
pub open spec fn shouted(word: Seq<char>, i: int) -> Seq<char> {
    if i % 2 == 1 {
        uppercased(word)
    } else {
        word
    }
}

/// The words, every second one in upper case, with one blank between
/// neighbours.
pub open spec fn joined(ws: Seq<Seq<char>>) -> Seq<char>
    decreases ws.len(),
{
    if ws.len() == 0 {
        Seq::empty()
    } else if ws.len() == 1 {
        shouted(ws[0], 0)
    } else {
        joined(ws.drop_last()) + seq![' '] + shouted(ws.last(), ws.len() - 1)
    }
}

/// The sentence transformed: its words, every second one in upper case,
/// with one blank between neighbours.
pub open spec fn transformed(s: Seq<char>) -> Seq<char> {
    joined(words(s))
}

/// What stands at index `i` of a sentence woven from `plain` and `upper`:
/// the word of `upper` where `i` is odd and `upper` has one there, else
/// the word of `plain`.
pub open spec fn strand(plain: Seq<Seq<char>>, upper: Seq<Seq<char>>, i: int) -> Seq<char> {
    if i % 2 == 1 && i < upper.len() {
        upper[i]
    } else {
        plain[i]
    }
}

/// The first `n` words of a sentence woven from `plain` and `upper`, with
/// one blank between neighbours.
pub open spec fn woven(plain: Seq<Seq<char>>, upper: Seq<Seq<char>>, n: nat) -> Seq<char>
    decreases n,
{
    if n == 0 {
        Seq::empty()
    } else if n == 1 {
        strand(plain, upper, 0)
    } else {
        woven(plain, upper, (n - 1) as nat) + seq![' '] + strand(plain, upper, n - 1)
    }
}

/// What is said of an answer that is not the sentence transformed.
pub open spec fn mismatch_text(expected: Seq<char>, got: Seq<char>) -> Seq<char> {
    "Expected '"@ + expected + "', got '"@ + got + "'"@
}

/// Splits a sentence into its words.
pub fn split_words(source: &str) -> (found: Vec<String>)
    ensures
        texts(found@) == words(source@),
{
    let ghost s = source@;
    let mut found: Vec<String> = Vec::new();
    let mut word = String::new();
    let mut open: bool = false;
    proof {
        assert(texts(found@) =~= Seq::<Seq<char>>::empty());
    }
    for c in it: source.chars()
        invariant
            it.seq() == s,
            scanned(s.take(it.index() as int)) == (texts(found@), word@),
            open == (word@.len() > 0),
    {
        let ghost before = s.take(it.index() as int);
        let ghost after = s.take(it.index() + 1);
        let ghost done = texts(found@);
        proof {
            assert(after.drop_last() =~= before);
            assert(after.last() == c);
        }
        if is_white_space(c) {
            if open {
                found.push(word);
                proof {
                    assert(texts(found@) =~= done.push(found@[done.len() as int]@));
                }
                word = String::new();
                open = false;
            }
        } else {
            push_char(&mut word, c);
            open = true;
        }
    }
    proof {
        assert(s.take(s.len() as int) =~= s);
    }
    if open {
        let ghost done = texts(found@);
        found.push(word);
        proof {
            assert(texts(found@) =~= done.push(found@[done.len() as int]@));
        }
    }
    found
}

/// Weaves a sentence from words and their upper-case forms: the word of
/// `upper` at every odd index where `upper` has one, the word of `plain`
/// elsewhere, with one blank between neighbours.
pub fn weave(plain: &[String], upper: &[String]) -> (sentence: String)
    ensures
        sentence@ == woven(texts(plain@), texts(upper@), plain@.len() as nat),
{
    let mut sentence = String::new();
    let mut i: usize = 0;
    let mut odd: bool = false;
    while i < plain.len()
        invariant
            i <= plain@.len(),
            odd == (i % 2 == 1),
            sentence@ == woven(texts(plain@), texts(upper@), i as nat),
        decreases plain@.len() - i,
    {
        if i > 0 {
            push_char(&mut sentence, ' ');
        }
        if odd && i < upper.len() {
            sentence.append(upper[i].as_str());
        } else {
            sentence.append(plain[i].as_str());
        }
        proof {
            assert(sentence@ =~= woven(texts(plain@), texts(upper@), (i + 1) as nat));
        }
        odd = !odd;
        i += 1;
    }
    sentence
}

/// Weaving words with their upper-case forms gives the words with every
/// second one in upper case.
pub proof fn lemma_woven_is_joined(plain: Seq<Seq<char>>, upper: Seq<Seq<char>>, n: nat)
    requires
        n <= plain.len(),
        upper.len() == plain.len(),
        forall|i: int| 0 <= i < plain.len() && i % 2 == 1 ==> upper[i] == uppercased(plain[i]),
    ensures
        woven(plain, upper, n) == joined(plain.take(n as int)),
    decreases n,
{
    let first = plain.take(n as int);
    if n == 1 {
        assert(first[0] == plain[0]);
    } else if n > 1 {
        lemma_woven_is_joined(plain, upper, (n - 1) as nat);
        assert(first.drop_last() =~= plain.take(n - 1));
        assert(first.last() == plain[n - 1]);
    }
}

/// The exercise of shouting every second word of a sentence: writing the
/// expected answer, and judging a submitted one.
pub struct HelloWorldEnv;

impl HelloWorldEnv {
    /// Transforms a sentence: every second word in upper case, one blank
    /// between the words.
    pub fn run(input: &Input) -> (output: Output)
        ensures
            output.transformed@ == transformed(input.source@),
    {
        let plain = split_words(input.source.as_str());
        let mut upper: Vec<String> = Vec::new();
        let mut i: usize = 0;
        let mut odd: bool = false;
        while i < plain.len()
            invariant
                i <= plain@.len(),
                odd == (i % 2 == 1),
                upper@.len() == i,
                forall|j: int|
                    0 <= j < i && j % 2 == 1 ==> (#[trigger] upper@[j])@ == uppercased(plain@[j]@),
            decreases plain@.len() - i,
        {
            if odd {
                upper.push(to_uppercase(plain[i].as_str()));
            } else {
                upper.push(String::new());
            }
            odd = !odd;
            i += 1;
        }
        let sentence = weave(plain.as_slice(), upper.as_slice());
        proof {
            let ws = texts(plain@);
            assert forall|j: int| 0 <= j < ws.len() && j % 2 == 1 implies texts(upper@)[j]
                == uppercased(ws[j]) by {
                assert(upper@[j]@ == uppercased(plain@[j]@));
            }
            lemma_woven_is_joined(ws, texts(upper@), ws.len());
            assert(ws.take(ws.len() as int) =~= ws);
        }
        Output { transformed: sentence }
    }

    /// Judges an answer: it is correct exactly when it is the sentence
    /// transformed.
    pub fn validate(input: &Input, output: &Output) -> (validation: Validation)
        ensures
            match validation {
                Validation::Correct => output.transformed@ == transformed(input.source@),
                Validation::Mismatch { reason } => output.transformed@ != transformed(input.source@)
                    && reason@ == mismatch_text(transformed(input.source@), output.transformed@),
            },
    {
        let expected = Self::run(input).transformed;
        if expected == output.transformed {
            Validation::Correct
        } else {
            let mut reason = String::new();
            reason.append("Expected '");
            reason.append(expected.as_str());
            reason.append("', got '");
            reason.append(output.transformed.as_str());
            reason.append("'");
            proof {
                assert(reason@ =~= mismatch_text(expected@, output.transformed@));
            }
            Validation::Mismatch { reason }
        }
    }
}

/// The words that a drawn sentence is made of.
pub open spec fn vocabulary() -> Seq<Seq<char>> {
    seq![
        "hello"@,
        "world"@,
        "i"@,
        "fun"@,
        "love"@,
        "rust"@,
        "code"@,
        "cake"@,
        "svelte"@,
        "typescript"@,
        "css"@,
        "like"@,
        "is"@,
        "cool"@,
        "Thomas"@,
        "Janus"@,
    ]
}

/// The sentence that a list of picks stands for: for each pick the word at
/// that index, counted round the vocabulary, with one blank between
/// neighbours.
pub open spec fn sentence(picks: Seq<usize>) -> Seq<char>
    decreases picks.len(),
{
    if picks.len() == 0 {
        Seq::empty()
    } else if picks.len() == 1 {
        vocabulary()[picks[0] as int % 16]
    } else {
        sentence(picks.drop_last()) + seq![' '] + vocabulary()[picks.last() as int % 16]
    }
}

/// The number of words of a drawn sentence, from a raw draw: between three
/// and ninety-nine.
pub fn sentence_length(draw: usize) -> (length: usize)
    ensures
        length == 3 + draw % 97,
        3 <= length <= 99,
{
    3 + draw % 97
}

/// The word of the vocabulary at index `k`.
fn vocable(k: usize) -> (word: &'static str)
    requires
        k < 16,
    ensures
        word@ == vocabulary()[k as int],
{
    if k == 0 {
        "hello"
    } else if k == 1 {
        "world"
    } else if k == 2 {
        "i"
    } else if k == 3 {
        "fun"
    } else if k == 4 {
        "love"
    } else if k == 5 {
        "rust"
    } else if k == 6 {
        "code"
    } else if k == 7 {
        "cake"
    } else if k == 8 {
        "svelte"
    } else if k == 9 {
        "typescript"
    } else if k == 10 {
        "css"
    } else if k == 11 {
        "like"
    } else if k == 12 {
        "is"
    } else if k == 13 {
        "cool"
    } else if k == 14 {
        "Thomas"
    } else {
        "Janus"
    }
}

/// Puts a sentence together from picks: one word of the vocabulary for
/// each pick, one blank between neighbours.
pub fn sentence_from_picks(picks: &[usize]) -> (source: String)
    ensures
        source@ == sentence(picks@),
{
    let mut source = String::new();
    let mut i: usize = 0;
    proof {
        assert(picks@.take(0) =~= Seq::<usize>::empty());
    }
    while i < picks.len()
        invariant
            i <= picks@.len(),
            source@ == sentence(picks@.take(i as int)),
        decreases picks@.len() - i,
    {
        if i > 0 {
            push_char(&mut source, ' ');
        }
        source.append(vocable(picks[i] % 16));
        proof {
            let prefix = picks@.take(i + 1);
            assert(prefix.drop_last() =~= picks@.take(i as int));
            assert(prefix.last() == picks@[i as int]);
            assert(source@ =~= sentence(prefix));
        }
        i += 1;
    }
    proof {
        assert(picks@.take(i as int) =~= picks@);
    }
    source
}

} // verus!
