//! The lexer of the graph text: from characters to tokens.

use crate::text::{alphanumeric, is_alphanumeric};
use vstd::prelude::*;

verus! {

/// Why a graph text cannot be read.
#[derive(Debug, Clone, Copy, PartialEq, Eq, Structural)]
pub enum ParseError {
    /// A quoted name is opened and never closed.
    UnterminatedString,
    /// A character stands where no token can start.
    UnexpectedCharacter,
    /// The text does not open with `digraph`, an optional name, and `{`.
    MissingHeader,
    /// The closing `}` of the graph is missing.
    UnterminatedGraph,
    /// A statement is neither a transition, nor a state, nor a setting.
    MalformedStatement,
    /// An attribute list is not closed, or holds something else than
    /// `key = value` pairs.
    MalformedAttributes,
    /// The label of a transition is longer than one character.
    InvalidLabel,
    /// Something follows the closing `}` of the graph.
    TrailingText,
}

impl ParseError {
    /// The text of the error.
    pub open spec fn text(self) -> Seq<char> {
        match self {
            ParseError::UnterminatedString => "a quoted name is not closed"@,
            ParseError::UnexpectedCharacter => "a character stands where no token can start"@,
            ParseError::MissingHeader => "the text does not open with `digraph` and `{`"@,
            ParseError::UnterminatedGraph => "the closing `}` of the graph is missing"@,
            ParseError::MalformedStatement =>
                "a statement is neither a transition, nor a state, nor a setting"@,
            ParseError::MalformedAttributes =>
                "an attribute list is not closed or holds more than `key = value` pairs"@,
            ParseError::InvalidLabel => "the label of a transition is longer than one character"@,
            ParseError::TrailingText => "something follows the closing `}` of the graph"@,
        }
    }

    /// The text of the error, for the one who wrote the graph text.
    pub fn message(&self) -> (text: String)
        ensures
            text@ == self.text(),
    {
        match self {
            ParseError::UnterminatedString => "a quoted name is not closed".to_string(),
            ParseError::UnexpectedCharacter =>
                "a character stands where no token can start".to_string(),
            ParseError::MissingHeader =>
                "the text does not open with `digraph` and `{`".to_string(),
            ParseError::UnterminatedGraph => "the closing `}` of the graph is missing".to_string(),
            ParseError::MalformedStatement =>
                "a statement is neither a transition, nor a state, nor a setting".to_string(),
            ParseError::MalformedAttributes =>
                "an attribute list is not closed or holds more than `key = value` pairs".to_string(),
            ParseError::InvalidLabel =>
                "the label of a transition is longer than one character".to_string(),
            ParseError::TrailingText =>
                "something follows the closing `}` of the graph".to_string(),
        }
    }
}

/// A token of the graph text, as a mathematical value.
pub enum Lexeme {
    /// A name, bare or quoted, without its quotes.
    Id { text: Seq<char>, quoted: bool },
    /// `->`
    Arrow,
    /// `{`
    OpenBrace,
    /// `}`
    CloseBrace,
    /// `[`
    OpenBracket,
    /// `]`
    CloseBracket,
    /// `=`
    Equals,
    /// `;`
    Semicolon,
    /// `,`
    Comma,
}

/// A blank, a tab, a line feed or a carriage return.
pub open spec fn is_space(c: char) -> bool {
    c == ' ' || c == '\t' || c == '\n' || c == '\r'
}

/// A character of a bare name: an ASCII letter, a digit or an underscore.
pub open spec fn is_name_char(c: char) -> bool {
    is_alphanumeric(c) || c == '_'
}

/// The token that the single character `c` stands for, if it is one.
pub open spec fn punctuation(c: char) -> Option<Lexeme> {
    if c == '{' {
        Some(Lexeme::OpenBrace)
    } else if c == '}' {
        Some(Lexeme::CloseBrace)
    } else if c == '[' {
        Some(Lexeme::OpenBracket)
    } else if c == ']' {
        Some(Lexeme::CloseBracket)
    } else if c == '=' {
        Some(Lexeme::Equals)
    } else if c == ';' {
        Some(Lexeme::Semicolon)
    } else if c == ',' {
        Some(Lexeme::Comma)
    } else {
        None
    }
}

/// Where the run of name characters that starts at `i` ends.
pub open spec fn name_end(text: Seq<char>, i: int) -> int
    decreases text.len() - i,
{
    if 0 <= i < text.len() && is_name_char(text[i]) {
        name_end(text, i + 1)
    } else {
        i
    }
}

/// The position of the first `"` at or after `i`, or the end of the text
/// where there is none.
pub open spec fn quote_end(text: Seq<char>, i: int) -> int
    decreases text.len() - i,
{
    if 0 <= i < text.len() && text[i] != '"' {
        quote_end(text, i + 1)
    } else {
        i
    }
}

/// A run of name characters ends at or after its start, within the text,
/// and holds name characters only.
pub proof fn lemma_name_end(text: Seq<char>, i: int)
    requires
        0 <= i <= text.len(),
    ensures
        i <= name_end(text, i) <= text.len(),
        0 <= i < text.len() && is_name_char(text[i]) ==> i < name_end(text, i),
        forall|j: int| i <= j < name_end(text, i) ==> is_name_char(#[trigger] text[j]),
        name_end(text, i) < text.len() ==> !is_name_char(text[name_end(text, i)]),
    decreases text.len() - i,
{
    if i < text.len() && is_name_char(text[i]) {
        lemma_name_end(text, i + 1);
    }
}

/// The search for a `"` ends at or after its start, within the text, and
/// passes over no `"`.
pub proof fn lemma_quote_end(text: Seq<char>, i: int)
    requires
        0 <= i <= text.len(),
    ensures
        i <= quote_end(text, i) <= text.len(),
        forall|j: int| i <= j < quote_end(text, i) ==> (#[trigger] text[j]) != '"',
        quote_end(text, i) < text.len() ==> text[quote_end(text, i)] == '"',
    decreases text.len() - i,
{
    if i < text.len() && text[i] != '"' {
        lemma_quote_end(text, i + 1);
    }
}

/// The tokens of `text` from position `i` on, after the tokens `before`.
/// Blanks separate tokens and are skipped. A quoted name runs to the next
/// `"`, whatever stands between; a bare name is a run of name characters.
pub open spec fn lex_from(text: Seq<char>, i: int, before: Seq<Lexeme>) -> Result<
    Seq<Lexeme>,
    ParseError,
>
    decreases text.len() - i,
    via lex_from_decreases
{
    if i < 0 || i >= text.len() {
        Ok(before)
    } else if is_space(text[i]) {
        lex_from(text, i + 1, before)
    } else if text[i] == '"' {
        let close = quote_end(text, i + 1);
        if close >= text.len() {
            Err(ParseError::UnterminatedString)
        } else {
            lex_from(
                text,
                close + 1,
                before.push(Lexeme::Id { text: text.subrange(i + 1, close), quoted: true }),
            )
        }
    } else if is_name_char(text[i]) {
        let end = name_end(text, i);
        lex_from(text, end, before.push(Lexeme::Id { text: text.subrange(i, end), quoted: false }))
    } else if text[i] == '-' {
        if i + 1 < text.len() && text[i + 1] == '>' {
            lex_from(text, i + 2, before.push(Lexeme::Arrow))
        } else {
            Err(ParseError::UnexpectedCharacter)
        }
    } else {
        match punctuation(text[i]) {
            Some(token) => lex_from(text, i + 1, before.push(token)),
            None => Err(ParseError::UnexpectedCharacter),
        }
    }
}

/// Each token ends after the position at which it starts.
#[via_fn]
proof fn lex_from_decreases(text: Seq<char>, i: int, before: Seq<Lexeme>) {
    if 0 <= i < text.len() {
        lemma_quote_end(text, i + 1);
        lemma_name_end(text, i);
    }
}

/// The tokens of `text`.
pub open spec fn lex(text: Seq<char>) -> Result<Seq<Lexeme>, ParseError> {
    lex_from(text, 0, Seq::empty())
}

/// The kind of a token.
#[derive(Debug, Clone, Copy, PartialEq, Eq, Structural)]
pub enum TokenKind {
    Name,
    Quoted,
    Arrow,
    OpenBrace,
    CloseBrace,
    OpenBracket,
    CloseBracket,
    Equals,
    Semicolon,
    Comma,
}

/// A token of a text: its kind, and for a name the range of characters that
/// holds it (without the quotes of a quoted name).
#[derive(Debug, Clone, Copy)]
pub struct Token {
    pub kind: TokenKind,
    pub start: usize,
    pub end: usize,
}

impl Token {
    /// The token as a mathematical value, its name read from `text`.
    pub open spec fn lexeme(self, text: Seq<char>) -> Lexeme {
        match self.kind {
            TokenKind::Name => Lexeme::Id {
                text: text.subrange(self.start as int, self.end as int),
                quoted: false,
            },
            TokenKind::Quoted => Lexeme::Id {
                text: text.subrange(self.start as int, self.end as int),
                quoted: true,
            },
            TokenKind::Arrow => Lexeme::Arrow,
            TokenKind::OpenBrace => Lexeme::OpenBrace,
            TokenKind::CloseBrace => Lexeme::CloseBrace,
            TokenKind::OpenBracket => Lexeme::OpenBracket,
            TokenKind::CloseBracket => Lexeme::CloseBracket,
            TokenKind::Equals => Lexeme::Equals,
            TokenKind::Semicolon => Lexeme::Semicolon,
            TokenKind::Comma => Lexeme::Comma,
        }
    }

    /// The range of the token lies within `text`.
    pub open spec fn within(self, text: Seq<char>) -> bool {
        self.start <= self.end <= text.len()
    }
}

/// The tokens as mathematical values, their names read from `text`.
pub open spec fn lexemes(text: Seq<char>, tokens: Seq<Token>) -> Seq<Lexeme> {
    Seq::new(tokens.len(), |k: int| tokens[k].lexeme(text))
}

/// Tells whether `c` separates tokens.
pub fn space(c: char) -> (yes: bool)
    ensures
        yes == is_space(c),
{
    c == ' ' || c == '\t' || c == '\n' || c == '\r'
}

/// Tells whether `c` can stand in a bare name.
pub fn name_char(c: char) -> (yes: bool)
    ensures
        yes == is_name_char(c),
{
    alphanumeric(c) || c == '_'
}

/// The kind of the token that the single character `c` stands for.
fn punctuation_kind(c: char) -> (kind: Option<TokenKind>)
    ensures
        match kind {
            Some(k) => punctuation(c) == Some(
                Token { kind: k, start: 0, end: 0 }.lexeme(Seq::empty()),
            ) && k != TokenKind::Name && k != TokenKind::Quoted && k != TokenKind::Arrow,
            None => punctuation(c) is None,
        },
{
    if c == '{' {
        Some(TokenKind::OpenBrace)
    } else if c == '}' {
        Some(TokenKind::CloseBrace)
    } else if c == '[' {
        Some(TokenKind::OpenBracket)
    } else if c == ']' {
        Some(TokenKind::CloseBracket)
    } else if c == '=' {
        Some(TokenKind::Equals)
    } else if c == ';' {
        Some(TokenKind::Semicolon)
    } else if c == ',' {
        Some(TokenKind::Comma)
    } else {
        None
    }
}

/// Splits a text into its tokens.
pub fn tokenize(text: &[char]) -> (result: Result<Vec<Token>, ParseError>)
    ensures
        match result {
            Ok(tokens) => lex(text@) == Ok::<Seq<Lexeme>, ParseError>(lexemes(text@, tokens@))
                && forall|k: int| 0 <= k < tokens@.len() ==> (#[trigger] tokens@[k]).within(text@),
            Err(e) => lex(text@) == Err::<Seq<Lexeme>, ParseError>(e),
        },
{
    let mut tokens: Vec<Token> = Vec::new();
    let mut i: usize = 0;
    proof {
        assert(lexemes(text@, tokens@) =~= Seq::<Lexeme>::empty());
    }
    while i < text.len()
        invariant
            i <= text@.len(),
            lex(text@) == lex_from(text@, i as int, lexemes(text@, tokens@)),
            forall|k: int| 0 <= k < tokens@.len() ==> (#[trigger] tokens@[k]).within(text@),
        decreases text@.len() - i,
    {
        let c: char = text[i];
        let ghost before = lexemes(text@, tokens@);
        if space(c) {
            i += 1;
        } else if c == '"' {
            let mut close: usize = i + 1;
            while close < text.len() && text[close] != '"'
                invariant
                    i + 1 <= close <= text@.len(),
                    quote_end(text@, i + 1) == quote_end(text@, close as int),
                decreases text@.len() - close,
            {
                close += 1;
            }
            if close >= text.len() {
                return Err(ParseError::UnterminatedString);
            }
            tokens.push(Token { kind: TokenKind::Quoted, start: i + 1, end: close });
            proof {
                assert(lexemes(text@, tokens@) =~= before.push(
                    Lexeme::Id { text: text@.subrange(i + 1, close as int), quoted: true },
                ));
            }
            i = close + 1;
        } else if name_char(c) {
            let mut end: usize = i + 1;
            while end < text.len() && name_char(text[end])
                invariant
                    i + 1 <= end <= text@.len(),
                    name_end(text@, i as int) == name_end(text@, end as int),
                decreases text@.len() - end,
            {
                end += 1;
            }
            tokens.push(Token { kind: TokenKind::Name, start: i, end });
            proof {
                assert(lexemes(text@, tokens@) =~= before.push(
                    Lexeme::Id { text: text@.subrange(i as int, end as int), quoted: false },
                ));
            }
            i = end;
        } else if c == '-' {
            if i + 1 < text.len() && text[i + 1] == '>' {
                tokens.push(Token { kind: TokenKind::Arrow, start: i, end: i });
                proof {
                    assert(lexemes(text@, tokens@) =~= before.push(Lexeme::Arrow));
                }
                i += 2;
            } else {
                return Err(ParseError::UnexpectedCharacter);
            }
        } else {
            match punctuation_kind(c) {
                Some(kind) => {
                    tokens.push(Token { kind, start: i, end: i });
                    proof {
                        assert(lexemes(text@, tokens@) =~= before.push(punctuation(c)->0));
                    }
                    i += 1;
                },
                None => {
                    return Err(ParseError::UnexpectedCharacter);
                },
            }
        }
    }
    Ok(tokens)
}

} // verus!
