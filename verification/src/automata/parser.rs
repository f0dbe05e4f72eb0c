//! The parser of the graph text: from tokens to the statements of a graph.

use crate::automata::lexer::{lex, lexemes, tokenize, Lexeme, ParseError, Token, TokenKind};
use crate::automata::model::{Edge, Transition};
use crate::text::{chars_of, string_of};
use vstd::prelude::*;

verus! {

/// A statement of a graph text, as a mathematical value.
pub enum Declaration {
    /// A transition, with the label that its attributes give it (empty
    /// where they give none).
    Transition(Transition),
    /// A state, declared by its name alone. Its attributes are not kept.
    State(Seq<char>),
    /// A setting of the graph, `key = value`. It is not kept.
    Setting,
}

/// A statement of a graph text.
#[derive(Debug)]
pub enum Statement {
    /// A transition.
    Edge(Edge),
    /// A state, declared by its name alone.
    Node(String),
    /// A setting of the graph.
    Setting,
}

impl View for Statement {
    type V = Declaration;

    open spec fn view(&self) -> Declaration {
        match self {
            Statement::Edge(edge) => Declaration::Transition(edge@),
            Statement::Node(name) => Declaration::State(name@),
            Statement::Setting => Declaration::Setting,
        }
    }
}

/// The statements as mathematical values.
pub open spec fn declarations(statements: Seq<Statement>) -> Seq<Declaration> {
    Seq::new(statements.len(), |k: int| statements[k]@)
}

/// The key of the attribute that labels a transition.
pub open spec fn label_key() -> Seq<char> {
    "label"@
}

/// The word that opens a graph text.
pub open spec fn graph_keyword() -> Seq<char> {
    "digraph"@
}

/// Reads attribute lists from token `k` on: any number of lists in square
/// brackets, each a run of `key = value` pairs that commas or semicolons
/// may separate. `inside` tells whether a list is open at `k`, and `label`
/// is the value of the last `label` key so far. Gives the value of the
/// last `label` key of all, and the index of the token after the lists.
pub open spec fn attributes(toks: Seq<Lexeme>, k: int, inside: bool, label: Option<Seq<char>>) -> Result<
    (Option<Seq<char>>, int),
    ParseError,
>
    decreases toks.len() - k,
{
    if k < 0 {
        Err(ParseError::MalformedAttributes)
    } else if !inside {
        if k < toks.len() && toks[k] is OpenBracket {
            attributes(toks, k + 1, true, label)
        } else {
            Ok((label, k))
        }
    } else if k >= toks.len() {
        Err(ParseError::MalformedAttributes)
    } else {
        match toks[k] {
            Lexeme::CloseBracket => attributes(toks, k + 1, false, label),
            Lexeme::Comma => attributes(toks, k + 1, true, label),
            Lexeme::Semicolon => attributes(toks, k + 1, true, label),
            Lexeme::Id { text: key, .. } => {
                if k + 2 < toks.len() && toks[k + 1] is Equals && toks[k + 2] is Id {
                    attributes(
                        toks,
                        k + 3,
                        true,
                        if key == label_key() {
                            Some(toks[k + 2]->text)
                        } else {
                            label
                        },
                    )
                } else {
                    Err(ParseError::MalformedAttributes)
                }
            },
            _ => Err(ParseError::MalformedAttributes),
        }
    }
}

/// Reads the statement that starts at token `k`: a transition
/// `name -> name` with its attributes, a setting `key = value`, or a state
/// `name` with its attributes. Gives the statement and the index of the
/// token after it. The label of a transition is the value of its last
/// `label` attribute, and must be one character at most.
pub open spec fn statement(toks: Seq<Lexeme>, k: int) -> Result<(Declaration, int), ParseError> {
    if !(0 <= k < toks.len()) || !(toks[k] is Id) {
        Err(ParseError::MalformedStatement)
    } else if k + 1 < toks.len() && toks[k + 1] is Arrow {
        if k + 2 < toks.len() && toks[k + 2] is Id {
            match attributes(toks, k + 3, false, None) {
                Err(e) => Err(e),
                Ok((found, next)) => {
                    let label = match found {
                        Some(l) => l,
                        None => Seq::empty(),
                    };
                    if label.len() > 1 {
                        Err(ParseError::InvalidLabel)
                    } else {
                        Ok(
                            (
                                Declaration::Transition(
                                    Transition {
                                        from: toks[k]->text,
                                        to: toks[k + 2]->text,
                                        label,
                                    },
                                ),
                                next,
                            ),
                        )
                    }
                },
            }
        } else {
            Err(ParseError::MalformedStatement)
        }
    } else if k + 1 < toks.len() && toks[k + 1] is Equals {
        if k + 2 < toks.len() && toks[k + 2] is Id {
            Ok((Declaration::Setting, k + 3))
        } else {
            Err(ParseError::MalformedStatement)
        }
    } else {
        match attributes(toks, k + 1, false, None) {
            Err(e) => Err(e),
            Ok((_, next)) => Ok((Declaration::State(toks[k]->text), next)),
        }
    }
}

/// Attribute lists end at or after the token they start at.
pub proof fn lemma_attributes_advance(
    toks: Seq<Lexeme>,
    k: int,
    inside: bool,
    label: Option<Seq<char>>,
)
    requires
        0 <= k,
    ensures
        attributes(toks, k, inside, label) matches Ok((_, next)) ==> k <= next <= toks.len() || (
        next == k && !inside),
    decreases toks.len() - k,
{
    if !inside {
        if k < toks.len() && toks[k] is OpenBracket {
            lemma_attributes_advance(toks, k + 1, true, label);
        }
    } else if k < toks.len() {
        match toks[k] {
            Lexeme::CloseBracket => lemma_attributes_advance(toks, k + 1, false, label),
            Lexeme::Comma => lemma_attributes_advance(toks, k + 1, true, label),
            Lexeme::Semicolon => lemma_attributes_advance(toks, k + 1, true, label),
            Lexeme::Id { text: key, .. } => {
                if k + 2 < toks.len() && toks[k + 1] is Equals && toks[k + 2] is Id {
                    lemma_attributes_advance(
                        toks,
                        k + 3,
                        true,
                        if key == label_key() {
                            Some(toks[k + 2]->text)
                        } else {
                            label
                        },
                    );
                }
            },
            _ => {},
        }
    }
}

/// A statement ends after the token it starts at, within the tokens.
pub proof fn lemma_statement_advance(toks: Seq<Lexeme>, k: int)
    ensures
        statement(toks, k) matches Ok((_, next)) ==> k < next <= toks.len(),
{
    if 0 <= k < toks.len() {
        lemma_attributes_advance(toks, k + 3, false, None);
        lemma_attributes_advance(toks, k + 1, false, None);
    }
}

/// Reads the statements of a graph from token `k` on, after the statements
/// `before`, up to the closing brace, which must be the last token.
/// Semicolons between statements are skipped.
pub open spec fn body(toks: Seq<Lexeme>, k: int, before: Seq<Declaration>) -> Result<
    Seq<Declaration>,
    ParseError,
>
    decreases toks.len() - k,
    via body_decreases
{
    if k < 0 || k >= toks.len() {
        Err(ParseError::UnterminatedGraph)
    } else if toks[k] is CloseBrace {
        if k + 1 == toks.len() {
            Ok(before)
        } else {
            Err(ParseError::TrailingText)
        }
    } else if toks[k] is Semicolon {
        body(toks, k + 1, before)
    } else {
        match statement(toks, k) {
            Err(e) => Err(e),
            Ok((declaration, next)) => body(toks, next, before.push(declaration)),
        }
    }
}

/// Each statement ends after the token at which it starts.
#[via_fn]
proof fn body_decreases(toks: Seq<Lexeme>, k: int, before: Seq<Declaration>) {
    lemma_statement_advance(toks, k);
}

/// The first token is the bare word `digraph`.
pub open spec fn opens_graph(toks: Seq<Lexeme>) -> bool {
    toks.len() > 0 && toks[0] == (Lexeme::Id { text: graph_keyword(), quoted: false })
}

/// Reads a graph from its tokens: `digraph`, an optional name, and the
/// statements in braces.
pub open spec fn parse(toks: Seq<Lexeme>) -> Result<Seq<Declaration>, ParseError> {
    if opens_graph(toks) && toks.len() >= 2 && toks[1] is OpenBrace {
        body(toks, 2, Seq::empty())
    } else if opens_graph(toks) && toks.len() >= 3 && toks[1] is Id && toks[2] is OpenBrace {
        body(toks, 3, Seq::empty())
    } else {
        Err(ParseError::MissingHeader)
    }
}

/// Reads a graph text: its statements in order, or the reason why it is
/// not a graph text.
pub open spec fn decode(text: Seq<char>) -> Result<Seq<Declaration>, ParseError> {
    match lex(text) {
        Err(e) => Err(e),
        Ok(toks) => parse(toks),
    }
}

/// The text of the token that holds a label, if there is one.
spec fn label_text(text: Seq<char>, label: Option<Token>) -> Option<Seq<char>> {
    match label {
        Some(token) => Some(text.subrange(token.start as int, token.end as int)),
        None => None,
    }
}

/// Tells whether the characters of `token` in `text` are those of `word`.
fn token_is(text: &[char], token: &Token, word: &[char]) -> (same: bool)
    requires
        token.within(text@),
    ensures
        same == (text@.subrange(token.start as int, token.end as int) == word@),
{
    let ghost name = text@.subrange(token.start as int, token.end as int);
    if token.end - token.start != word.len() {
        return false;
    }
    let mut j: usize = 0;
    while j < word.len()
        invariant
            token.within(text@),
            j <= word@.len(),
            word@.len() == token.end - token.start,
            name == text@.subrange(token.start as int, token.end as int),
            forall|t: int| 0 <= t < j ==> name[t] == word@[t],
        decreases word@.len() - j,
    {
        if text[token.start + j] != word[j] {
            proof {
                assert(name[j as int] != word@[j as int]);
            }
            return false;
        }
        j += 1;
    }
    proof {
        assert(name =~= word@);
    }
    true
}

/// Tells whether the token is a name, bare or quoted.
fn is_id(token: &Token) -> (yes: bool)
    ensures
        forall|text: Seq<char>| yes == (#[trigger] token.lexeme(text) is Id),
{
    match token.kind {
        TokenKind::Name => true,
        TokenKind::Quoted => true,
        _ => false,
    }
}

/// Reads the attribute lists that start at token `start`.
fn parse_attributes(text: &[char], tokens: &[Token], start: usize, key: &[char]) -> (result: Result<
    (Option<Token>, usize),
    ParseError,
>)
    requires
        start <= tokens@.len(),
        key@ == label_key(),
        forall|k: int| 0 <= k < tokens@.len() ==> (#[trigger] tokens@[k]).within(text@),
    ensures
        match result {
            Ok((label, next)) => {
                &&& attributes(lexemes(text@, tokens@), start as int, false, None) == Ok::<
                    (Option<Seq<char>>, int),
                    ParseError,
                >((label_text(text@, label), next as int))
                &&& start <= next <= tokens@.len()
                &&& label matches Some(token) ==> token.within(text@)
            },
            Err(e) => attributes(lexemes(text@, tokens@), start as int, false, None) == Err::<
                (Option<Seq<char>>, int),
                ParseError,
            >(e),
        },
{
    let ghost toks = lexemes(text@, tokens@);
    let mut k: usize = start;
    let mut inside: bool = false;
    let mut label: Option<Token> = None;
    loop
        invariant
            start <= k <= tokens@.len(),
            key@ == label_key(),
            toks == lexemes(text@, tokens@),
            forall|j: int| 0 <= j < tokens@.len() ==> (#[trigger] tokens@[j]).within(text@),
            label matches Some(token) ==> token.within(text@),
            attributes(toks, start as int, false, None) == attributes(
                toks,
                k as int,
                inside,
                label_text(text@, label),
            ),
        decreases tokens@.len() - k,
    {
        if !inside {
            if k < tokens.len() && tokens[k].kind == TokenKind::OpenBracket {
                inside = true;
                k += 1;
            } else {
                return Ok((label, k));
            }
        } else if k >= tokens.len() {
            return Err(ParseError::MalformedAttributes);
        } else {
            match tokens[k].kind {
                TokenKind::CloseBracket => {
                    inside = false;
                    k += 1;
                },
                TokenKind::Comma => {
                    k += 1;
                },
                TokenKind::Semicolon => {
                    k += 1;
                },
                TokenKind::Name | TokenKind::Quoted => {
                    if tokens.len() - k > 2 && tokens[k + 1].kind == TokenKind::Equals && is_id(
                        &tokens[k + 2],
                    ) {
                        proof {
                            assert(toks[k + 2] == tokens@[k + 2].lexeme(text@));
                            assert(toks[k + 1] == tokens@[k + 1].lexeme(text@));
                        }
                        if token_is(text, &tokens[k], key) {
                            label = Some(tokens[k + 2]);
                        }
                        k += 3;
                    } else {
                        proof {
                            if k + 2 < tokens@.len() {
                                assert(toks[k + 2] == tokens@[k + 2].lexeme(text@));
                                assert(toks[k + 1] == tokens@[k + 1].lexeme(text@));
                            }
                        }
                        return Err(ParseError::MalformedAttributes);
                    }
                },
                _ => {
                    return Err(ParseError::MalformedAttributes);
                },
            }
        }
    }
}

/// The name that a token holds.
fn name_of(text: &[char], token: &Token) -> (name: String)
    requires
        token.within(text@),
    ensures
        name@ == text@.subrange(token.start as int, token.end as int),
{
    string_of(text, token.start, token.end)
}

/// Reads the statement that starts at token `k`.
fn parse_statement(text: &[char], tokens: &[Token], k: usize, key: &[char]) -> (result: Result<
    (Statement, usize),
    ParseError,
>)
    requires
        k < tokens@.len(),
        key@ == label_key(),
        forall|j: int| 0 <= j < tokens@.len() ==> (#[trigger] tokens@[j]).within(text@),
    ensures
        match result {
            Ok((found, next)) => statement(lexemes(text@, tokens@), k as int) == Ok::<
                (Declaration, int),
                ParseError,
            >((found@, next as int)) && k < next <= tokens@.len(),
            Err(e) => statement(lexemes(text@, tokens@), k as int) == Err::<
                (Declaration, int),
                ParseError,
            >(e),
        },
{
    let ghost toks = lexemes(text@, tokens@);
    proof {
        assert(toks[k as int] == tokens@[k as int].lexeme(text@));
        if k + 1 < tokens@.len() {
            assert(toks[k + 1] == tokens@[k + 1].lexeme(text@));
        }
        if k + 2 < tokens@.len() {
            assert(toks[k + 2] == tokens@[k + 2].lexeme(text@));
        }
    }
    if !is_id(&tokens[k]) {
        return Err(ParseError::MalformedStatement);
    }
    if tokens.len() - k > 1 && tokens[k + 1].kind == TokenKind::Arrow {
        if tokens.len() - k > 2 && is_id(&tokens[k + 2]) {
            match parse_attributes(text, tokens, k + 3, key) {
                Err(e) => Err(e),
                Ok((found, next)) => {
                    let label = match found {
                        Some(token) => {
                            if token.end - token.start > 1 {
                                return Err(ParseError::InvalidLabel);
                            }
                            name_of(text, &token)
                        },
                        None => String::new(),
                    };
                    let edge = Edge {
                        from: name_of(text, &tokens[k]),
                        to: name_of(text, &tokens[k + 2]),
                        label,
                    };
                    Ok((Statement::Edge(edge), next))
                },
            }
        } else {
            Err(ParseError::MalformedStatement)
        }
    } else if tokens.len() - k > 1 && tokens[k + 1].kind == TokenKind::Equals {
        if tokens.len() - k > 2 && is_id(&tokens[k + 2]) {
            Ok((Statement::Setting, k + 3))
        } else {
            Err(ParseError::MalformedStatement)
        }
    } else {
        match parse_attributes(text, tokens, k + 1, key) {
            Err(e) => Err(e),
            Ok((_, next)) => Ok((Statement::Node(name_of(text, &tokens[k])), next)),
        }
    }
}

/// Reads the statements of a graph text.
pub fn parse_text(text: &str) -> (result: Result<Vec<Statement>, ParseError>)
    ensures
        match result {
            Ok(statements) => decode(text@) == Ok::<Seq<Declaration>, ParseError>(
                declarations(statements@),
            ),
            Err(e) => decode(text@) == Err::<Seq<Declaration>, ParseError>(e),
        },
{
    let chars = chars_of(text);
    let tokens = match tokenize(chars.as_slice()) {
        Ok(tokens) => tokens,
        Err(e) => {
            return Err(e);
        },
    };
    let ghost toks = lexemes(chars@, tokens@);
    let keyword = chars_of("digraph");
    let key = chars_of("label");
    proof {
        if tokens@.len() > 0 {
            assert(toks[0] == tokens@[0].lexeme(chars@));
        }
        if tokens@.len() > 1 {
            assert(toks[1] == tokens@[1].lexeme(chars@));
        }
        if tokens@.len() > 2 {
            assert(toks[2] == tokens@[2].lexeme(chars@));
        }
    }
    if tokens.len() == 0 || tokens[0].kind != TokenKind::Name || !token_is(
        chars.as_slice(),
        &tokens[0],
        keyword.as_slice(),
    ) {
        return Err(ParseError::MissingHeader);
    }
    let mut k: usize = if tokens.len() >= 2 && tokens[1].kind == TokenKind::OpenBrace {
        2
    } else if tokens.len() >= 3 && is_id(&tokens[1]) && tokens[2].kind == TokenKind::OpenBrace {
        3
    } else {
        return Err(ParseError::MissingHeader);
    };
    let mut statements: Vec<Statement> = Vec::new();
    proof {
        assert(declarations(statements@) =~= Seq::<Declaration>::empty());
    }
    loop
        invariant
            k <= tokens@.len(),
            chars@ == text@,
            key@ == label_key(),
            toks == lexemes(chars@, tokens@),
            lex(text@) == Ok::<Seq<Lexeme>, ParseError>(toks),
            forall|j: int| 0 <= j < tokens@.len() ==> (#[trigger] tokens@[j]).within(chars@),
            parse(toks) == body(toks, k as int, declarations(statements@)),
        decreases tokens@.len() - k,
    {
        if k >= tokens.len() {
            return Err(ParseError::UnterminatedGraph);
        }
        proof {
            assert(toks[k as int] == tokens@[k as int].lexeme(chars@));
        }
        match tokens[k].kind {
            TokenKind::CloseBrace => {
                if tokens.len() - k == 1 {
                    return Ok(statements);
                } else {
                    return Err(ParseError::TrailingText);
                }
            },
            TokenKind::Semicolon => {
                k += 1;
            },
            _ => {
                let ghost before = declarations(statements@);
                match parse_statement(chars.as_slice(), tokens.as_slice(), k, key.as_slice()) {
                    Err(e) => {
                        return Err(e);
                    },
                    Ok((found, next)) => {
                        statements.push(found);
                        proof {
                            assert(declarations(statements@) =~= before.push(found@));
                        }
                        k = next;
                    },
                }
            },
        }
    }
}

} // verus!
