//! Reading back what the encoder wrote.

use crate::automata::encode::{
    accepting_targets, annotation, annotations, dot_text, header, statement, statements,
};
use crate::automata::lexer::{
    is_name_char, is_space, lemma_name_end, lemma_quote_end, lex, lex_from, name_end, punctuation,
    quote_end, Lexeme, ParseError,
};
use crate::automata::dot::declared_edges;
use crate::automata::equiv::equivalent_from;
use crate::automata::grade::{automaton_of, judged, Verdict};
use crate::automata::laws::law_equivalent_to_itself;
use crate::automata::model::Transition;
use crate::automata::parser::{
    attributes, body, decode, label_key, opens_graph, parse, statement as parsed, Declaration,
};
use vstd::prelude::*;

verus! {

/// A quoted name, as a token.
pub open spec fn quoted(text: Seq<char>) -> Lexeme {
    Lexeme::Id { text, quoted: true }
}

/// A bare name, as a token.
pub open spec fn bare(text: Seq<char>) -> Lexeme {
    Lexeme::Id { text, quoted: false }
}

/// The sequence holds `piece` from position `i` on.
pub open spec fn holds_at<A>(text: Seq<A>, i: int, piece: Seq<A>) -> bool {
    0 <= i && i + piece.len() <= text.len() && text.subrange(i, i + piece.len()) == piece
}

/// Where a sequence holds a piece, it holds each item of the piece.
pub proof fn lemma_holds_at<A>(text: Seq<A>, i: int, piece: Seq<A>, k: int)
    requires
        holds_at(text, i, piece),
        0 <= k < piece.len(),
    ensures
        text[i + k] == piece[k],
{
    assert(text.subrange(i, i + piece.len())[k] == text[i + k]);
}

/// Where a sequence holds two pieces one after the other, it holds each.
pub proof fn lemma_holds_both<A>(text: Seq<A>, i: int, first: Seq<A>, second: Seq<A>)
    requires
        holds_at(text, i, first + second),
    ensures
        holds_at(text, i, first),
        holds_at(text, i + first.len(), second),
{
    let whole = first + second;
    assert(text.subrange(i, i + first.len()) =~= first) by {
        assert forall|k: int| 0 <= k < first.len() implies text[i + k] == first[k] by {
            lemma_holds_at(text, i, whole, k);
        }
    }
    assert(text.subrange(i + first.len(), i + first.len() + second.len()) =~= second) by {
        assert forall|k: int| 0 <= k < second.len() implies text[i + first.len() + k]
            == second[k] by {
            lemma_holds_at(text, i, whole, first.len() + k);
        }
    }
}

/// The search for a quote stops at the first quote.
proof fn lemma_quote_end_at(text: Seq<char>, start: int, end: int)
    requires
        0 <= start <= end < text.len(),
        forall|j: int| start <= j < end ==> (#[trigger] text[j]) != '"',
        text[end] == '"',
    ensures
        quote_end(text, start) == end,
    decreases end - start,
{
    if start < end {
        lemma_quote_end_at(text, start + 1, end);
    }
}

/// A run of name characters stops at the first other character.
proof fn lemma_name_end_at(text: Seq<char>, start: int, end: int)
    requires
        0 <= start <= end <= text.len(),
        forall|j: int| start <= j < end ==> is_name_char(#[trigger] text[j]),
        end < text.len() ==> !is_name_char(text[end]),
    ensures
        name_end(text, start) == end,
    decreases end - start,
{
    if start < end {
        lemma_name_end_at(text, start + 1, end);
    }
}

/// A blank is skipped.
pub proof fn lemma_lex_space(text: Seq<char>, i: int, before: Seq<Lexeme>)
    requires
        0 <= i < text.len(),
        is_space(text[i]),
    ensures
        lex_from(text, i, before) == lex_from(text, i + 1, before),
{
}

/// A punctuation character is a token.
pub proof fn lemma_lex_punctuation(text: Seq<char>, i: int, before: Seq<Lexeme>)
    requires
        0 <= i < text.len(),
        punctuation(text[i]) is Some,
    ensures
        lex_from(text, i, before) == lex_from(text, i + 1, before.push(punctuation(text[i])->0)),
{
}

/// An arrow is a token.
pub proof fn lemma_lex_arrow(text: Seq<char>, i: int, before: Seq<Lexeme>)
    requires
        0 <= i,
        i + 1 < text.len(),
        text[i] == '-',
        text[i + 1] == '>',
    ensures
        lex_from(text, i, before) == lex_from(text, i + 2, before.push(Lexeme::Arrow)),
{
}

/// A name between quotes that holds no quote is a token.
pub proof fn lemma_lex_quoted(text: Seq<char>, i: int, name: Seq<char>, before: Seq<Lexeme>)
    requires
        0 <= i,
        i + name.len() + 1 < text.len(),
        text[i] == '"',
        holds_at(text, i + 1, name),
        !name.contains('"'),
        text[i + 1 + name.len()] == '"',
    ensures
        lex_from(text, i, before) == lex_from(
            text,
            i + name.len() + 2,
            before.push(quoted(name)),
        ),
{
    let end = i + 1 + name.len();
    assert forall|j: int| i + 1 <= j < end implies (#[trigger] text[j]) != '"' by {
        lemma_holds_at(text, i + 1, name, j - (i + 1));
        assert(name[j - (i + 1)] != '"');
    }
    lemma_quote_end_at(text, i + 1, end);
}

/// A run of name characters that something else follows is a token.
pub proof fn lemma_lex_bare(text: Seq<char>, i: int, name: Seq<char>, before: Seq<Lexeme>)
    requires
        name.len() > 0,
        holds_at(text, i, name),
        forall|k: int| 0 <= k < name.len() ==> is_name_char(#[trigger] name[k]),
        i + name.len() < text.len() ==> !is_name_char(text[i + name.len()]),
    ensures
        lex_from(text, i, before) == lex_from(text, i + name.len(), before.push(bare(name))),
{
    let end = i + name.len();
    assert forall|j: int| i <= j < end implies is_name_char(#[trigger] text[j]) by {
        lemma_holds_at(text, i, name, j - i);
    }
    lemma_name_end_at(text, i, end);
    lemma_holds_at(text, i, name, 0);
    assert(!is_space(text[i]));
    assert(text[i] != '"');
}

/// The names and the label of the transition can be written between
/// quotes, and the label is one that a transition can carry: none of them
/// holds a quote, and the label is one character at most.
pub open spec fn writable(t: Transition) -> bool {
    &&& !t.from.contains('"')
    &&& !t.to.contains('"')
    &&& !t.label.contains('"')
    &&& t.label.len() <= 1
}

/// The tokens of the statement for a transition.
pub open spec fn statement_tokens(t: Transition) -> Seq<Lexeme> {
    seq![
        quoted(t.from),
        Lexeme::Arrow,
        quoted(t.to),
        Lexeme::OpenBracket,
        bare(label_key()),
        Lexeme::Equals,
        quoted(t.label),
        Lexeme::CloseBracket,
        Lexeme::Semicolon,
    ]
}

/// The tokens of the statement that marks a state as accepting.
pub open spec fn annotation_tokens(name: Seq<char>) -> Seq<Lexeme> {
    seq![
        quoted(name),
        Lexeme::OpenBracket,
        bare("accepting"@),
        Lexeme::Equals,
        bare("true"@),
        Lexeme::CloseBracket,
        Lexeme::Semicolon,
    ]
}

/// The tokens of the header.
pub open spec fn header_tokens() -> Seq<Lexeme> {
    seq![
        bare("digraph"@),
        bare("Automaton"@),
        Lexeme::OpenBrace,
        bare("rankdir"@),
        Lexeme::Equals,
        bare("LR"@),
        Lexeme::Semicolon,
    ]
}

/// Where a sequence holds a piece, it holds each part of the piece.
pub proof fn lemma_holds_part<A>(
    text: Seq<A>,
    i: int,
    piece: Seq<A>,
    from: int,
    to: int,
    part: Seq<A>,
)
    requires
        holds_at(text, i, piece),
        0 <= from <= to <= piece.len(),
        piece.subrange(from, to) == part,
    ensures
        holds_at(text, i + from, part),
{
    assert(text.subrange(i + from, i + from + part.len()) =~= part) by {
        assert forall|k: int| 0 <= k < part.len() implies text[i + from + k] == part[k] by {
            lemma_holds_at(text, i, piece, from + k);
            assert(piece.subrange(from, to)[k] == piece[from + k]);
        }
    }
}

/// The text ` [label=`, after the quote that closes a name and before the
/// quote that opens the label, gives three tokens.
proof fn lemma_lex_label_opening(text: Seq<char>, i: int, before: Seq<Lexeme>)
    requires
        holds_at(text, i, "\" [label=\""@),
    ensures
        "\" [label=\""@.len() == 10,
        text[i] == '"',
        text[i + 9] == '"',
        lex_from(text, i + 1, before) == lex_from(
            text,
            i + 9,
            before.push(Lexeme::OpenBracket).push(bare(label_key())).push(Lexeme::Equals),
        ),
{
    let piece = "\" [label=\""@;
    reveal_strlit("\" [label=\"");
    reveal_strlit("label");
    lemma_holds_at(text, i, piece, 0);
    lemma_holds_at(text, i, piece, 1);
    lemma_holds_at(text, i, piece, 2);
    lemma_holds_at(text, i, piece, 8);
    lemma_holds_at(text, i, piece, 9);
    assert(text[i + 1] == ' ');
    assert(text[i + 2] == '[');
    assert(text[i + 8] == '=');
    lemma_lex_space(text, i + 1, before);
    lemma_lex_punctuation(text, i + 2, before);
    let opened = before.push(Lexeme::OpenBracket);
    assert(piece.subrange(3, 8) =~= label_key());
    lemma_holds_part(text, i, piece, 3, 8, label_key());
    lemma_lex_bare(text, i + 3, label_key(), opened);
    lemma_lex_punctuation(text, i + 8, opened.push(bare(label_key())));
}

/// The statement for a transition gives its tokens.
pub proof fn lemma_lex_statement(text: Seq<char>, i: int, t: Transition, before: Seq<Lexeme>)
    requires
        holds_at(text, i, statement(t)),
        writable(t),
    ensures
        lex_from(text, i, before) == lex_from(
            text,
            i + statement(t).len(),
            before + statement_tokens(t),
        ),
{
    let a = "\""@;
    let b = "\"->\""@;
    let c = "\" [label=\""@;
    let d = "\"];"@;
    reveal_strlit("\"");
    reveal_strlit("\"->\"");
    reveal_strlit("\" [label=\"");
    reveal_strlit("\"];");
    let at0 = i;
    let at1 = at0 + 1 + t.from.len();
    let at2 = at1 + 4 + t.to.len();
    let at3 = at2 + 10 + t.label.len();
    lemma_holds_both(text, i, a + t.from + b + t.to + c + t.label, d);
    lemma_holds_both(text, i, a + t.from + b + t.to + c, t.label);
    lemma_holds_both(text, i, a + t.from + b + t.to, c);
    lemma_holds_both(text, i, a + t.from + b, t.to);
    lemma_holds_both(text, i, a + t.from, b);
    lemma_holds_both(text, i, a, t.from);
    assert(holds_at(text, at0, a));
    assert(holds_at(text, at0 + 1, t.from));
    assert(holds_at(text, at1, b));
    assert(holds_at(text, at1 + 4, t.to));
    assert(holds_at(text, at2, c));
    assert(holds_at(text, at2 + 10, t.label));
    assert(holds_at(text, at3, d));
    lemma_holds_at(text, at0, a, 0);
    lemma_holds_at(text, at1, b, 0);
    lemma_holds_at(text, at1, b, 1);
    lemma_holds_at(text, at1, b, 2);
    lemma_holds_at(text, at1, b, 3);
    lemma_holds_at(text, at3, d, 0);
    lemma_holds_at(text, at3, d, 1);
    lemma_holds_at(text, at3, d, 2);
    lemma_lex_quoted(text, at0, t.from, before);
    let s1 = before.push(quoted(t.from));
    lemma_lex_arrow(text, at1 + 1, s1);
    let s2 = s1.push(Lexeme::Arrow);
    lemma_lex_label_opening(text, at2, s2.push(quoted(t.to)));
    lemma_lex_quoted(text, at1 + 3, t.to, s2);
    let s3 = s2.push(quoted(t.to));
    let s6 = s3.push(Lexeme::OpenBracket).push(bare(label_key())).push(Lexeme::Equals);
    lemma_lex_quoted(text, at2 + 9, t.label, s6);
    let s7 = s6.push(quoted(t.label));
    lemma_lex_punctuation(text, at3 + 1, s7);
    let s8 = s7.push(Lexeme::CloseBracket);
    lemma_lex_punctuation(text, at3 + 2, s8);
    assert(s8.push(Lexeme::Semicolon) =~= before + statement_tokens(t));
    assert(statement(t).len() == at3 + 3 - i);
}

/// The statement that marks a state as accepting gives its tokens.
pub proof fn lemma_lex_annotation(text: Seq<char>, i: int, name: Seq<char>, before: Seq<Lexeme>)
    requires
        holds_at(text, i, annotation(name)),
        !name.contains('"'),
    ensures
        lex_from(text, i, before) == lex_from(
            text,
            i + annotation(name).len(),
            before + annotation_tokens(name),
        ),
{
    let a = "\""@;
    let e = "\" [accepting=true];"@;
    reveal_strlit("\"");
    reveal_strlit("\" [accepting=true];");
    reveal_strlit("accepting");
    reveal_strlit("true");
    let at1 = i + 1 + name.len();
    lemma_holds_both(text, i, a + name, e);
    lemma_holds_both(text, i, a, name);
    lemma_holds_at(text, i, a, 0);
    lemma_holds_at(text, at1, e, 0);
    lemma_holds_at(text, at1, e, 1);
    lemma_holds_at(text, at1, e, 2);
    lemma_holds_at(text, at1, e, 12);
    lemma_holds_at(text, at1, e, 17);
    lemma_holds_at(text, at1, e, 18);
    lemma_lex_quoted(text, i, name, before);
    let s1 = before.push(quoted(name));
    lemma_lex_space(text, at1 + 1, s1);
    lemma_lex_punctuation(text, at1 + 2, s1);
    let s2 = s1.push(Lexeme::OpenBracket);
    assert(e.subrange(3, 12) =~= "accepting"@);
    lemma_holds_part(text, at1, e, 3, 12, "accepting"@);
    lemma_lex_bare(text, at1 + 3, "accepting"@, s2);
    let s3 = s2.push(bare("accepting"@));
    lemma_lex_punctuation(text, at1 + 12, s3);
    let s4 = s3.push(Lexeme::Equals);
    assert(e.subrange(13, 17) =~= "true"@);
    lemma_holds_part(text, at1, e, 13, 17, "true"@);
    lemma_lex_bare(text, at1 + 13, "true"@, s4);
    let s5 = s4.push(bare("true"@));
    lemma_lex_punctuation(text, at1 + 17, s5);
    let s6 = s5.push(Lexeme::CloseBracket);
    lemma_lex_punctuation(text, at1 + 18, s6);
    assert(s6.push(Lexeme::Semicolon) =~= before + annotation_tokens(name));
    assert(annotation(name).len() == at1 + 19 - i);
}

/// The header gives its tokens.
pub proof fn lemma_lex_header(text: Seq<char>)
    requires
        holds_at(text, 0, header()),
    ensures
        header().len() == 36,
        lex(text) == lex_from(text, 36, header_tokens()),
{
    let h = header();
    reveal_strlit(" digraph Automaton {\n    rankdir=LR;");
    reveal_strlit("digraph");
    reveal_strlit("Automaton");
    reveal_strlit("rankdir");
    reveal_strlit("LR");
    lemma_holds_at(text, 0, h, 0);
    lemma_holds_at(text, 0, h, 8);
    lemma_holds_at(text, 0, h, 18);
    lemma_holds_at(text, 0, h, 19);
    lemma_holds_at(text, 0, h, 20);
    lemma_holds_at(text, 0, h, 21);
    lemma_holds_at(text, 0, h, 22);
    lemma_holds_at(text, 0, h, 23);
    lemma_holds_at(text, 0, h, 24);
    lemma_holds_at(text, 0, h, 32);
    lemma_holds_at(text, 0, h, 35);
    let s0 = Seq::<Lexeme>::empty();
    lemma_lex_space(text, 0, s0);
    assert(h.subrange(1, 8) =~= "digraph"@);
    lemma_holds_part(text, 0, h, 1, 8, "digraph"@);
    lemma_lex_bare(text, 1, "digraph"@, s0);
    let s1 = s0.push(bare("digraph"@));
    lemma_lex_space(text, 8, s1);
    assert(h.subrange(9, 18) =~= "Automaton"@);
    lemma_holds_part(text, 0, h, 9, 18, "Automaton"@);
    lemma_lex_bare(text, 9, "Automaton"@, s1);
    let s2 = s1.push(bare("Automaton"@));
    lemma_lex_space(text, 18, s2);
    lemma_lex_punctuation(text, 19, s2);
    let s3 = s2.push(Lexeme::OpenBrace);
    lemma_lex_space(text, 20, s3);
    lemma_lex_space(text, 21, s3);
    lemma_lex_space(text, 22, s3);
    lemma_lex_space(text, 23, s3);
    lemma_lex_space(text, 24, s3);
    assert(h.subrange(25, 32) =~= "rankdir"@);
    lemma_holds_part(text, 0, h, 25, 32, "rankdir"@);
    lemma_lex_bare(text, 25, "rankdir"@, s3);
    let s4 = s3.push(bare("rankdir"@));
    lemma_lex_punctuation(text, 32, s4);
    let s5 = s4.push(Lexeme::Equals);
    assert(h.subrange(33, 35) =~= "LR"@);
    lemma_holds_part(text, 0, h, 33, 35, "LR"@);
    lemma_lex_bare(text, 33, "LR"@, s5);
    let s6 = s5.push(bare("LR"@));
    lemma_lex_punctuation(text, 35, s6);
    assert(s6.push(Lexeme::Semicolon) =~= header_tokens());
}

/// The tokens of the statements for a list of transitions.
pub open spec fn statements_tokens(ts: Seq<Transition>) -> Seq<Lexeme>
    decreases ts.len(),
{
    if ts.len() == 0 {
        Seq::empty()
    } else {
        statements_tokens(ts.drop_last()) + statement_tokens(ts.last())
    }
}

/// The tokens of the annotations for a list of names.
pub open spec fn annotations_tokens(names: Seq<Seq<char>>) -> Seq<Lexeme>
    decreases names.len(),
{
    if names.len() == 0 {
        Seq::empty()
    } else {
        annotations_tokens(names.drop_last()) + annotation_tokens(names.last())
    }
}

/// Every transition of the list can be written.
pub open spec fn all_writable(ts: Seq<Transition>) -> bool {
    forall|e: int| 0 <= e < ts.len() ==> writable(#[trigger] ts[e])
}

/// The statements for a list of transitions give their tokens.
pub proof fn lemma_lex_statements(
    text: Seq<char>,
    i: int,
    ts: Seq<Transition>,
    before: Seq<Lexeme>,
)
    requires
        holds_at(text, i, statements(ts)),
        all_writable(ts),
    ensures
        lex_from(text, i, before) == lex_from(
            text,
            i + statements(ts).len(),
            before + statements_tokens(ts),
        ),
    decreases ts.len(),
{
    if ts.len() == 0 {
        assert(before + statements_tokens(ts) =~= before);
    } else {
        let shorter = ts.drop_last();
        lemma_holds_both(text, i, statements(shorter), statement(ts.last()));
        assert(all_writable(shorter)) by {
            assert forall|e: int| 0 <= e < shorter.len() implies writable(
                #[trigger] shorter[e],
            ) by {
                assert(writable(ts[e]));
            }
        }
        lemma_lex_statements(text, i, shorter, before);
        assert(writable(ts[ts.len() - 1]));
        lemma_lex_statement(
            text,
            i + statements(shorter).len(),
            ts.last(),
            before + statements_tokens(shorter),
        );
        assert(before + statements_tokens(shorter) + statement_tokens(ts.last()) =~= before
            + statements_tokens(ts));
    }
}

/// The annotations for a list of names give their tokens.
pub proof fn lemma_lex_annotations(
    text: Seq<char>,
    i: int,
    names: Seq<Seq<char>>,
    before: Seq<Lexeme>,
)
    requires
        holds_at(text, i, annotations(names)),
        forall|k: int| 0 <= k < names.len() ==> !(#[trigger] names[k]).contains('"'),
    ensures
        lex_from(text, i, before) == lex_from(
            text,
            i + annotations(names).len(),
            before + annotations_tokens(names),
        ),
    decreases names.len(),
{
    if names.len() == 0 {
        assert(before + annotations_tokens(names) =~= before);
    } else {
        let shorter = names.drop_last();
        lemma_holds_both(text, i, annotations(shorter), annotation(names.last()));
        assert forall|k: int| 0 <= k < shorter.len() implies !(#[trigger] shorter[k]).contains(
            '"',
        ) by {
            assert(!names[k].contains('"'));
        }
        lemma_lex_annotations(text, i, shorter, before);
        assert(!names[names.len() - 1].contains('"'));
        lemma_lex_annotation(
            text,
            i + annotations(shorter).len(),
            names.last(),
            before + annotations_tokens(shorter),
        );
        assert(before + annotations_tokens(shorter) + annotation_tokens(names.last()) =~= before
            + annotations_tokens(names));
    }
}

/// The accepting targets of a list of transitions are among the ends of
/// its transitions.
pub proof fn lemma_accepting_targets_are_targets(ts: Seq<Transition>, k: nat, i: int)
    requires
        k <= ts.len(),
        0 <= i < accepting_targets(ts, k).len(),
    ensures
        exists|e: int| 0 <= e < k && (#[trigger] ts[e]).to == accepting_targets(ts, k)[i],
    decreases k,
{
    if k > 0 {
        let before = accepting_targets(ts, (k - 1) as nat);
        if i < before.len() {
            lemma_accepting_targets_are_targets(ts, (k - 1) as nat, i);
            let e = choose|e: int| 0 <= e < k - 1 && (#[trigger] ts[e]).to == before[i];
            assert(ts[e].to == accepting_targets(ts, k)[i]);
        } else {
            assert(ts[k - 1].to == accepting_targets(ts, k)[i]);
        }
    }
}

/// The tokens of the graph text of a list of transitions.
pub open spec fn written_tokens(ts: Seq<Transition>) -> Seq<Lexeme> {
    header_tokens() + statements_tokens(ts) + annotations_tokens(
        accepting_targets(ts, ts.len()),
    ) + seq![Lexeme::CloseBrace]
}

/// The graph text of a list of transitions gives its tokens.
pub proof fn lemma_lex_written(ts: Seq<Transition>)
    requires
        all_writable(ts),
    ensures
        lex(dot_text(ts)) == Ok::<Seq<Lexeme>, ParseError>(written_tokens(ts)),
{
    let text = dot_text(ts);
    let names = accepting_targets(ts, ts.len());
    let closing = "}"@;
    reveal_strlit("}");
    let at1 = header().len() as int;
    let at2 = at1 + statements(ts).len();
    let at3 = at2 + annotations(names).len();
    assert(holds_at(text, 0, header() + statements(ts) + annotations(names) + closing)) by {
        assert(text.subrange(0, text.len() as int) =~= text);
    }
    lemma_holds_both(text, 0, header() + statements(ts) + annotations(names), closing);
    lemma_holds_both(text, 0, header() + statements(ts), annotations(names));
    lemma_holds_both(text, 0, header(), statements(ts));
    lemma_lex_header(text);
    lemma_lex_statements(text, at1, ts, header_tokens());
    assert forall|k: int| 0 <= k < names.len() implies !(#[trigger] names[k]).contains('"') by {
        lemma_accepting_targets_are_targets(ts, ts.len(), k);
        let e = choose|e: int| 0 <= e < ts.len() && (#[trigger] ts[e]).to == names[k];
        assert(writable(ts[e]));
    }
    lemma_lex_annotations(text, at2, names, header_tokens() + statements_tokens(ts));
    let s = header_tokens() + statements_tokens(ts) + annotations_tokens(names);
    lemma_holds_at(text, at3, closing, 0);
    lemma_lex_punctuation(text, at3, s);
    assert(text.len() == at3 + 1);
    assert(s.push(Lexeme::CloseBrace) =~= written_tokens(ts));
    assert(lex_from(text, at3 + 1, written_tokens(ts)) == Ok::<Seq<Lexeme>, ParseError>(
        written_tokens(ts),
    ));
}

/// The tokens of the statement for a transition read as that transition.
proof fn lemma_parse_statement(
    toks: Seq<Lexeme>,
    k: int,
    t: Transition,
    before: Seq<Declaration>,
)
    requires
        holds_at(toks, k, statement_tokens(t)),
        t.label.len() <= 1,
    ensures
        body(toks, k, before) == body(toks, k + 9, before.push(Declaration::Transition(t))),
{
    let piece = statement_tokens(t);
    lemma_holds_at(toks, k, piece, 0);
    lemma_holds_at(toks, k, piece, 1);
    lemma_holds_at(toks, k, piece, 2);
    lemma_holds_at(toks, k, piece, 3);
    lemma_holds_at(toks, k, piece, 4);
    lemma_holds_at(toks, k, piece, 5);
    lemma_holds_at(toks, k, piece, 6);
    lemma_holds_at(toks, k, piece, 7);
    lemma_holds_at(toks, k, piece, 8);
    let label = Some(t.label);
    assert(attributes(toks, k + 8, false, label) == Ok::<(Option<Seq<char>>, int), ParseError>(
        (label, k + 8),
    ));
    assert(attributes(toks, k + 7, true, label) == attributes(toks, k + 8, false, label));
    assert(attributes(toks, k + 4, true, None) == attributes(toks, k + 7, true, label));
    assert(attributes(toks, k + 3, false, None) == attributes(toks, k + 4, true, None));
    assert(parsed(toks, k) == Ok::<(Declaration, int), ParseError>(
        (Declaration::Transition(t), k + 8),
    ));
    let longer = before.push(Declaration::Transition(t));
    assert(body(toks, k, before) == body(toks, k + 8, longer));
    assert(body(toks, k + 8, longer) == body(toks, k + 9, longer));
}

/// The tokens of the statement that marks a state as accepting read as the
/// declaration of that state.
proof fn lemma_parse_annotation(
    toks: Seq<Lexeme>,
    k: int,
    name: Seq<char>,
    before: Seq<Declaration>,
)
    requires
        holds_at(toks, k, annotation_tokens(name)),
    ensures
        body(toks, k, before) == body(toks, k + 7, before.push(Declaration::State(name))),
{
    let piece = annotation_tokens(name);
    reveal_strlit("accepting");
    reveal_strlit("label");
    lemma_holds_at(toks, k, piece, 0);
    lemma_holds_at(toks, k, piece, 1);
    lemma_holds_at(toks, k, piece, 2);
    lemma_holds_at(toks, k, piece, 3);
    lemma_holds_at(toks, k, piece, 4);
    lemma_holds_at(toks, k, piece, 5);
    lemma_holds_at(toks, k, piece, 6);
    assert("accepting"@.len() != label_key().len());
    assert(attributes(toks, k + 6, false, None) == Ok::<(Option<Seq<char>>, int), ParseError>(
        (None, k + 6),
    ));
    assert(attributes(toks, k + 5, true, None) == attributes(toks, k + 6, false, None));
    assert(attributes(toks, k + 2, true, None) == attributes(toks, k + 5, true, None));
    assert(attributes(toks, k + 1, false, None) == attributes(toks, k + 2, true, None));
    assert(parsed(toks, k) == Ok::<(Declaration, int), ParseError>(
        (Declaration::State(name), k + 6),
    ));
    let longer = before.push(Declaration::State(name));
    assert(body(toks, k, before) == body(toks, k + 6, longer));
    assert(body(toks, k + 6, longer) == body(toks, k + 7, longer));
}

/// The transitions as statements.
pub open spec fn as_transitions(ts: Seq<Transition>) -> Seq<Declaration> {
    Seq::new(ts.len(), |e: int| Declaration::Transition(ts[e]))
}

/// The names as declarations of states.
pub open spec fn as_states(names: Seq<Seq<char>>) -> Seq<Declaration> {
    Seq::new(names.len(), |k: int| Declaration::State(names[k]))
}

/// The tokens of the statements for a list of transitions read as those
/// transitions.
proof fn lemma_parse_statements(
    toks: Seq<Lexeme>,
    k: int,
    ts: Seq<Transition>,
    before: Seq<Declaration>,
)
    requires
        holds_at(toks, k, statements_tokens(ts)),
        all_writable(ts),
    ensures
        body(toks, k, before) == body(
            toks,
            k + statements_tokens(ts).len(),
            before + as_transitions(ts),
        ),
    decreases ts.len(),
{
    if ts.len() == 0 {
        assert(before + as_transitions(ts) =~= before);
    } else {
        let shorter = ts.drop_last();
        lemma_holds_both(toks, k, statements_tokens(shorter), statement_tokens(ts.last()));
        assert(all_writable(shorter)) by {
            assert forall|e: int| 0 <= e < shorter.len() implies writable(
                #[trigger] shorter[e],
            ) by {
                assert(writable(ts[e]));
            }
        }
        lemma_parse_statements(toks, k, shorter, before);
        assert(writable(ts[ts.len() - 1]));
        lemma_parse_statement(
            toks,
            k + statements_tokens(shorter).len(),
            ts.last(),
            before + as_transitions(shorter),
        );
        assert((before + as_transitions(shorter)).push(Declaration::Transition(ts.last()))
            =~= before + as_transitions(ts));
    }
}

/// The tokens of the annotations for a list of names read as the
/// declarations of those states.
proof fn lemma_parse_annotations(
    toks: Seq<Lexeme>,
    k: int,
    names: Seq<Seq<char>>,
    before: Seq<Declaration>,
)
    requires
        holds_at(toks, k, annotations_tokens(names)),
    ensures
        body(toks, k, before) == body(
            toks,
            k + annotations_tokens(names).len(),
            before + as_states(names),
        ),
    decreases names.len(),
{
    if names.len() == 0 {
        assert(before + as_states(names) =~= before);
    } else {
        let shorter = names.drop_last();
        lemma_holds_both(toks, k, annotations_tokens(shorter), annotation_tokens(names.last()));
        lemma_parse_annotations(toks, k, shorter, before);
        lemma_parse_annotation(
            toks,
            k + annotations_tokens(shorter).len(),
            names.last(),
            before + as_states(shorter),
        );
        assert((before + as_states(shorter)).push(Declaration::State(names.last())) =~= before
            + as_states(names));
    }
}

/// The statements that the graph text of a list of transitions reads as:
/// the setting of the layout, the transitions, and the declarations of the
/// accepting states.
pub open spec fn written_declarations(ts: Seq<Transition>) -> Seq<Declaration> {
    seq![Declaration::Setting] + as_transitions(ts) + as_states(
        accepting_targets(ts, ts.len()),
    )
}

/// The tokens of the graph text of a list of transitions read as its
/// statements.
proof fn lemma_parse_written(ts: Seq<Transition>)
    requires
        all_writable(ts),
    ensures
        parse(written_tokens(ts)) == Ok::<Seq<Declaration>, ParseError>(
            written_declarations(ts),
        ),
{
    let toks = written_tokens(ts);
    let names = accepting_targets(ts, ts.len());
    let h = header_tokens();
    let closing = seq![Lexeme::CloseBrace];
    reveal_strlit("digraph");
    let at1 = 7int;
    let at2 = at1 + statements_tokens(ts).len();
    let at3 = at2 + annotations_tokens(names).len();
    assert(holds_at(toks, 0, h + statements_tokens(ts) + annotations_tokens(names) + closing)) by {
        assert(toks.subrange(0, toks.len() as int) =~= toks);
    }
    lemma_holds_both(toks, 0, h + statements_tokens(ts) + annotations_tokens(names), closing);
    lemma_holds_both(toks, 0, h + statements_tokens(ts), annotations_tokens(names));
    lemma_holds_both(toks, 0, h, statements_tokens(ts));
    lemma_holds_at(toks, 0, h, 0);
    lemma_holds_at(toks, 0, h, 1);
    lemma_holds_at(toks, 0, h, 2);
    lemma_holds_at(toks, 0, h, 3);
    lemma_holds_at(toks, 0, h, 4);
    lemma_holds_at(toks, 0, h, 5);
    lemma_holds_at(toks, 0, h, 6);
    lemma_holds_at(toks, at3, closing, 0);
    let none = Seq::<Declaration>::empty();
    assert(opens_graph(toks));
    assert(parse(toks) == body(toks, 3, none));
    assert(parsed(toks, 3) == Ok::<(Declaration, int), ParseError>((Declaration::Setting, 6)));
    let s1 = none.push(Declaration::Setting);
    assert(body(toks, 3, none) == body(toks, 6, s1));
    assert(body(toks, 6, s1) == body(toks, 7, s1));
    lemma_parse_statements(toks, at1, ts, s1);
    lemma_parse_annotations(toks, at2, names, s1 + as_transitions(ts));
    assert(s1 + as_transitions(ts) + as_states(names) =~= written_declarations(ts));
    assert(toks.len() == at3 + 1);
    assert(body(toks, at3, written_declarations(ts)) == Ok::<Seq<Declaration>, ParseError>(
        written_declarations(ts),
    ));
}

/// The transitions among the statements of a written graph text are the
/// transitions that were written.
proof fn lemma_declared_edges_of_states(before: Seq<Declaration>, names: Seq<Seq<char>>)
    ensures
        declared_edges(before + as_states(names)) == declared_edges(before),
    decreases names.len(),
{
    if names.len() == 0 {
        assert(before + as_states(names) =~= before);
    } else {
        let all = before + as_states(names);
        assert(all.drop_last() =~= before + as_states(names.drop_last()));
        lemma_declared_edges_of_states(before, names.drop_last());
    }
}

/// The transitions among a setting and transitions as statements are
/// those transitions.
proof fn lemma_declared_edges_of_transitions(ts: Seq<Transition>)
    ensures
        declared_edges(seq![Declaration::Setting] + as_transitions(ts)) == ts,
    decreases ts.len(),
{
    let all = seq![Declaration::Setting] + as_transitions(ts);
    if ts.len() == 0 {
        assert(all.drop_last() =~= Seq::<Declaration>::empty());
        assert(declared_edges(all.drop_last()) =~= Seq::<Transition>::empty());
        assert(declared_edges(all) =~= ts);
    } else {
        assert(all.drop_last() =~= seq![Declaration::Setting] + as_transitions(ts.drop_last()));
        lemma_declared_edges_of_transitions(ts.drop_last());
        assert(all.last() == Declaration::Transition(ts.last()));
        assert(declared_edges(all) =~= ts);
    }
}

/// Reading back: the graph text of transitions that can be written reads
/// as the setting of the layout, those transitions in order, and the
/// declarations of the accepting states. So the transitions that are read
/// are the transitions that were written.
pub proof fn law_written_text_reads_back(ts: Seq<Transition>)
    requires
        all_writable(ts),
    ensures
        decode(dot_text(ts)) == Ok::<Seq<Declaration>, ParseError>(written_declarations(ts)),
        declared_edges(written_declarations(ts)) == ts,
{
    lemma_lex_written(ts);
    lemma_parse_written(ts);
    lemma_declared_edges_of_transitions(ts);
    lemma_declared_edges_of_states(
        seq![Declaration::Setting] + as_transitions(ts),
        accepting_targets(ts, ts.len()),
    );
}

/// No name among the tokens holds a quote.
pub open spec fn clean(toks: Seq<Lexeme>) -> bool {
    forall|k: int| 0 <= k < toks.len() && (#[trigger] toks[k]) is Id ==> !toks[k]->text.contains('"')
}

/// Tokens without a quote in their names stay so when one more such token
/// is added.
proof fn lemma_clean_push(before: Seq<Lexeme>, token: Lexeme)
    requires
        clean(before),
        token is Id ==> !token->text.contains('"'),
    ensures
        clean(before.push(token)),
{
    let longer = before.push(token);
    assert forall|k: int| 0 <= k < longer.len() && (#[trigger] longer[k]) is Id implies !longer[
        k
    ]->text.contains('"') by {
        if k < before.len() {
            assert(longer[k] == before[k]);
        }
    }
}

/// No name that the lexer finds holds a quote.
proof fn lemma_lex_clean(text: Seq<char>, i: int, before: Seq<Lexeme>)
    requires
        clean(before),
        lex_from(text, i, before) is Ok,
    ensures
        clean(lex_from(text, i, before)->Ok_0),
    decreases text.len() - i,
{
    if 0 <= i < text.len() {
        lemma_quote_end(text, i + 1);
        lemma_name_end(text, i);
        if is_space(text[i]) {
            lemma_lex_clean(text, i + 1, before);
        } else if text[i] == '"' {
            let close = quote_end(text, i + 1);
            let name = text.subrange(i + 1, close);
            let longer = before.push(Lexeme::Id { text: name, quoted: true });
            assert(!name.contains('"')) by {
                if name.contains('"') {
                    let j = name.index_of('"');
                    assert(text[i + 1 + j] == '"');
                }
            }
            lemma_clean_push(before, longer[before.len() as int]);
            lemma_lex_clean(text, close + 1, longer);
        } else if is_name_char(text[i]) {
            let end = name_end(text, i);
            let name = text.subrange(i, end);
            let longer = before.push(Lexeme::Id { text: name, quoted: false });
            assert(!name.contains('"')) by {
                if name.contains('"') {
                    let j = name.index_of('"');
                    assert(is_name_char(text[i + j]));
                }
            }
            lemma_clean_push(before, longer[before.len() as int]);
            lemma_lex_clean(text, end, longer);
        } else if text[i] == '-' {
            let longer = before.push(Lexeme::Arrow);
            lemma_clean_push(before, longer[before.len() as int]);
            lemma_lex_clean(text, i + 2, longer);
        } else {
            let longer = before.push(punctuation(text[i])->0);
            lemma_clean_push(before, longer[before.len() as int]);
            lemma_lex_clean(text, i + 1, longer);
        }
    }
}

/// The label holds no quote.
pub open spec fn clean_label(label: Option<Seq<char>>) -> bool {
    label matches Some(l) ==> !l.contains('"')
}

/// The label that attribute lists give holds no quote.
proof fn lemma_attributes_clean(toks: Seq<Lexeme>, k: int, inside: bool, label: Option<Seq<char>>)
    requires
        clean(toks),
        clean_label(label),
        attributes(toks, k, inside, label) is Ok,
    ensures
        clean_label(attributes(toks, k, inside, label)->Ok_0.0),
    decreases toks.len() - k,
{
    if k >= 0 {
        if !inside {
            if k < toks.len() && toks[k] is OpenBracket {
                lemma_attributes_clean(toks, k + 1, true, label);
            }
        } else if k < toks.len() {
            match toks[k] {
                Lexeme::CloseBracket => lemma_attributes_clean(toks, k + 1, false, label),
                Lexeme::Comma => lemma_attributes_clean(toks, k + 1, true, label),
                Lexeme::Semicolon => lemma_attributes_clean(toks, k + 1, true, label),
                Lexeme::Id { text: key, .. } => {
                    if k + 2 < toks.len() && toks[k + 1] is Equals && toks[k + 2] is Id {
                        lemma_attributes_clean(
                            toks,
                            k + 3,
                            true,
                            if key == label_key() {
                                Some(toks[k + 2]->text)
                            } else {
                                label
                            },
                        );
                    }
                },
                _ => {},
            }
        }
    }
}

/// The transitions among the statements that the parser finds can be
/// written.
proof fn lemma_body_writable(toks: Seq<Lexeme>, k: int, before: Seq<Declaration>)
    requires
        clean(toks),
        all_writable(declared_edges(before)),
        body(toks, k, before) is Ok,
    ensures
        all_writable(declared_edges(body(toks, k, before)->Ok_0)),
    decreases toks.len() - k,
{
    if 0 <= k < toks.len() {
        if toks[k] is CloseBrace {
        } else if toks[k] is Semicolon {
            lemma_body_writable(toks, k + 1, before);
        } else {
            crate::automata::parser::lemma_statement_advance(toks, k);
            let (declaration, next) = parsed(toks, k)->Ok_0;
            let longer = before.push(declaration);
            assert(longer.drop_last() =~= before);
            match declaration {
                Declaration::Transition(t) => {
                    lemma_attributes_clean(toks, k + 3, false, None);
                    assert(writable(t));
                    let edges = declared_edges(before);
                    assert(declared_edges(longer) == edges.push(t));
                    assert forall|e: int| 0 <= e < edges.push(t).len() implies writable(
                        #[trigger] edges.push(t)[e],
                    ) by {
                        if e < edges.len() {
                            assert(writable(edges[e]));
                        }
                    }
                },
                _ => {
                    assert(declared_edges(longer) == declared_edges(before));
                },
            }
            lemma_body_writable(toks, next, longer);
        }
    }
}

/// What is read can be written: the transitions of a graph text that can
/// be read hold no quote, and their labels are one character at most.
pub proof fn lemma_decoded_is_writable(text: Seq<char>)
    requires
        decode(text) is Ok,
    ensures
        all_writable(declared_edges(decode(text)->Ok_0)),
{
    let toks = lex(text)->Ok_0;
    lemma_lex_clean(text, 0, Seq::empty());
    let none = Seq::<Declaration>::empty();
    assert(declared_edges(none) =~= Seq::<Transition>::empty());
    if opens_graph(toks) && toks.len() >= 2 && toks[1] is OpenBrace {
        lemma_body_writable(toks, 2, none);
    } else {
        lemma_body_writable(toks, 3, none);
    }
}

/// Reading, writing and reading again: where a graph text can be read, the
/// graph text of its transitions can be read too, and holds the same
/// transitions in the same order. The two automata are then the same, so
/// that they are equivalent from every state, and every verdict on the one
/// text is a verdict on the other.
pub proof fn law_read_write_read(text: Seq<char>)
    requires
        decode(text) is Ok,
    ensures
        decode(dot_text(declared_edges(decode(text)->Ok_0))) is Ok,
        declared_edges(decode(dot_text(declared_edges(decode(text)->Ok_0)))->Ok_0)
            == declared_edges(decode(text)->Ok_0),
        forall|s: int| #[trigger]
            equivalent_from(
                automaton_of(
                    declared_edges(
                        decode(dot_text(declared_edges(decode(text)->Ok_0)))->Ok_0,
                    ),
                ),
                automaton_of(declared_edges(decode(text)->Ok_0)),
                s,
                s,
            ),
        forall|pattern: Seq<char>, verdict: Verdict| #[trigger]
            judged(pattern, dot_text(declared_edges(decode(text)->Ok_0)), verdict) == judged(
                pattern,
                text,
                verdict,
            ),
{
    let decls = decode(text)->Ok_0;
    let ts = declared_edges(decls);
    lemma_decoded_is_writable(text);
    law_written_text_reads_back(ts);
    assert forall|s: int| #[trigger]
        equivalent_from(automaton_of(ts), automaton_of(ts), s, s) by {
        law_equivalent_to_itself(automaton_of(ts), s);
    }
}

} // verus!
