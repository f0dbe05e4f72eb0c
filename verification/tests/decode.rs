use ce_envs::automata::lexer::{tokenize, TokenKind};
use ce_envs::automata::parser::{parse_text, Statement};
use ce_envs::automata::{dot_to_petgraph, Edge, ParseError};

fn triples(edges: &[Edge]) -> Vec<(String, String, String)> {
    edges
        .iter()
        .map(|e| (e.from.clone(), e.to.clone(), e.label.clone()))
        .collect()
}

fn triple(from: &str, to: &str, label: &str) -> (String, String, String) {
    (from.to_string(), to.to_string(), label.to_string())
}

fn read(text: &str) -> Vec<(String, String, String)> {
    match dot_to_petgraph(text) {
        Ok(graph) => triples(&graph.edges()),
        Err(error) => panic!("unexpected error: {:?}", error),
    }
}

fn refused(text: &str) -> ParseError {
    match dot_to_petgraph(text) {
        Ok(_) => panic!("the text was read"),
        Err(error) => error,
    }
}

#[test]
fn tokens_of_a_statement() {
    let text: Vec<char> = "\"a b\"->c_1 [label=\"x\"];".chars().collect();
    let tokens = tokenize(&text).unwrap();
    let kinds: Vec<TokenKind> = tokens.iter().map(|t| t.kind).collect();
    assert_eq!(
        kinds,
        vec![
            TokenKind::Quoted,
            TokenKind::Arrow,
            TokenKind::Name,
            TokenKind::OpenBracket,
            TokenKind::Name,
            TokenKind::Equals,
            TokenKind::Quoted,
            TokenKind::CloseBracket,
            TokenKind::Semicolon,
        ]
    );
    assert_eq!((tokens[0].start, tokens[0].end), (1, 4));
    assert_eq!((tokens[2].start, tokens[2].end), (7, 10));
    assert_eq!((tokens[4].start, tokens[4].end), (12, 17));
    assert_eq!((tokens[6].start, tokens[6].end), (19, 20));
}

#[test]
fn tokens_of_blank_text() {
    let text: Vec<char> = " \t\r\n ".chars().collect();
    assert!(tokenize(&text).unwrap().is_empty());
    assert!(tokenize(&[]).unwrap().is_empty());
}

#[test]
fn lexical_errors() {
    let text: Vec<char> = "a -> \"b".chars().collect();
    assert_eq!(tokenize(&text).unwrap_err(), ParseError::UnterminatedString);
    let text: Vec<char> = "a - b".chars().collect();
    assert_eq!(tokenize(&text).unwrap_err(), ParseError::UnexpectedCharacter);
    let text: Vec<char> = "a -".chars().collect();
    assert_eq!(tokenize(&text).unwrap_err(), ParseError::UnexpectedCharacter);
    let text: Vec<char> = "a # b".chars().collect();
    assert_eq!(tokenize(&text).unwrap_err(), ParseError::UnexpectedCharacter);
}

#[test]
fn quoted_and_bare_names() {
    assert_eq!(
        read("digraph { a -> \"b c\" [label=x] \"b c\" -> a [label=\"y\"] }"),
        vec![triple("a", "b c", "x"), triple("b c", "a", "y")]
    );
}

#[test]
fn a_quoted_name_may_hold_anything_but_a_quote() {
    assert_eq!(
        read("digraph { \"->\" -> \"[x=1];\\\" [label=\"{\"] }"),
        vec![triple("->", "[x=1];\\", "{")]
    );
    assert_eq!(
        read("digraph { \"\" -> \"é\n\" }"),
        vec![triple("", "é\n", "")]
    );
}

#[test]
fn attributes_in_any_order_and_extra_keys() {
    assert_eq!(
        read("digraph G { a -> b [color=red, label=\"x\"; weight = 2] }"),
        vec![triple("a", "b", "x")]
    );
    assert_eq!(
        read("digraph G { a -> b [color=red] [label=x] [shape=box] }"),
        vec![triple("a", "b", "x")]
    );
    assert_eq!(
        read("digraph G { a -> b [\"label\"=x] }"),
        vec![triple("a", "b", "x")]
    );
}

#[test]
fn the_last_label_counts() {
    assert_eq!(
        read("digraph G { a -> b [label=x, label=y] [label=z] }"),
        vec![triple("a", "b", "z")]
    );
    assert_eq!(
        read("digraph G { a -> b [label=toolong, label=y] }"),
        vec![triple("a", "b", "y")]
    );
}

#[test]
fn a_missing_label_is_empty() {
    assert_eq!(read("digraph G { a -> b }"), vec![triple("a", "b", "")]);
    assert_eq!(read("digraph G { a -> b [] }"), vec![triple("a", "b", "")]);
    assert_eq!(
        read("digraph G { a -> b [label=\"\"] }"),
        vec![triple("a", "b", "")]
    );
    assert_eq!(
        read("digraph G { a -> b [color=red]; }"),
        vec![triple("a", "b", "")]
    );
}

#[test]
fn isolated_states_are_kept_as_states() {
    let graph = match dot_to_petgraph(
        "digraph { dead; a -> b [label=x]; \"other\" [shape=box]; b [accepting=true] }",
    ) {
        Ok(graph) => graph,
        Err(error) => panic!("unexpected error: {:?}", error),
    };
    assert_eq!(graph.node_names(), vec!["dead", "a", "b", "other"]);
    assert_eq!(triples(&graph.edges()), vec![triple("a", "b", "x")]);
}

#[test]
fn states_are_numbered_by_first_mention() {
    let graph = match dot_to_petgraph("digraph { c -> a; b; a -> c; a -> b; d -> d }") {
        Ok(graph) => graph,
        Err(error) => panic!("unexpected error: {:?}", error),
    };
    assert_eq!(graph.node_names(), vec!["c", "a", "b", "d"]);
    assert_eq!(
        triples(&graph.edges()),
        vec![
            triple("c", "a", ""),
            triple("a", "c", ""),
            triple("a", "b", ""),
            triple("d", "d", ""),
        ]
    );
}

#[test]
fn settings_are_passed_over() {
    let graph = match dot_to_petgraph("digraph { rankdir=LR; size = \"4,4\" a -> b }") {
        Ok(graph) => graph,
        Err(error) => panic!("unexpected error: {:?}", error),
    };
    assert_eq!(graph.node_names(), vec!["a", "b"]);
}

#[test]
fn layout_of_the_text_is_free() {
    assert_eq!(
        read("digraph\n\tAutomaton{a->b[label=x]b->c\n[\nlabel\n=\ny\n]\n;;c->a}"),
        vec![triple("a", "b", "x"), triple("b", "c", "y"), triple("c", "a", "")]
    );
    assert_eq!(read("digraph{}"), vec![]);
    assert_eq!(read("  digraph \"my graph\" { } \n"), vec![]);
}

#[test]
fn statements_of_a_text() {
    let statements = parse_text("digraph { a -> b [label=x]; c; k = v }").unwrap();
    assert_eq!(statements.len(), 3);
    match &statements[0] {
        Statement::Edge(edge) => {
            assert_eq!(
                (edge.from.as_str(), edge.to.as_str(), edge.label.as_str()),
                ("a", "b", "x")
            )
        }
        other => panic!("unexpected statement: {:?}", other),
    }
    match &statements[1] {
        Statement::Node(name) => assert_eq!(name, "c"),
        other => panic!("unexpected statement: {:?}", other),
    }
    assert!(matches!(statements[2], Statement::Setting));
}

#[test]
fn a_text_without_header_is_refused() {
    assert_eq!(refused(""), ParseError::MissingHeader);
    assert_eq!(refused("graph { a -> b }"), ParseError::MissingHeader);
    assert_eq!(refused("\"digraph\" { a -> b }"), ParseError::MissingHeader);
    assert_eq!(refused("digraph a b { }"), ParseError::MissingHeader);
    assert_eq!(refused("digraph"), ParseError::MissingHeader);
    assert_eq!(refused("{ a -> b }"), ParseError::MissingHeader);
}

#[test]
fn an_open_graph_is_refused() {
    assert_eq!(refused("digraph {"), ParseError::UnterminatedGraph);
    assert_eq!(refused("digraph { a -> b;"), ParseError::UnterminatedGraph);
}

#[test]
fn text_after_the_graph_is_refused() {
    assert_eq!(refused("digraph { } a"), ParseError::TrailingText);
    assert_eq!(refused("digraph { a -> b } }"), ParseError::TrailingText);
}

#[test]
fn a_broken_statement_is_refused() {
    assert_eq!(refused("digraph { a -> }"), ParseError::MalformedStatement);
    assert_eq!(refused("digraph { -> b }"), ParseError::MalformedStatement);
    assert_eq!(refused("digraph { a -> b -> c }"), ParseError::MalformedStatement);
    assert_eq!(refused("digraph { a = }"), ParseError::MalformedStatement);
    assert_eq!(refused("digraph { = }"), ParseError::MalformedStatement);
    assert_eq!(refused("digraph { { } }"), ParseError::MalformedStatement);
    assert_eq!(refused("digraph { a ] }"), ParseError::MalformedStatement);
}

#[test]
fn broken_attributes_are_refused() {
    assert_eq!(refused("digraph { a -> b [label=x }"), ParseError::MalformedAttributes);
    assert_eq!(refused("digraph { a -> b [label] }"), ParseError::MalformedAttributes);
    assert_eq!(refused("digraph { a -> b [label=] }"), ParseError::MalformedAttributes);
    assert_eq!(refused("digraph { a -> b [=x] }"), ParseError::MalformedAttributes);
    assert_eq!(refused("digraph { a [ [ ] }"), ParseError::MalformedAttributes);
    assert_eq!(refused("digraph { a -> b [label=x"), ParseError::MalformedAttributes);
}

#[test]
fn a_long_label_is_refused() {
    assert_eq!(refused("digraph { a -> b [label=\"xy\"] }"), ParseError::InvalidLabel);
    assert_eq!(refused("digraph { a -> b [label=epsilon] }"), ParseError::InvalidLabel);
}

#[test]
fn a_long_label_on_a_state_is_passed_over() {
    assert_eq!(
        read("digraph { a [label=\"the start\"]; a -> b [label=x] }"),
        vec![triple("a", "b", "x")]
    );
}

#[test]
fn lexical_errors_come_first() {
    assert_eq!(refused("graph { a -> \"b }"), ParseError::UnterminatedString);
    assert_eq!(refused("digraph { a -> } ?"), ParseError::UnexpectedCharacter);
}

#[test]
fn every_error_has_its_text() {
    assert_eq!(
        ParseError::UnterminatedString.message(),
        "a quoted name is not closed"
    );
    assert_eq!(
        ParseError::UnexpectedCharacter.message(),
        "a character stands where no token can start"
    );
    assert_eq!(
        ParseError::MissingHeader.message(),
        "the text does not open with `digraph` and `{`"
    );
    assert_eq!(
        ParseError::UnterminatedGraph.message(),
        "the closing `}` of the graph is missing"
    );
    assert_eq!(
        ParseError::MalformedStatement.message(),
        "a statement is neither a transition, nor a state, nor a setting"
    );
    assert_eq!(
        ParseError::MalformedAttributes.message(),
        "an attribute list is not closed or holds more than `key = value` pairs"
    );
    assert_eq!(
        ParseError::InvalidLabel.message(),
        "the label of a transition is longer than one character"
    );
    assert_eq!(
        ParseError::TrailingText.message(),
        "something follows the closing `}` of the graph"
    );
}

#[test]
fn what_is_written_reads_back() {
    let written = vec![
        Edge {
            from: "0".to_string(),
            to: "0-1".to_string(),
            label: "A".to_string(),
        },
        Edge {
            from: "0".to_string(),
            to: "0-1".to_string(),
            label: "a".to_string(),
        },
        Edge {
            from: "0-1".to_string(),
            to: "x-y-z".to_string(),
            label: "7".to_string(),
        },
        Edge {
            from: "0".to_string(),
            to: "0-1".to_string(),
            label: "A".to_string(),
        },
        Edge {
            from: "x-y-z".to_string(),
            to: "0".to_string(),
            label: "q".to_string(),
        },
    ];
    let text = ce_envs::automata::edges_to_dot(&written);
    assert_eq!(read(&text), triples(&written));
    let text = ce_envs::automata::edges_to_dot(&[]);
    assert_eq!(read(&text), vec![]);
}
