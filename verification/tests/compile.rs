use ce_envs::automata::compile::name_of_state;
use ce_envs::automata::{
    automata_edges_from_word, edges_to_dot, split_and_collect, word_count, word_length,
    AutomataEnv, Edge, Input, PatternError,
};

fn triples(edges: &[Edge]) -> Vec<(String, String, String)> {
    edges
        .iter()
        .map(|e| (e.from.clone(), e.to.clone(), e.label.clone()))
        .collect()
}

fn triple(from: &str, to: &str, label: &str) -> (String, String, String) {
    (from.to_string(), to.to_string(), label.to_string())
}

#[test]
fn state_names_are_numerals() {
    assert_eq!(name_of_state(0, 0), "0");
    assert_eq!(name_of_state(7, 0), "0");
    assert_eq!(name_of_state(0, 1), "0-1");
    assert_eq!(name_of_state(10, 12), "10-12");
    assert_eq!(name_of_state(305, 9), "305-9");
    assert_eq!(name_of_state(1, 1234567890), "1-1234567890");
}

#[test]
fn a_letter_gives_both_cases_upper_first() {
    let edges = automata_edges_from_word("a", 0).unwrap();
    assert_eq!(
        triples(&edges),
        vec![triple("0", "0-1", "A"), triple("0", "0-1", "a")]
    );
    let edges = automata_edges_from_word("Z", 3).unwrap();
    assert_eq!(
        triples(&edges),
        vec![triple("0", "3-1", "Z"), triple("0", "3-1", "z")]
    );
}

#[test]
fn a_digit_gives_one_transition() {
    let edges = automata_edges_from_word("7", 2).unwrap();
    assert_eq!(triples(&edges), vec![triple("0", "2-1", "7")]);
}

#[test]
fn a_word_is_a_path() {
    let edges = automata_edges_from_word("a1B", 4).unwrap();
    assert_eq!(
        triples(&edges),
        vec![
            triple("0", "4-1", "A"),
            triple("0", "4-1", "a"),
            triple("4-1", "4-2", "1"),
            triple("4-2", "4-3", "B"),
            triple("4-2", "4-3", "b"),
        ]
    );
}

#[test]
fn the_empty_word_has_no_transition() {
    assert!(automata_edges_from_word("", 0).unwrap().is_empty());
}

#[test]
fn a_word_stops_at_its_first_bad_character() {
    assert_eq!(
        automata_edges_from_word("ab-c+", 0).unwrap_err(),
        PatternError::InvalidCharacter {
            position: 2,
            found: '-'
        }
    );
    assert_eq!(
        automata_edges_from_word("a|b", 0).unwrap_err(),
        PatternError::InvalidCharacter {
            position: 1,
            found: '|'
        }
    );
    assert_eq!(
        automata_edges_from_word("é", 0).unwrap_err(),
        PatternError::InvalidCharacter {
            position: 0,
            found: 'é'
        }
    );
}

#[test]
fn alternation_gives_parallel_paths_from_the_shared_root() {
    let edges = split_and_collect("a|b").unwrap();
    assert_eq!(
        triples(&edges),
        vec![
            triple("0", "0-1", "A"),
            triple("0", "0-1", "a"),
            triple("0", "1-1", "B"),
            triple("0", "1-1", "b"),
        ]
    );
}

#[test]
fn empty_alternatives_keep_their_number() {
    let edges = split_and_collect("|ab||c").unwrap();
    assert_eq!(
        triples(&edges),
        vec![
            triple("0", "1-1", "A"),
            triple("0", "1-1", "a"),
            triple("1-1", "1-2", "B"),
            triple("1-1", "1-2", "b"),
            triple("0", "3-1", "C"),
            triple("0", "3-1", "c"),
        ]
    );
}

#[test]
fn the_empty_pattern_has_no_transition() {
    assert!(split_and_collect("").unwrap().is_empty());
    assert!(split_and_collect("||").unwrap().is_empty());
}

#[test]
fn a_pattern_stops_at_its_first_bad_character() {
    assert_eq!(
        split_and_collect("ab|c d|+").unwrap_err(),
        PatternError::InvalidCharacter {
            position: 4,
            found: ' '
        }
    );
    assert_eq!(
        split_and_collect("a+b").unwrap_err(),
        PatternError::InvalidCharacter {
            position: 1,
            found: '+'
        }
    );
    assert_eq!(
        split_and_collect("ab|ü").unwrap_err(),
        PatternError::InvalidCharacter {
            position: 3,
            found: 'ü'
        }
    );
}

#[test]
fn changing_case_changes_nothing() {
    let lower = split_and_collect("hello|w0rld").unwrap();
    let mixed = split_and_collect("HeLlO|W0RLd").unwrap();
    assert_eq!(triples(&lower), triples(&mixed));
}

#[test]
fn an_edge_is_written_as_a_statement() {
    let edge = Edge {
        from: "0".to_string(),
        to: "0-1".to_string(),
        label: "a".to_string(),
    };
    assert_eq!(edge.to_string(), "\"0\"->\"0-1\" [label=\"a\"];");
}

#[test]
fn the_text_of_a_pattern() {
    let output = AutomataEnv::run(&Input {
        regex: "a1".to_string(),
    })
    .unwrap();
    assert_eq!(
        output.dot,
        " digraph Automaton {\n    rankdir=LR;\
         \"0\"->\"0-1\" [label=\"A\"];\
         \"0\"->\"0-1\" [label=\"a\"];\
         \"0-1\"->\"0-2\" [label=\"1\"];\
         \"0-2\" [accepting=true];}"
    );
}

#[test]
fn the_text_of_the_empty_pattern() {
    let output = AutomataEnv::run(&Input {
        regex: String::new(),
    })
    .unwrap();
    assert_eq!(output.dot, " digraph Automaton {\n    rankdir=LR;}");
}

#[test]
fn accepting_states_are_marked_once_in_order() {
    let edges = vec![
        Edge {
            from: "a".to_string(),
            to: "x".to_string(),
            label: "1".to_string(),
        },
        Edge {
            from: "a".to_string(),
            to: "b".to_string(),
            label: "2".to_string(),
        },
        Edge {
            from: "b".to_string(),
            to: "y".to_string(),
            label: "3".to_string(),
        },
        Edge {
            from: "b".to_string(),
            to: "x".to_string(),
            label: "4".to_string(),
        },
    ];
    assert_eq!(
        edges_to_dot(&edges),
        " digraph Automaton {\n    rankdir=LR;\
         \"a\"->\"x\" [label=\"1\"];\
         \"a\"->\"b\" [label=\"2\"];\
         \"b\"->\"y\" [label=\"3\"];\
         \"b\"->\"x\" [label=\"4\"];\
         \"x\" [accepting=true];\
         \"y\" [accepting=true];}"
    );
}

#[test]
fn a_rejected_pattern_gives_no_text() {
    let error = AutomataEnv::run(&Input {
        regex: "a b".to_string(),
    })
    .unwrap_err();
    assert_eq!(
        error,
        PatternError::InvalidCharacter {
            position: 1,
            found: ' '
        }
    );
    assert_eq!(error.message(), "Only alhpanumerical chars and | is allowed");
}

#[test]
fn a_pattern_from_picks() {
    let picks = vec![vec![0, 1, 25], vec![26, 51, 52, 61], vec![62, 123]];
    assert_eq!(
        ce_envs::automata::pattern_from_picks(&picks),
        "abz|AZ10|a0"
    );
    assert_eq!(ce_envs::automata::pattern_from_picks(&[]), "");
    assert_eq!(ce_envs::automata::pattern_from_picks(&[vec![], vec![3]]), "|d");
    assert!(split_and_collect(&ce_envs::automata::pattern_from_picks(&picks)).is_ok());
}

#[test]
fn drawn_sizes_stay_in_range() {
    assert_eq!(word_count(0), 1);
    assert_eq!(word_count(9), 10);
    assert_eq!(word_count(10), 1);
    assert_eq!(word_count(12345), 6);
    assert_eq!(word_length(0), 1);
    assert_eq!(word_length(18), 19);
    assert_eq!(word_length(19), 1);
    assert_eq!(word_length(1000), 13);
    for draw in [usize::MAX, usize::MAX - 1, 77, 1 << 20] {
        assert!((1..=10).contains(&word_count(draw)));
        assert!((1..=19).contains(&word_length(draw)));
    }
}
