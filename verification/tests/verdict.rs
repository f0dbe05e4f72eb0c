use ce_envs::automata::{
    compare, dot_to_petgraph, AutomataEnv, Edge, Input, Output, PatternError, Verdict,
};

fn judge(pattern: &str, text: &str) -> Verdict {
    let input = Input {
        regex: pattern.to_string(),
    };
    let output = Output {
        dot: text.to_string(),
    };
    match AutomataEnv::validate(&input, &output) {
        Ok(verdict) => verdict,
        Err(error) => panic!("unexpected error: {:?}", error),
    }
}

fn correct(pattern: &str, text: &str) -> bool {
    matches!(judge(pattern, text), Verdict::Correct)
}

fn mismatch(pattern: &str, text: &str) -> String {
    match judge(pattern, text) {
        Verdict::Mismatch { reason } => reason,
        other => panic!("unexpected outcome: {:?}", other),
    }
}

fn edge(from: &str, to: &str, label: &str) -> Edge {
    Edge {
        from: from.to_string(),
        to: to.to_string(),
        label: label.to_string(),
    }
}

#[test]
fn the_text_of_a_pattern_is_a_correct_answer() {
    for pattern in ["", "a", "a|b", "HelloWorld", "ab|ac|7|", "x1y2|X1Y2|abc"] {
        let output = AutomataEnv::run(&Input {
            regex: pattern.to_string(),
        })
        .unwrap();
        assert!(correct(pattern, &output.dot), "pattern {}", pattern);
    }
}

#[test]
fn case_of_the_pattern_does_not_matter() {
    let output = AutomataEnv::run(&Input {
        regex: "hello|world".to_string(),
    })
    .unwrap();
    assert!(correct("HELLO|WORLD", &output.dot));
    assert!(correct("hElLo|WoRlD", &output.dot));
}

#[test]
fn an_isolated_state_does_not_matter() {
    let plain = "digraph { \"0\" -> \"0-1\" [label=a]; \"0\" -> \"0-1\" [label=A] }";
    let first = "digraph { dead; \"0\" -> \"0-1\" [label=a]; \"0\" -> \"0-1\" [label=A] }";
    let last = "digraph { \"0\" -> \"0-1\" [label=a]; \"0\" -> \"0-1\" [label=A]; dead }";
    assert!(correct("a", plain));
    assert!(correct("a", first));
    assert!(correct("a", last));
}

#[test]
fn a_transition_into_a_dead_state_does_not_matter() {
    let text = "digraph {
        s -> t [label=a]; s -> t [label=A];
        t -> u [label=b]; t -> u [label=B];
        trap -> trap [label=x];
        s -> trap [label=q];
        t -> trap [label=b];
    }";
    assert!(correct("ab", text));
}

#[test]
fn a_transition_out_of_an_accepting_state_does_matter() {
    let text = "digraph {
        s -> t [label=a]; s -> t [label=A];
        trap -> trap [label=x];
        t -> trap [label=q];
    }";
    assert_eq!(
        mismatch("a", text),
        "Not equivalent: the label \"a\" leads on from one of the states \"s\" and \"0\" only"
    );
}

#[test]
fn the_empty_pattern_matches_graphs_without_transitions_only() {
    assert!(correct("", "digraph { }"));
    assert!(correct("", "digraph { alone }"));
    assert!(correct("||", "digraph { a; b; c }"));
    assert_eq!(
        mismatch("", "digraph { a -> b [label=x] }"),
        "Not equivalent: of the states \"a\" and \"0\" one accepts and the other does not"
    );
    assert_eq!(
        mismatch("abc", "digraph { }"),
        "Not equivalent: of the states \"0\" and \"0\" one accepts and the other does not"
    );
}

#[test]
fn one_branch_of_two_is_a_mismatch() {
    let text = "digraph { \"0\"->\"0-1\" [label=\"A\"]; \"0\"->\"0-1\" [label=\"a\"]; }";
    assert_eq!(
        mismatch("a|b", text),
        "Not equivalent: the label \"B\" leads on from one of the states \"0\" and \"0\" only"
    );
}

#[test]
fn one_case_of_two_is_a_mismatch() {
    let text = "digraph { \"0\"->\"0-1\" [label=\"a\"]; }";
    assert_eq!(
        mismatch("a", text),
        "Not equivalent: the label \"A\" leads on from one of the states \"0\" and \"0\" only"
    );
}

#[test]
fn an_annotation_makes_no_state_accepting() {
    let text = "digraph {
        s -> t [label=a]; s -> t [label=A];
        t -> u [label=b]; t -> u [label=B];
        t [accepting=true];
    }";
    assert_eq!(
        mismatch("a", text),
        "Not equivalent: of the states \"t\" and \"0-1\" one accepts and the other does not"
    );
    assert!(correct("ab", text));
}

#[test]
fn a_graph_without_root_is_a_structural_error() {
    for text in [
        "digraph { a -> b [label=x]; b -> a [label=y] }",
        "digraph { a -> a [label=x] }",
        "digraph { lonely; a -> b [label=x]; b -> a [label=y] }",
    ] {
        match judge("a", text) {
            Verdict::StructuralError { reason } => {
                assert_eq!(reason, "No initial state in actual solution")
            }
            other => panic!("unexpected outcome: {:?}", other),
        }
    }
}

#[test]
fn an_unreadable_text_is_a_mismatch_with_the_reason() {
    assert_eq!(
        mismatch("a", "digraph { a -> \"b }"),
        "failed to parse dot: a quoted name is not closed"
    );
    assert_eq!(
        mismatch("a", "not a graph"),
        "failed to parse dot: the text does not open with `digraph` and `{`"
    );
    assert_eq!(
        mismatch("a", "digraph { a -> b [label=ab] }"),
        "failed to parse dot: the label of a transition is longer than one character"
    );
}

#[test]
fn a_bad_pattern_is_an_error_where_the_text_can_be_judged() {
    let input = Input {
        regex: "a b".to_string(),
    };
    for text in ["digraph { }", "digraph { a -> b [label=x] }"] {
        let output = Output {
            dot: text.to_string(),
        };
        assert_eq!(
            AutomataEnv::validate(&input, &output).unwrap_err(),
            PatternError::InvalidCharacter {
                position: 1,
                found: ' '
            }
        );
    }
}

#[test]
fn an_unreadable_text_is_a_mismatch_whatever_the_pattern() {
    for pattern in ["a", "+", "a b", ""] {
        assert_eq!(
            mismatch(pattern, ""),
            "failed to parse dot: the text does not open with `digraph` and `{`"
        );
        assert_eq!(
            mismatch(pattern, "digraph { a -> b [label=\"x] }"),
            "failed to parse dot: a quoted name is not closed"
        );
        assert_eq!(
            mismatch(pattern, "digraph { a -> b"),
            "failed to parse dot: the closing `}` of the graph is missing"
        );
    }
}

#[test]
fn a_graph_without_root_is_a_structural_error_whatever_the_pattern() {
    for pattern in ["a", "+", "a b"] {
        match judge(pattern, "digraph { a -> b [label=x]; b -> a [label=y] }") {
            Verdict::StructuralError { reason } => {
                assert_eq!(reason, "No initial state in actual solution")
            }
            other => panic!("unexpected outcome: {:?}", other),
        }
    }
}

#[test]
fn other_names_and_another_layout_are_correct() {
    let text = "digraph {
        start -> x [label=a]; start -> x [label=A];
        start -> y [label=a];
        x -> end [label=b]; x -> end [label=B];
        start -> z [label=c]; start -> z [label=C];
        z -> end2 [label=d]; z -> end2 [label=D];
    }";
    assert!(correct("ab|cd", text));
}

#[test]
fn shared_tails_are_correct() {
    let text = "digraph {
        s -> m [label=a]; s -> m [label=A];
        s -> m [label=b]; s -> m [label=B];
        m -> e [label=c]; m -> e [label=C];
    }";
    assert!(correct("ac|bc", text));
    assert!(!correct("ac|bd", text));
}

#[test]
fn reading_writing_and_reading_again_changes_no_verdict() {
    let text = "digraph G {
        rankdir = LR
        dead
        s -> t [color=red, label = a] s -> t [label=\"A\"];
        t -> \"the end\" [label=1]
        \"the end\" [accepting=true, shape=doublecircle]
        trap -> trap
    }";
    let first = match dot_to_petgraph(text) {
        Ok(graph) => graph.edges(),
        Err(error) => panic!("unexpected error: {:?}", error),
    };
    let written = ce_envs::automata::edges_to_dot(&first);
    assert_eq!(
        written,
        " digraph Automaton {\n    rankdir=LR;\
         \"s\"->\"t\" [label=\"a\"];\
         \"s\"->\"t\" [label=\"A\"];\
         \"t\"->\"the end\" [label=\"1\"];\
         \"trap\"->\"trap\" [label=\"\"];\
         \"the end\" [accepting=true];}"
    );
    let second = match dot_to_petgraph(&written) {
        Ok(graph) => graph.edges(),
        Err(error) => panic!("unexpected error: {:?}", error),
    };
    let as_triples = |edges: &[Edge]| -> Vec<(String, String, String)> {
        edges
            .iter()
            .map(|e| (e.from.clone(), e.to.clone(), e.label.clone()))
            .collect()
    };
    assert_eq!(as_triples(&first), as_triples(&second));
    assert!(matches!(compare(&first, &second), Verdict::Correct));
    assert!(correct("a1", text));
    assert!(correct("a1", &written));
}

#[test]
fn comparing_transitions_directly() {
    let reference = vec![edge("0", "0-1", "X"), edge("0", "0-1", "x")];
    let same = vec![edge("p", "q", "x"), edge("p", "q", "X")];
    assert!(matches!(compare(&same, &reference), Verdict::Correct));
    assert!(matches!(compare(&[], &[]), Verdict::Correct));
    match compare(&same, &[]) {
        Verdict::Mismatch { reason } => assert_eq!(
            reason,
            "Not equivalent: of the states \"p\" and \"0\" one accepts and the other does not"
        ),
        other => panic!("unexpected outcome: {:?}", other),
    }
    let looped = vec![edge("a", "a", "x")];
    match compare(&looped, &reference) {
        Verdict::StructuralError { reason } => {
            assert_eq!(reason, "No initial state in actual solution")
        }
        other => panic!("unexpected outcome: {:?}", other),
    }
    match compare(&reference, &looped) {
        Verdict::StructuralError { reason } => {
            assert_eq!(reason, "No initial state in reference solution")
        }
        other => panic!("unexpected outcome: {:?}", other),
    }
}

#[test]
fn inputs_and_outputs_start_empty() {
    assert_eq!(Input::default().regex, "");
    assert_eq!(Output::default().dot, "");
}

#[test]
fn inputs_and_outputs_compare_by_their_text() {
    let input = Input {
        regex: "a|b".to_string(),
    };
    assert!(input == input.clone());
    assert!(input != Input::default());
    let output = Output {
        dot: "digraph { }".to_string(),
    };
    assert!(output == output.clone());
    assert!(output != Output::default());
}
