use ce_envs::automata::{AutomataEnv, Input, Output, Verdict};

#[test]
fn non_equivalent_automata_simple() {
    let input = Input {
        regex: "a".to_string(),
    };

    let output = Output {
        dot: r#"
            digraph Automaton {
                rankdir=LR;
                "0" -> "0-1" [label="b"];
                "0" -> "0-1" [label="B"];
            }
        "#
        .to_string(),
    };

    match AutomataEnv::validate(&input, &output).unwrap() {
        Verdict::Mismatch { .. } => (), // expected
        Verdict::Correct => panic!("expected mismatch, got correct"),
        Verdict::StructuralError { reason } => panic!("unexpected structural error: {}", reason),
    }
}

#[test]
fn dead_end_equivalence() {
    let input = Input {
        regex: "abb".to_string(),
    };
    let output = Output {
        dot: r#"
            digraph Automaton {
                rankdir=LR;
                "0" -> "0-1" [label="a"];
                "0" -> "0-1" [label="A"];
                "0-1" -> "0-2" [label="b"];
                "0-1" -> "0-2" [label="B"];
                "0-2" -> "0-3" [label="b"];
                "0-2" -> "0-3" [label="B"];
                "0" -> "k" [label="A"];
            }
        "#
        .to_string(),
    };

    match AutomataEnv::validate(&input, &output).unwrap() {
        Verdict::Correct => (),
        Verdict::Mismatch { reason } => panic!("unexpected mismatch: {}", reason),
        Verdict::StructuralError { reason } => panic!("unexpected structural error: {}", reason),
    }
}

#[test]
fn empty_graph_non_empty_graph_non_equivalence() {
    let input = Input {
        regex: "abc".to_string(),
    };
    let output = Output {
        dot: r#"
 digraph Automaton {
    rankdir=LR;}
        "#
        .to_string(),
    };

    match AutomataEnv::validate(&input, &output).unwrap() {
        Verdict::Correct => panic!("unexpected match"),
        Verdict::Mismatch { .. } => (),
        Verdict::StructuralError { reason } => panic!("unexpected structural error: {}", reason),
    }
}

#[test]
fn empty_graph_equivalence() {
    let input = Input {
        regex: "".to_string(),
    };

    let output = Output {
        dot: r#"
            digraph Automaton {
                rankdir=LR;
            }
        "#
        .to_string(),
    };

    match AutomataEnv::validate(&input, &output).unwrap() {
        Verdict::Correct => (),
        Verdict::Mismatch { reason } => panic!("unexpected mismatch: {}", reason),
        Verdict::StructuralError { reason } => panic!("unexpected structural error: {}", reason),
    }
}

#[test]
fn explicit_dead_state_doesnt_matter() {
    let input = Input {
        regex: "a".to_string(),
    };

    let output = Output {
        dot: r#"
            digraph Automaton {
            "0" -> "0-1" [label = "a"]
            "0" -> "0-1" [label = "A"]
            "dead"
                rankdir=LR;
            }
        "#
        .to_string(),
    };

    match AutomataEnv::validate(&input, &output).unwrap() {
        Verdict::Correct => (),
        Verdict::Mismatch { reason } => panic!("unexpected mismatch: {}", reason),
        Verdict::StructuralError { reason } => panic!("unexpected structural error: {}", reason),
    }
}

#[test]
fn hello_world_graph_equivalence_pass() {
    let input = Input {
        regex: "HelloWorld".to_string(),
    };

    let output = Output {
        dot: r#"
            digraph Automaton {
                rankdir=LR;
                "0" -> "0-1" [label="h"];
                "0" -> "0-1" [label="H"];
                "0-1" -> "0-2" [label="e"];
                "0-1" -> "0-2" [label="E"];
                "0-2" -> "0-3" [label="l"];
                "0-2" -> "0-3" [label="L"];
                "0-3" -> "0-4" [label="l"];
                "0-3" -> "0-4" [label="L"];
                "0-4" -> "0-5" [label="o"];
                "0-4" -> "0-5" [label="O"];
                "0-5" -> "0-6" [label="w"];
                "0-5" -> "0-6" [label="W"];
                "0-6" -> "0-7" [label="o"];
                "0-6" -> "0-7" [label="O"];
                "0-7" -> "0-8" [label="r"];
                "0-7" -> "0-8" [label="R"];
                "0-8" -> "0-9" [label="l"];
                "0-8" -> "0-9" [label="L"];
                "0-9" -> "0-10" [label="d"];
                "0-9" -> "0-10" [label="D"];

            }
        "#
        .to_string(),
    };

    match AutomataEnv::validate(&input, &output).unwrap() {
        Verdict::Correct => (),
        Verdict::Mismatch { reason } => panic!("unexpected mismatch: {}", reason),
        Verdict::StructuralError { reason } => panic!("unexpected structural error: {}", reason),
    }
}

#[test]
fn hello_world_graph_equivalence_fail() {
    let input = Input {
        regex: "HelloWorld".to_string(),
    };

    // Final label as number to force mismatch
    let output = Output {
        dot: r#"
            digraph Automaton {
                rankdir=LR;
                "0" -> "0-1" [label="h"];
                "0" -> "0-1" [label="H"];
                "0-1" -> "0-2" [label="e"];
                "0-1" -> "0-2" [label="E"];
                "0-2" -> "0-3" [label="l"];
                "0-2" -> "0-3" [label="L"];
                "0-3" -> "0-4" [label="l"];
                "0-3" -> "0-4" [label="L"];
                "0-4" -> "0-5" [label="o"];
                "0-4" -> "0-5" [label="O"];
                "0-5" -> "0-6" [label="w"];
                "0-5" -> "0-6" [label="W"];
                "0-6" -> "0-7" [label="o"];
                "0-6" -> "0-7" [label="O"];
                "0-7" -> "0-8" [label="r"];
                "0-7" -> "0-8" [label="R"];
                "0-8" -> "0-9" [label="l"];
                "0-8" -> "0-9" [label="L"];
                "0-9" -> "0-10" [label="d"];
                "0-9" -> "0-10" [label="1"]; 

            }
        "#
        .to_string(),
    };

    match AutomataEnv::validate(&input, &output).unwrap() {
        Verdict::Correct => panic!("unexpected mismatch"),
        Verdict::Mismatch { .. } => (),
        Verdict::StructuralError { reason } => panic!("unexpected structural error: {}", reason),
    }
}

#[test]
fn split_on_bar() {
    let input = Input {
        regex: "a|b".to_string(),
    };

    let output = Output {
        dot: r#"
 digraph Automaton {
    rankdir=LR;
    "0"->"0-1" [label="A"];
    "0"->"0-1" [label="a"];
    "0"->"1-1" [label="B"];
    "0"->"1-1" [label="b"];
    }
        "#
        .to_string(),
    };

    match AutomataEnv::validate(&input, &output).unwrap() {
        Verdict::Correct => (),
        Verdict::Mismatch { reason } => panic!("unexpected mismatch: {}", reason),
        Verdict::StructuralError { reason } => panic!("unexpected structural error: {}", reason),
    }
}

#[test]
fn invalid_character_fails() {
    let input = Input {
        regex: "a+b".to_string(),
    };

    let message = match AutomataEnv::run(&input) {
        Ok(output) => output.dot,
        Err(error) => error.message(),
    };

    assert!(
        message.contains("Only alhpanumerical chars and | is allowed"),
        "Expected error message, got: {}",
        message
    );
}

#[test]
fn casing_does_not_matter() {
    let input = Input {
        regex: "aA".to_string(),
    };

    // The same automaton as for "aa", written with both cases of each letter
    let output = Output {
        dot: r#"
            digraph Automaton {
                rankdir=LR;
                "0" -> "0-1" [label="A"];
                "0" -> "0-1" [label="a"];
                "0-1" -> "0-2" [label="A"];
                "0-1" -> "0-2" [label="a"];
            }
        "#
        .to_string(),
    };

    match AutomataEnv::validate(&input, &output).unwrap() {
        Verdict::Correct => (),
        Verdict::Mismatch { reason } => {
            panic!("expected equivalence, got mismatch: {}", reason)
        }
        Verdict::StructuralError { reason } => panic!("unexpected structural error: {}", reason),
    }
}
