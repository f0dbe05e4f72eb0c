use ce_envs::automata::{
    alphabet, compute_live, derive_nodes, equivalent, first_divergence, first_root, states_of,
    transition, Divergence, Edge,
};

fn edge(from: &str, to: &str, label: &str) -> Edge {
    Edge {
        from: from.to_string(),
        to: to.to_string(),
        label: label.to_string(),
    }
}

/// r -x-> a -y-> f; a -z-> d; d -z-> d (a dead loop); r -x-> f (shadowed).
fn sample() -> Vec<Edge> {
    vec![
        edge("r", "a", "x"),
        edge("a", "f", "y"),
        edge("a", "d", "z"),
        edge("d", "d", "z"),
        edge("r", "f", "x"),
    ]
}

#[test]
fn states_come_in_order_of_first_occurrence() {
    let nodes = derive_nodes(&sample());
    let names: Vec<&str> = nodes.iter().map(|n| n.name.as_str()).collect();
    assert_eq!(names, vec!["r", "a", "f", "d"]);
}

#[test]
fn states_list_their_transitions() {
    let nodes = derive_nodes(&sample());
    assert_eq!(nodes[0].outgoing, vec![0, 4]);
    assert_eq!(nodes[0].targets, vec![1, 2]);
    assert!(nodes[0].ingoing.is_empty());
    assert!(nodes[0].sources.is_empty());
    assert_eq!(nodes[1].outgoing, vec![1, 2]);
    assert_eq!(nodes[1].targets, vec![2, 3]);
    assert_eq!(nodes[1].ingoing, vec![0]);
    assert_eq!(nodes[1].sources, vec![0]);
    assert!(nodes[2].outgoing.is_empty());
    assert_eq!(nodes[2].ingoing, vec![1, 4]);
    assert_eq!(nodes[2].sources, vec![1, 0]);
    assert_eq!(nodes[3].outgoing, vec![3]);
    assert_eq!(nodes[3].targets, vec![3]);
    assert_eq!(nodes[3].ingoing, vec![2, 3]);
    assert_eq!(nodes[3].sources, vec![1, 3]);
}

#[test]
fn no_transitions_no_derived_states() {
    assert!(derive_nodes(&[]).is_empty());
}

#[test]
fn an_automaton_without_transitions_has_one_state() {
    let nodes = states_of(&[]);
    assert_eq!(nodes.len(), 1);
    assert_eq!(nodes[0].name, "0");
    assert!(nodes[0].is_accepting());
    assert!(nodes[0].is_root());
    let nodes = states_of(&sample());
    assert_eq!(nodes.len(), 4);
}

#[test]
fn accepting_is_no_way_out_and_root_is_no_way_in() {
    let nodes = derive_nodes(&sample());
    let accepting: Vec<bool> = nodes.iter().map(|n| n.is_accepting()).collect();
    let root: Vec<bool> = nodes.iter().map(|n| n.is_root()).collect();
    assert_eq!(accepting, vec![false, false, true, false]);
    assert_eq!(root, vec![true, false, false, false]);
    assert_eq!(first_root(&nodes), Some(0));
}

#[test]
fn the_first_root_is_the_first_in_state_order() {
    let edges = vec![edge("a", "b", "x"), edge("c", "b", "y"), edge("b", "a", "z")];
    let nodes = derive_nodes(&edges);
    assert_eq!(first_root(&nodes), Some(2));
    let edges = vec![edge("a", "b", "x"), edge("b", "a", "y")];
    let nodes = derive_nodes(&edges);
    assert_eq!(first_root(&nodes), None);
    let edges = vec![edge("a", "a", "x")];
    let nodes = derive_nodes(&edges);
    assert_eq!(first_root(&nodes), None);
}

#[test]
fn live_states_reach_an_accepting_state() {
    let edges = sample();
    let nodes = derive_nodes(&edges);
    assert_eq!(compute_live(&nodes, &edges), vec![true, true, true, false]);
}

#[test]
fn a_cycle_without_exit_is_dead() {
    let edges = vec![edge("a", "b", "x"), edge("b", "a", "y"), edge("c", "a", "z")];
    let nodes = derive_nodes(&edges);
    assert_eq!(compute_live(&nodes, &edges), vec![false, false, false]);
    let edges = vec![
        edge("a", "b", "x"),
        edge("b", "a", "y"),
        edge("b", "end", "z"),
    ];
    let nodes = derive_nodes(&edges);
    assert_eq!(compute_live(&nodes, &edges), vec![true, true, true]);
}

#[test]
fn the_first_matching_transition_decides() {
    let edges = sample();
    let nodes = derive_nodes(&edges);
    assert_eq!(transition(&nodes, &edges, 0, &"x".to_string()), Some(1));
    assert_eq!(transition(&nodes, &edges, 0, &"y".to_string()), None);
    assert_eq!(transition(&nodes, &edges, 1, &"y".to_string()), Some(2));
    assert_eq!(transition(&nodes, &edges, 1, &"z".to_string()), Some(3));
    assert_eq!(transition(&nodes, &edges, 2, &"x".to_string()), None);
    assert_eq!(transition(&nodes, &edges, 3, &"z".to_string()), Some(3));
}

#[test]
fn the_alphabet_holds_each_label_once() {
    assert_eq!(alphabet(&sample()), vec!["x", "y", "z"]);
    assert!(alphabet(&[]).is_empty());
    let edges = vec![edge("a", "b", ""), edge("b", "c", "q"), edge("c", "d", "")];
    assert_eq!(alphabet(&edges), vec!["", "q"]);
}

#[test]
fn an_automaton_is_equivalent_to_itself() {
    let edges = sample();
    let nodes = derive_nodes(&edges);
    assert!(equivalent(&nodes, &edges, &nodes, &edges, 0, 0));
    assert!(first_divergence(&nodes, &edges, &nodes, &edges, 0, 0).is_none());
}

#[test]
fn names_and_dead_ends_do_not_matter() {
    let edges = sample();
    let nodes = derive_nodes(&edges);
    let other = vec![edge("start", "mid", "x"), edge("mid", "end", "y")];
    let other_nodes = derive_nodes(&other);
    assert!(equivalent(&nodes, &edges, &other_nodes, &other, 0, 0));
    assert!(equivalent(&other_nodes, &other, &nodes, &edges, 0, 0));
}

#[test]
fn the_start_matters() {
    let edges = sample();
    let nodes = derive_nodes(&edges);
    assert!(!equivalent(&nodes, &edges, &nodes, &edges, 0, 1));
    assert!(equivalent(&nodes, &edges, &nodes, &edges, 1, 1));
}

#[test]
fn a_difference_in_acceptance_is_found() {
    let one = vec![edge("0", "1", "a")];
    let two = vec![edge("0", "1", "a"), edge("1", "2", "b")];
    let nodes1 = derive_nodes(&one);
    let nodes2 = derive_nodes(&two);
    match first_divergence(&nodes1, &one, &nodes2, &two, 0, 0) {
        Some(Divergence::Acceptance { left, right }) => assert_eq!((left, right), (1, 1)),
        other => panic!("unexpected result: {:?}", other),
    }
    assert!(!equivalent(&nodes1, &one, &nodes2, &two, 0, 0));
}

#[test]
fn a_difference_in_labels_is_found() {
    let one = vec![edge("0", "1", "a"), edge("1", "2", "b")];
    let two = vec![edge("p", "q", "a"), edge("q", "r", "c")];
    let nodes1 = derive_nodes(&one);
    let nodes2 = derive_nodes(&two);
    match first_divergence(&nodes1, &one, &nodes2, &two, 0, 0) {
        Some(Divergence::Label { left, right, label }) => {
            assert_eq!((left, right), (1, 1));
            assert_eq!(label, "b");
        }
        other => panic!("unexpected result: {:?}", other),
    }
}

#[test]
fn a_transition_into_a_dead_state_is_no_transition() {
    let one = vec![edge("0", "1", "a")];
    let two = vec![
        edge("0", "1", "a"),
        edge("0", "trap", "b"),
        edge("trap", "trap", "b"),
    ];
    let nodes1 = derive_nodes(&one);
    let nodes2 = derive_nodes(&two);
    assert!(equivalent(&nodes1, &one, &nodes2, &two, 0, 0));
}

#[test]
fn loops_are_walked_once() {
    let one = vec![edge("s", "s", "a"), edge("s", "e", "b")];
    let two = vec![
        edge("x", "y", "a"),
        edge("y", "x", "a"),
        edge("x", "e", "b"),
        edge("y", "e", "b"),
    ];
    let nodes1 = derive_nodes(&one);
    let nodes2 = derive_nodes(&two);
    assert!(equivalent(&nodes1, &one, &nodes2, &two, 0, 0));
    let three = vec![
        edge("x", "y", "a"),
        edge("y", "x", "a"),
        edge("x", "e", "b"),
        edge("y", "e", "c"),
    ];
    let nodes3 = derive_nodes(&three);
    assert!(!equivalent(&nodes1, &one, &nodes3, &three, 0, 0));
}
