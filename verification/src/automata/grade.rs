//! The oracle: the graph text of a pattern, and the verdict on a submitted
//! graph text.

use crate::automata::compile::{
    compiled, lemma_words_edges, rejects, split_and_collect, valid_pattern, words, PatternError,
};
use crate::automata::derive::{
    derive_nodes, lemma_first_state, lemma_state_names_distinct, lemma_state_names_hold,
    state_names,
};
use crate::automata::dot::{declared_edges, dot_to_petgraph};
use crate::automata::encode::{dot_text, edges_to_dot};
use crate::automata::equiv::{diverges, equivalent_from, first_divergence, Divergence};
use crate::automata::lexer::ParseError;
use crate::automata::parser::decode;
use crate::automata::model::{
    lemma_model_closed, lists_ingoing, lists_outgoing, model, names_of, transitions, well_formed,
    Arc, Automaton, Edge, Node, Transition,
};
use crate::text::push_char;
use vstd::prelude::*;
use vstd::string::StringExecFns;

verus! {

/// The task: a pattern, as an alternation of words.
#[derive(Debug, Clone, PartialEq)]
pub struct Input {
    pub regex: String,
}

/// An answer to the task: the graph text of an automaton.
#[derive(Debug, Clone, PartialEq)]
pub struct Output {
    pub dot: String,
}

impl Default for Input {
    fn default() -> (input: Input)
        ensures
            input.regex@ == Seq::<char>::empty(),
    {
        Input { regex: String::new() }
    }
}

impl Default for Output {
    fn default() -> (output: Output)
        ensures
            output.dot@ == Seq::<char>::empty(),
    {
        Output { dot: String::new() }
    }
}

/// The judgement on a submitted graph text.
#[derive(Debug)]
pub enum Verdict {
    /// The submitted automaton accepts what the pattern describes.
    Correct,
    /// The submitted text cannot be read, or its automaton differs from
    /// that of the pattern.
    Mismatch { reason: String },
    /// The submitted graph has transitions and no state to start from.
    StructuralError { reason: String },
}

/// The name of the state that an automaton without transitions consists
/// of.
pub open spec fn lone_state() -> Seq<char> {
    seq!['0']
}

/// The automaton of a list of transitions: its states are the endpoints of
/// the transitions, in order of first occurrence. Without transitions it
/// has one state, which is then both root and accepting.
pub open spec fn automaton_of(ts: Seq<Transition>) -> Automaton {
    let names = if ts.len() == 0 {
        seq![lone_state()]
    } else {
        state_names(ts)
    };
    Automaton {
        names,
        arcs: Seq::new(
            ts.len(),
            |e: int|
                Arc {
                    src: names.index_of(ts[e].from),
                    dst: names.index_of(ts[e].to),
                    label: ts[e].label,
                },
        ),
    }
}

/// What is said of a graph text that cannot be read.
pub open spec fn unreadable_text(e: ParseError) -> Seq<char> {
    "failed to parse dot: "@ + e.text()
}

/// What is said of a submitted graph without a root.
pub open spec fn rootless_text() -> Seq<char> {
    "No initial state in actual solution"@
}

/// What is said of a pattern whose automaton has no root.
pub open spec fn rootless_reference_text() -> Seq<char> {
    "No initial state in reference solution"@
}

/// What is said of a difference between the submitted automaton, with the
/// state names `names1`, and that of the pattern, with the state names
/// `names2`.
pub open spec fn divergence_text(
    names1: Seq<Seq<char>>,
    names2: Seq<Seq<char>>,
    d: Divergence,
) -> Seq<char> {
    match d {
        Divergence::Acceptance { left, right } => "Not equivalent: of the states \""@
            + names1[left as int] + "\" and \""@ + names2[right as int]
            + "\" one accepts and the other does not"@,
        Divergence::Label { left, right, label } => "Not equivalent: the label \""@ + label@
            + "\" leads on from one of the states \""@ + names1[left as int] + "\" and \""@
            + names2[right as int] + "\" only"@,
    }
}

/// `verdict` is the judgement on a submitted automaton with the
/// transitions `actual` against an automaton with the transitions
/// `reference`.
///
/// Each automaton starts in its first root. A submitted automaton without
/// a root is a structural error. Otherwise the verdict is `Correct` exactly
/// when the two are equivalent; a mismatch names a pair of states that the
/// two reach in lockstep and that tells them apart.
pub open spec fn compared(
    actual: Seq<Transition>,
    reference: Seq<Transition>,
    verdict: Verdict,
) -> bool {
    let a = automaton_of(actual);
    let r = automaton_of(reference);
    match a.first_root() {
        None => verdict matches Verdict::StructuralError { reason } && reason@ == rootless_text(),
        Some(start) => match r.first_root() {
            None => verdict matches Verdict::StructuralError { reason } && reason@
                == rootless_reference_text(),
            Some(reference_start) => if equivalent_from(a, r, start, reference_start) {
                verdict is Correct
            } else {
                verdict matches Verdict::Mismatch { reason } && exists|d: Divergence|
                    diverges(a, r, start, reference_start, d) && reason@ == divergence_text(
                        a.names,
                        r.names,
                        d,
                    )
            },
        },
    }
}

/// `verdict` is the judgement on the graph text `text` as an answer to the
/// pattern `pattern`: a text that cannot be read is a mismatch, with the
/// reason why it cannot be read; one that can be read is judged by its
/// transitions against those of the pattern.
pub open spec fn judged(pattern: Seq<char>, text: Seq<char>, verdict: Verdict) -> bool {
    match decode(text) {
        Err(e) => verdict matches Verdict::Mismatch { reason } && reason@ == unreadable_text(e),
        Ok(decls) => compared(declared_edges(decls), compiled(pattern), verdict),
    }
}

/// The automaton of a pattern starts in its state `0`: that state is its
/// first root.
pub proof fn lemma_reference_root(pattern: Seq<char>)
    ensures
        automaton_of(compiled(pattern)).first_root() == Some(0int),
        automaton_of(compiled(pattern)).names.len() > 0,
{
    let ts = compiled(pattern);
    let a = automaton_of(ts);
    lemma_words_edges(words(pattern));
    if ts.len() > 0 {
        lemma_first_state(ts);
        lemma_state_names_distinct(ts);
        assert forall|e: int| 0 <= e < a.arcs.len() implies (#[trigger] a.arcs[e]).dst != 0 by {
            lemma_state_names_hold(ts, e);
            let j = a.names.index_of(ts[e].to);
            assert(a.names[j] == ts[e].to);
            assert(ts[e].to.len() >= 3);
            assert(a.names[0].len() == 1);
        }
    }
    assert(a.root(0));
    let chosen = choose|s: int|
        0 <= s < a.names.len() && a.root(s) && forall|r: int| 0 <= r < s ==> !a.root(r);
    assert(0 <= chosen < a.names.len() && a.root(chosen) && forall|r: int|
        0 <= r < chosen ==> !a.root(r)) by {
        assert(0 <= 0 < a.names.len() && a.root(0) && forall|r: int| 0 <= r < 0 ==> !a.root(r));
    }
}

/// The states of the automaton with the transitions `edges`: those that
/// the transitions name, or the one state of an automaton without
/// transitions.
pub fn states_of(edges: &[Edge]) -> (nodes: Vec<Node>)
    ensures
        well_formed(nodes@, edges@),
        model(nodes@, edges@) == automaton_of(transitions(edges@)),
        nodes@.len() > 0,
{
    let mut nodes = derive_nodes(edges);
    let ghost ts = transitions(edges@);
    if edges.len() == 0 {
        let mut name = String::new();
        push_char(&mut name, '0');
        proof {
            assert(names_of(nodes@) =~= Seq::<Seq<char>>::empty());
        }
        nodes.push(
            Node {
                name,
                ingoing: Vec::new(),
                outgoing: Vec::new(),
                sources: Vec::new(),
                targets: Vec::new(),
            },
        );
        proof {
            assert(names_of(nodes@) =~= seq![lone_state()]);
            assert(model(nodes@, edges@).arcs =~= automaton_of(ts).arcs);
            assert(lists_outgoing(nodes@[0], 0, model(nodes@, edges@).arcs));
            assert(lists_ingoing(nodes@[0], 0, model(nodes@, edges@).arcs));
        }
    } else {
        proof {
            lemma_first_state(ts);
            assert(model(nodes@, edges@).arcs =~= automaton_of(ts).arcs);
        }
    }
    nodes
}

/// The index of the first state without incoming transitions.
pub fn first_root(nodes: &[Node]) -> (found: Option<usize>)
    ensures
        match found {
            Some(i) => i < nodes@.len() && nodes@[i as int].ingoing@.len() == 0 && forall|j: int|
                0 <= j < i ==> (#[trigger] nodes@[j]).ingoing@.len() > 0,
            None => forall|j: int| 0 <= j < nodes@.len() ==> (#[trigger] nodes@[j]).ingoing@.len()
                > 0,
        },
{
    let mut i: usize = 0;
    while i < nodes.len()
        invariant
            i <= nodes@.len(),
            forall|j: int| 0 <= j < i ==> (#[trigger] nodes@[j]).ingoing@.len() > 0,
        decreases nodes@.len() - i,
    {
        if nodes[i].is_root() {
            return Some(i);
        }
        i += 1;
    }
    None
}

/// The first state without incoming transitions is the first root of the
/// automaton.
proof fn lemma_first_root(nodes: Seq<Node>, edges: Seq<Edge>, found: Option<usize>)
    requires
        well_formed(nodes, edges),
        match found {
            Some(i) => i < nodes.len() && nodes[i as int].ingoing@.len() == 0 && forall|j: int|
                0 <= j < i ==> (#[trigger] nodes[j]).ingoing@.len() > 0,
            None => forall|j: int| 0 <= j < nodes.len() ==> (#[trigger] nodes[j]).ingoing@.len() > 0,
        },
    ensures
        match found {
            Some(i) => model(nodes, edges).first_root() == Some(i as int),
            None => model(nodes, edges).first_root() is None,
        },
{
    let a = model(nodes, edges);
    lemma_model_closed(nodes, edges);
    match found {
        Some(i) => {
            assert(a.root(i as int));
            assert forall|r: int| 0 <= r < i implies !a.root(r) by {
                assert(nodes[r].ingoing@.len() > 0);
            }
            let chosen = choose|s: int|
                0 <= s < a.names.len() && a.root(s) && forall|r: int| 0 <= r < s ==> !a.root(r);
            if chosen < i {
                assert(!a.root(chosen));
            } else if i < chosen {
                assert(!a.root(i as int));
            }
        },
        None => {
            assert forall|s: int| 0 <= s < a.names.len() implies !a.root(s) by {
                assert(nodes[s].ingoing@.len() > 0);
            }
        },
    }
}

/// Says in words where the two automata part ways.
fn describe(d: &Divergence, nodes1: &[Node], nodes2: &[Node]) -> (reason: String)
    requires
        d.left() < nodes1@.len(),
        d.right() < nodes2@.len(),
    ensures
        reason@ == divergence_text(names_of(nodes1@), names_of(nodes2@), *d),
{
    let mut reason = String::new();
    match d {
        Divergence::Acceptance { left, right } => {
            reason.append("Not equivalent: of the states \"");
            reason.append(nodes1[*left].name.as_str());
            reason.append("\" and \"");
            reason.append(nodes2[*right].name.as_str());
            reason.append("\" one accepts and the other does not");
            proof {
                assert(reason@ =~= divergence_text(names_of(nodes1@), names_of(nodes2@), *d));
            }
        },
        Divergence::Label { left, right, label } => {
            reason.append("Not equivalent: the label \"");
            reason.append(label.as_str());
            reason.append("\" leads on from one of the states \"");
            reason.append(nodes1[*left].name.as_str());
            reason.append("\" and \"");
            reason.append(nodes2[*right].name.as_str());
            reason.append("\" only");
            proof {
                assert(reason@ =~= divergence_text(names_of(nodes1@), names_of(nodes2@), *d));
            }
        },
    }
    reason
}

/// Judges a submitted automaton that starts in `actual_start`, its first
/// root, against a reference automaton.
fn compare_from(
    actual_nodes: &[Node],
    actual_edges: &[Edge],
    actual_start: usize,
    reference_edges: &[Edge],
) -> (verdict: Verdict)
    requires
        well_formed(actual_nodes@, actual_edges@),
        model(actual_nodes@, actual_edges@) == automaton_of(transitions(actual_edges@)),
        automaton_of(transitions(actual_edges@)).first_root() == Some(actual_start as int),
        actual_start < actual_nodes@.len(),
    ensures
        compared(transitions(actual_edges@), transitions(reference_edges@), verdict),
{
    let reference_nodes = states_of(reference_edges);
    let reference_found = first_root(reference_nodes.as_slice());
    proof {
        lemma_first_root(reference_nodes@, reference_edges@, reference_found);
    }
    let reference_start: usize = match reference_found {
        Some(start) => start,
        None => {
            return Verdict::StructuralError {
                reason: "No initial state in reference solution".to_string(),
            };
        },
    };
    match first_divergence(
        actual_nodes,
        actual_edges,
        reference_nodes.as_slice(),
        reference_edges,
        actual_start,
        reference_start,
    ) {
        None => Verdict::Correct,
        Some(d) => {
            let reason = describe(&d, actual_nodes, reference_nodes.as_slice());
            Verdict::Mismatch { reason }
        },
    }
}

/// Judges a submitted automaton, given by its transitions, against a
/// reference automaton.
pub fn compare(actual_edges: &[Edge], reference_edges: &[Edge]) -> (verdict: Verdict)
    ensures
        compared(transitions(actual_edges@), transitions(reference_edges@), verdict),
{
    let actual_nodes = states_of(actual_edges);
    let found = first_root(actual_nodes.as_slice());
    proof {
        lemma_first_root(actual_nodes@, actual_edges@, found);
    }
    match found {
        Some(start) => compare_from(actual_nodes.as_slice(), actual_edges, start, reference_edges),
        None => Verdict::StructuralError {
            reason: "No initial state in actual solution".to_string(),
        },
    }
}

/// `result` is what checking the graph text `text` against the pattern
/// `pattern` gives. The text is looked at first:
///
/// - a text that cannot be read is a mismatch, with the reason why it
///   cannot be read, whatever the pattern;
/// - a graph with transitions and without a root is a structural error,
///   whatever the pattern;
/// - otherwise a pattern that cannot be compiled is an error, and one that
///   can be gives the verdict of the comparison.
pub open spec fn checked(
    pattern: Seq<char>,
    text: Seq<char>,
    result: Result<Verdict, PatternError>,
) -> bool {
    match decode(text) {
        Err(e) => result matches Ok(Verdict::Mismatch { reason }) && reason@ == unreadable_text(e),
        Ok(decls) => match automaton_of(declared_edges(decls)).first_root() {
            None => result matches Ok(Verdict::StructuralError { reason }) && reason@
                == rootless_text(),
            Some(_) => match result {
                Ok(verdict) => valid_pattern(pattern) && compared(
                    declared_edges(decls),
                    compiled(pattern),
                    verdict,
                ),
                Err(e) => rejects(pattern, e),
            },
        },
    }
}

/// The exercise of turning a pattern into an automaton: writing the
/// expected answer, and judging a submitted one.
pub struct AutomataEnv;

impl AutomataEnv {
    /// Writes the automaton of a pattern as graph text. Fails on a pattern that
    /// holds a character other than letters, digits and the separator `|`.
    pub fn run(input: &Input) -> (result: Result<Output, PatternError>)
        ensures
            match result {
                Ok(output) => valid_pattern(input.regex@) && output.dot@ == dot_text(
                    compiled(input.regex@),
                ),
                Err(e) => rejects(input.regex@, e),
            },
    {
        match split_and_collect(input.regex.as_str()) {
            Ok(edges) => Ok(Output { dot: edges_to_dot(edges.as_slice()) }),
            Err(e) => Err(e),
        }
    }

    /// Judges a submitted graph text against a pattern. The text is read
    /// first, and the root of its graph is looked for, before the pattern is
    /// compiled: only a text that can be read, with a graph that has a root,
    /// can fail on a pattern that holds a character other than letters, digits
    /// and the separator `|`. Every verdict is one that [`judged`] describes.
    pub fn validate(input: &Input, output: &Output) -> (result: Result<Verdict, PatternError>)
        ensures
            checked(input.regex@, output.dot@, result),
            result matches Ok(verdict) ==> judged(input.regex@, output.dot@, verdict),
    {
        let parsed = match dot_to_petgraph(output.dot.as_str()) {
            Ok(parsed) => parsed,
            Err(e) => {
                let mut reason = String::new();
                reason.append("failed to parse dot: ");
                reason.append(e.message().as_str());
                proof {
                    assert(reason@ =~= unreadable_text(e));
                }
                return Ok(Verdict::Mismatch { reason });
            },
        };
        let actual_edges = parsed.edges();
        let actual_nodes = states_of(actual_edges.as_slice());
        let found = first_root(actual_nodes.as_slice());
        proof {
            lemma_first_root(actual_nodes@, actual_edges@, found);
        }
        let actual_start: usize = match found {
            Some(start) => start,
            None => {
                return Ok(
                    Verdict::StructuralError {
                        reason: "No initial state in actual solution".to_string(),
                    },
                );
            },
        };
        match split_and_collect(input.regex.as_str()) {
            Ok(reference_edges) => Ok(
                compare_from(
                    actual_nodes.as_slice(),
                    actual_edges.as_slice(),
                    actual_start,
                    reference_edges.as_slice(),
                ),
            ),
            Err(e) => Err(e),
        }
    }
}

} // verus!
