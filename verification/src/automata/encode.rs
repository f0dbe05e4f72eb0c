//! The encoder: an automaton written out as directed-graph text.

use crate::automata::model::{
    added_once, keyed_by, lemma_added_once, lemma_keyed_push, transitions, Edge, Transition,
};
use vstd::hash_map::StringHashMap;
use vstd::prelude::*;
use vstd::string::StringExecFns;

verus! {

/// The opening of a graph text: the graph's declaration and the directive
/// that lays it out from left to right.
pub open spec fn header() -> Seq<char> {
    " digraph Automaton {\n    rankdir=LR;"@
}

/// The statement for one transition: both names quoted, an arrow between
/// them, and the label as an attribute.
pub open spec fn statement(t: Transition) -> Seq<char> {
    "\""@ + t.from + "\"->\""@ + t.to + "\" [label=\""@ + t.label + "\"];"@
}

/// The statements for a list of transitions, in the same order.
pub open spec fn statements(ts: Seq<Transition>) -> Seq<char>
    decreases ts.len(),
{
    if ts.len() == 0 {
        Seq::empty()
    } else {
        statements(ts.drop_last()) + statement(ts.last())
    }
}

/// Some transition starts at the state `name`.
pub open spec fn is_source(ts: Seq<Transition>, name: Seq<char>) -> bool {
    exists|e: int| 0 <= e < ts.len() && (#[trigger] ts[e]).from == name
}

/// The states that end one of the first `k` transitions and start none at
/// all, each once, in order of first occurrence.
pub open spec fn accepting_targets(ts: Seq<Transition>, k: nat) -> Seq<Seq<char>>
    decreases k,
{
    if k == 0 {
        Seq::empty()
    } else {
        let before = accepting_targets(ts, (k - 1) as nat);
        if is_source(ts, ts[k - 1].to) {
            before
        } else {
            added_once(before, ts[k - 1].to)
        }
    }
}

/// The statement that marks the state `name` as accepting.
pub open spec fn annotation(name: Seq<char>) -> Seq<char> {
    "\""@ + name + "\" [accepting=true];"@
}

/// The annotations for a list of names, in the same order.
pub open spec fn annotations(names: Seq<Seq<char>>) -> Seq<char>
    decreases names.len(),
{
    if names.len() == 0 {
        Seq::empty()
    } else {
        annotations(names.drop_last()) + annotation(names.last())
    }
}

/// The graph text of an automaton: the header, one statement for each
/// transition in insertion order, one annotation for each state that ends
/// a transition and starts none, and the closing brace.
pub open spec fn dot_text(ts: Seq<Transition>) -> Seq<char> {
    header() + statements(ts) + annotations(accepting_targets(ts, ts.len())) + "}"@
}

impl Edge {
    /// The statement for this transition.
    pub fn to_string(&self) -> (text: String)
        ensures
            text@ == statement(self@),
    {
        let mut text = String::new();
        text.append("\"");
        text.append(self.from.as_str());
        text.append("\"->\"");
        text.append(self.to.as_str());
        text.append("\" [label=\"");
        text.append(self.label.as_str());
        text.append("\"];");
        proof {
            assert(text@ =~= statement(self@));
        }
        text
    }
}

/// Writes the automaton with the transitions `edges` as graph text.
pub fn edges_to_dot(edges: &[Edge]) -> (dot: String)
    ensures
        dot@ == dot_text(transitions(edges@)),
{
    let ghost ts = transitions(edges@);
    let mut dot = String::new();
    dot.append(" digraph Automaton {\n    rankdir=LR;");
    let mut sources: StringHashMap<bool> = StringHashMap::new();
    let mut e: usize = 0;
    proof {
        assert(dot@ =~= header() + statements(ts.take(0)));
    }
    while e < edges.len()
        invariant
            e <= edges@.len(),
            ts == transitions(edges@),
            dot@ == header() + statements(ts.take(e as int)),
            forall|name: Seq<char>| #[trigger]
                sources@.contains_key(name) <==> is_source(ts.take(e as int), name),
        decreases edges@.len() - e,
    {
        let ghost before = dot@;
        let text = edges[e].to_string();
        dot.append(text.as_str());
        sources.insert(edges[e].from.clone(), true);
        proof {
            let prefix = ts.take(e + 1);
            assert(prefix.drop_last() =~= ts.take(e as int));
            assert(prefix.last() == edges@[e as int]@);
            assert(dot@ =~= header() + statements(prefix));
            assert forall|name: Seq<char>| #[trigger]
                sources@.contains_key(name) <==> is_source(prefix, name) by {
                if is_source(ts.take(e as int), name) {
                    let d = choose|d: int|
                        0 <= d < ts.take(e as int).len() && (#[trigger] ts.take(e as int)[d]).from
                            == name;
                    assert(prefix[d].from == name);
                }
                if name == edges@[e as int].from@ {
                    assert(prefix[e as int].from == name);
                }
                if is_source(prefix, name) && name != edges@[e as int].from@ {
                    let d = choose|d: int| 0 <= d < prefix.len() && (#[trigger] prefix[d]).from == name;
                    assert(ts.take(e as int)[d].from == name);
                }
            }
        }
        e += 1;
    }
    proof {
        assert(ts.take(e as int) =~= ts);
    }
    let mut marked: StringHashMap<bool> = StringHashMap::new();
    let ghost mut names: Seq<Seq<char>> = Seq::empty();
    let mut k: usize = 0;
    proof {
        assert(dot@ =~= header() + statements(ts) + annotations(names));
    }
    while k < edges.len()
        invariant
            k <= edges@.len(),
            ts == transitions(edges@),
            names == accepting_targets(ts, k as nat),
            names.no_duplicates(),
            dot@ == header() + statements(ts) + annotations(names),
            forall|name: Seq<char>| #[trigger] sources@.contains_key(name) <==> is_source(ts, name),
            keyed_by(marked@, names),
        decreases edges@.len() - k,
    {
        let ghost before = names;
        proof {
            lemma_added_once(before, edges@[k as int].to@);
            assert(ts[k as int].to == edges@[k as int].to@);
        }
        let name = &edges[k].to;
        if !sources.contains_key(name.as_str()) && !marked.contains_key(name.as_str()) {
            dot.append("\"");
            dot.append(name.as_str());
            dot.append("\" [accepting=true];");
            proof {
                lemma_keyed_push(marked@, before, name@, true);
            }
            marked.insert(name.clone(), true);
            proof {
                names = before.push(name@);
                assert(names.drop_last() =~= before);
                assert(dot@ =~= header() + statements(ts) + annotations(names));
            }
        }
        k += 1;
    }
    dot.append("}");
    dot
}

} // verus!
