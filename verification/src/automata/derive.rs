//! Building the state list of an automaton from its transition list.

use crate::automata::model::{
    added_once, indexes, lemma_added_once, lemma_index_of_own, lemma_indexes_found,
    lemma_indexes_push, lists_ingoing, lists_outgoing, model,
    names_of, transitions, well_formed, Edge, Node, Transition,
};
use vstd::hash_map::StringHashMap;
use vstd::prelude::*;

verus! {

/// The names that occur as an endpoint of a transition, each once, in the
/// order in which they first occur (the start of a transition before its
/// end).
pub open spec fn state_names(ts: Seq<Transition>) -> Seq<Seq<char>>
    decreases ts.len(),
{
    if ts.len() == 0 {
        Seq::empty()
    } else {
        added_once(added_once(state_names(ts.drop_last()), ts.last().from), ts.last().to)
    }
}

/// A state that no transition touches yet.
spec fn untouched(node: Node) -> bool {
    &&& node.ingoing@.len() == 0
    &&& node.outgoing@.len() == 0
    &&& node.sources@.len() == 0
    &&& node.targets@.len() == 0
}

/// The names of the states are free of duplicates.
pub proof fn lemma_state_names_distinct(ts: Seq<Transition>)
    ensures
        state_names(ts).no_duplicates(),
    decreases ts.len(),
{
    if ts.len() > 0 {
        lemma_state_names_distinct(ts.drop_last());
        let before = state_names(ts.drop_last());
        lemma_added_once(before, ts.last().from);
        lemma_added_once(added_once(before, ts.last().from), ts.last().to);
    }
}

/// The first name of the states of a list of transitions is the start of
/// the first transition.
pub proof fn lemma_first_state(ts: Seq<Transition>)
    requires
        ts.len() > 0,
    ensures
        state_names(ts).len() > 0,
        state_names(ts)[0] == ts[0].from,
    decreases ts.len(),
{
    let before = state_names(ts.drop_last());
    lemma_state_names_distinct(ts.drop_last());
    lemma_added_once(before, ts.last().from);
    lemma_added_once(added_once(before, ts.last().from), ts.last().to);
    if ts.len() > 1 {
        lemma_first_state(ts.drop_last());
        assert(ts.drop_last()[0] == ts[0]);
    } else {
        assert(before.len() == 0);
        assert(added_once(before, ts.last().from)[0] == ts[0].from);
    }
}

/// Every endpoint of a transition is among the names of the states.
pub proof fn lemma_state_names_hold(ts: Seq<Transition>, e: int)
    requires
        0 <= e < ts.len(),
    ensures
        state_names(ts).contains(ts[e].from),
        state_names(ts).contains(ts[e].to),
    decreases ts.len(),
{
    let before = state_names(ts.drop_last());
    lemma_state_names_distinct(ts.drop_last());
    lemma_added_once(before, ts.last().from);
    lemma_added_once(added_once(before, ts.last().from), ts.last().to);
    if e < ts.len() - 1 {
        lemma_state_names_hold(ts.drop_last(), e);
        assert(ts.drop_last()[e] == ts[e]);
    }
}

/// The index of the state called `name`, which is added at the end where
/// there is none of that name yet.
fn get_or_create(name: &String, nodes: &mut Vec<Node>, index_of: &mut StringHashMap<usize>) -> (idx:
    usize)
    requires
        names_of(old(nodes)@).no_duplicates(),
        indexes(old(index_of)@, names_of(old(nodes)@)),
    ensures
        names_of(final(nodes)@) == added_once(names_of(old(nodes)@), name@),
        indexes(final(index_of)@, names_of(final(nodes)@)),
        idx < final(nodes)@.len(),
        final(nodes)@[idx as int].name@ == name@,
        old(nodes)@.len() <= final(nodes)@.len(),
        forall|i: int| 0 <= i < old(nodes)@.len() ==> final(nodes)@[i] == old(nodes)@[i],
        forall|i: int| old(nodes)@.len() <= i < final(nodes)@.len() ==> untouched(final(nodes)@[i]),
{
    let ghost names = names_of(nodes@);
    match index_of.get(name.as_str()) {
        Some(found) => {
            let idx: usize = *found;
            proof {
                lemma_indexes_found(index_of@, names, name@);
            }
            idx
        },
        None => {
            let idx: usize = nodes.len();
            proof {
                lemma_indexes_push(index_of@, names, name@, idx);
            }
            nodes.push(
                Node {
                    name: name.clone(),
                    ingoing: Vec::new(),
                    outgoing: Vec::new(),
                    sources: Vec::new(),
                    targets: Vec::new(),
                },
            );
            index_of.insert(name.clone(), idx);
            proof {
                assert(names_of(nodes@) =~= names.push(name@));
            }
            idx
        },
    }
}

/// Resolving endpoints against a longer list of distinct names finds each
/// old name where it was.
proof fn lemma_index_of_kept(names: Seq<Seq<char>>, grown: Seq<Seq<char>>, name: Seq<char>)
    requires
        grown.no_duplicates(),
        names.len() <= grown.len(),
        forall|i: int| 0 <= i < names.len() ==> grown[i] == names[i],
        names.contains(name),
    ensures
        grown.index_of(name) == names.index_of(name),
        0 <= names.index_of(name) < names.len(),
{
    let i = names.index_of(name);
    assert(grown[i] == name);
    lemma_index_of_own(grown, i);
}

/// One step of the construction: the states fit the first `e` transitions,
/// the states of the two endpoints of transition `e` are added where they
/// were missing, and `e` is entered in the lists of those two states. Then
/// the states fit the first `e + 1` transitions.
proof fn lemma_enter_transition(
    before: Seq<Node>,
    added: Seq<Node>,
    after: Seq<Node>,
    edges: Seq<Edge>,
    e: int,
    from_idx: usize,
    to_idx: usize,
)
    requires
        0 <= e < edges.len(),
        e <= usize::MAX,
        well_formed(before, edges.take(e)),
        names_of(added).no_duplicates(),
        before.len() <= added.len(),
        forall|i: int| 0 <= i < before.len() ==> added[i] == before[i],
        forall|i: int| before.len() <= i < added.len() ==> untouched(added[i]),
        from_idx < added.len(),
        to_idx < added.len(),
        added[from_idx as int].name@ == edges[e].from@,
        added[to_idx as int].name@ == edges[e].to@,
        after.len() == added.len(),
        forall|i: int|
            0 <= i < added.len() ==> {
                &&& (#[trigger] after[i]).name@ == added[i].name@
                &&& after[i].outgoing@ == if i == from_idx {
                    added[i].outgoing@.push(e as usize)
                } else {
                    added[i].outgoing@
                }
                &&& after[i].targets@ == if i == from_idx {
                    added[i].targets@.push(to_idx)
                } else {
                    added[i].targets@
                }
                &&& after[i].ingoing@ == if i == to_idx {
                    added[i].ingoing@.push(e as usize)
                } else {
                    added[i].ingoing@
                }
                &&& after[i].sources@ == if i == to_idx {
                    added[i].sources@.push(from_idx)
                } else {
                    added[i].sources@
                }
            },
    ensures
        well_formed(after, edges.take(e + 1)),
{
    let old_edges = edges.take(e);
    let new_edges = edges.take(e + 1);
    let old_names = names_of(before);
    let names = names_of(after);
    let old_arcs = model(before, old_edges).arcs;
    let arcs = model(after, new_edges).arcs;
    assert(names =~= names_of(added));
    assert(names[from_idx as int] == edges[e].from@);
    assert(names[to_idx as int] == edges[e].to@);
    lemma_index_of_own(names, from_idx as int);
    lemma_index_of_own(names, to_idx as int);
    assert(arcs[e].src == from_idx && arcs[e].dst == to_idx);
    assert forall|d: int| 0 <= d < e implies #[trigger] arcs[d] == old_arcs[d] && 0
        <= old_arcs[d].src < before.len() && 0 <= old_arcs[d].dst < before.len() by {
        assert(old_edges[d] == edges[d]);
        assert(new_edges[d] == edges[d]);
        lemma_index_of_kept(old_names, names, edges[d].from@);
        lemma_index_of_kept(old_names, names, edges[d].to@);
    }
    assert forall|d: int| 0 <= d < new_edges.len() implies names.contains(
        (#[trigger] new_edges[d]).from@,
    ) && names.contains(new_edges[d].to@) by {
        if d < e {
            assert(old_edges[d] == edges[d]);
            let i = old_names.index_of(edges[d].from@);
            let j = old_names.index_of(edges[d].to@);
            assert(names[i] == edges[d].from@);
            assert(names[j] == edges[d].to@);
        }
    }
    assert forall|i: int| 0 <= i < after.len() implies lists_outgoing(
        #[trigger] after[i],
        i,
        arcs,
    ) && lists_ingoing(after[i], i, arcs) by {
        let node = after[i];
        let base = added[i];
        if i < before.len() {
            assert(lists_outgoing(before[i], i, old_arcs));
            assert(lists_ingoing(before[i], i, old_arcs));
        }
        assert forall|k: int| 0 <= k < base.outgoing@.len() implies (#[trigger] base.outgoing@[k])
            < e && old_arcs[base.outgoing@[k] as int].src == i && old_arcs[base.outgoing@[k] as int].dst
            == base.targets@[k] by {}
        assert forall|k: int| 0 <= k < base.ingoing@.len() implies (#[trigger] base.ingoing@[k])
            < e && old_arcs[base.ingoing@[k] as int].dst == i && old_arcs[base.ingoing@[k] as int].src
            == base.sources@[k] by {}
        assert forall|d: int| 0 <= d < arcs.len() && (#[trigger] arcs[d]).src == i implies exists|
            k: int,
        |
            0 <= k < node.outgoing@.len() && node.outgoing@[k] == d by {
            if d < e {
                assert(old_arcs[d].src == i);
                let k = choose|k: int| 0 <= k < base.outgoing@.len() && base.outgoing@[k] == d;
                assert(node.outgoing@[k] == d);
            } else {
                assert(node.outgoing@[base.outgoing@.len() as int] == d);
            }
        }
        assert forall|d: int| 0 <= d < arcs.len() && (#[trigger] arcs[d]).dst == i implies exists|
            k: int,
        |
            0 <= k < node.ingoing@.len() && node.ingoing@[k] == d by {
            if d < e {
                assert(old_arcs[d].dst == i);
                let k = choose|k: int| 0 <= k < base.ingoing@.len() && base.ingoing@[k] == d;
                assert(node.ingoing@[k] == d);
            } else {
                assert(node.ingoing@[base.ingoing@.len() as int] == d);
            }
        }
    }
}

/// Derives the states of an automaton from its transitions: one state for
/// each name that occurs as an endpoint, in order of first occurrence, each
/// with the transitions that enter and leave it.
pub fn derive_nodes(edges: &[Edge]) -> (nodes: Vec<Node>)
    ensures
        well_formed(nodes@, edges@),
        names_of(nodes@) == state_names(transitions(edges@)),
{
    let mut nodes: Vec<Node> = Vec::new();
    let mut index_of: StringHashMap<usize> = StringHashMap::new();
    let mut e: usize = 0;
    proof {
        assert(names_of(nodes@) =~= state_names(transitions(edges@.take(0))));
    }
    while e < edges.len()
        invariant
            e <= edges@.len(),
            well_formed(nodes@, edges@.take(e as int)),
            names_of(nodes@) == state_names(transitions(edges@.take(e as int))),
            indexes(index_of@, names_of(nodes@)),
        decreases edges@.len() - e,
    {
        let ghost before = nodes@;
        let from_idx = get_or_create(&edges[e].from, &mut nodes, &mut index_of);
        proof {
            lemma_added_once(names_of(before), edges@[e as int].from@);
        }
        let ghost middle = nodes@;
        let to_idx = get_or_create(&edges[e].to, &mut nodes, &mut index_of);
        proof {
            lemma_added_once(names_of(middle), edges@[e as int].to@);
        }
        let ghost added = nodes@;
        nodes[from_idx].outgoing.push(e);
        nodes[from_idx].targets.push(to_idx);
        nodes[to_idx].ingoing.push(e);
        nodes[to_idx].sources.push(from_idx);
        proof {
            let ts = transitions(edges@.take(e + 1));
            assert(ts.drop_last() =~= transitions(edges@.take(e as int)));
            assert(ts.last() == edges@[e as int]@);
            assert(names_of(nodes@) =~= names_of(added));
            lemma_enter_transition(
                before,
                added,
                nodes@,
                edges@,
                e as int,
                from_idx,
                to_idx,
            );
        }
        e += 1;
    }
    proof {
        assert(edges@.take(e as int) =~= edges@);
    }
    nodes
}

} // verus!
