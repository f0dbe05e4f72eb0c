//! The equivalence check: a synchronised traversal of two automata that
//! leaves dead states out of account.

use crate::automata::live::{compute_live, lemma_mark, unmarked};
use crate::automata::model::{
    added_once, keyed_by, lemma_added_once, lemma_keyed_push, lemma_model_closed, lists_outgoing,
    model, transitions, well_formed, Automaton, Edge, Node, Transition,
};
use crate::text::texts;
use std::collections::VecDeque;
use vstd::hash_map::StringHashMap;
use vstd::prelude::*;

verus! {

/// `base`, followed by the labels of `ts` that are not in it, each once,
/// in order of first occurrence.
pub open spec fn labels_added(base: Seq<Seq<char>>, ts: Seq<Transition>) -> Seq<Seq<char>>
    decreases ts.len(),
{
    if ts.len() == 0 {
        base
    } else {
        added_once(labels_added(base, ts.drop_last()), ts.last().label)
    }
}

/// The distinct labels of `ts`, in order of first occurrence.
pub open spec fn distinct_labels(ts: Seq<Transition>) -> Seq<Seq<char>> {
    labels_added(Seq::empty(), ts)
}

/// Adding labels keeps a list free of duplicates, keeps what was there,
/// and makes every label of `ts` present.
pub proof fn lemma_labels_added(base: Seq<Seq<char>>, ts: Seq<Transition>)
    requires
        base.no_duplicates(),
    ensures
        labels_added(base, ts).no_duplicates(),
        forall|l: Seq<char>| base.contains(l) ==> labels_added(base, ts).contains(l),
        forall|e: int| 0 <= e < ts.len() ==> labels_added(base, ts).contains((#[trigger] ts[e]).label),
    decreases ts.len(),
{
    if ts.len() > 0 {
        let before = labels_added(base, ts.drop_last());
        lemma_labels_added(base, ts.drop_last());
        lemma_added_once(before, ts.last().label);
        assert forall|e: int| 0 <= e < ts.len() implies labels_added(base, ts).contains(
            (#[trigger] ts[e]).label,
        ) by {
            if e < ts.len() - 1 {
                assert(ts.drop_last()[e] == ts[e]);
            }
        }
    }
}

/// The transition that is first to leave `s` with `label` is the one that
/// [`Automaton::first_arc`] names.
pub proof fn lemma_first_arc(a: Automaton, e: int, s: int, label: Seq<char>)
    requires
        a.is_first_arc(e, s, label),
    ensures
        a.first_arc(s, label) == Some(e),
{
    let chosen = choose|d: int| a.is_first_arc(d, s, label);
    assert(a.is_first_arc(chosen, s, label));
    if chosen < e {
        assert(!a.arc_matches(chosen, s, label));
    } else if e < chosen {
        assert(!a.arc_matches(e, s, label));
    }
}

/// Where a transition leaves `s` with `label`, there is a first one.
pub proof fn lemma_least_match(a: Automaton, e: int, s: int, label: Seq<char>)
    requires
        a.arc_matches(e, s, label),
    ensures
        a.first_arc(s, label) is Some,
    decreases e,
{
    if exists|d: int| 0 <= d < e && a.arc_matches(d, s, label) {
        let d = choose|d: int| 0 <= d < e && a.arc_matches(d, s, label);
        lemma_least_match(a, d, s, label);
    } else {
        assert(a.is_first_arc(e, s, label));
    }
}

/// Where no transition leaves `s` with `label`, there is no first one.
pub proof fn lemma_no_first_arc(a: Automaton, s: int, label: Seq<char>)
    requires
        forall|e: int| !a.arc_matches(e, s, label),
    ensures
        a.first_arc(s, label) is None,
{
    assert forall|e: int| !a.is_first_arc(e, s, label) by {
        assert(!a.arc_matches(e, s, label));
    }
}

/// Looks up where `label` leads from state `node_idx`. Of several
/// transitions with that start and label, the first in insertion order
/// decides.
pub fn transition(nodes: &[Node], edges: &[Edge], node_idx: usize, label: &String) -> (target:
    Option<usize>)
    requires
        well_formed(nodes@, edges@),
        node_idx < nodes@.len(),
    ensures
        match target {
            Some(t) => t < nodes@.len() && model(nodes@, edges@).target(node_idx as int, label@)
                == Some(t as int),
            None => model(nodes@, edges@).target(node_idx as int, label@) is None,
        },
{
    let ghost a = model(nodes@, edges@);
    let ghost s = node_idx as int;
    let node = &nodes[node_idx];
    proof {
        lemma_model_closed(nodes@, edges@);
        assert(lists_outgoing(*node, s, a.arcs));
    }
    let mut k: usize = 0;
    while k < node.outgoing.len()
        invariant
            k <= node.outgoing@.len(),
            s == node_idx as int,
            a == model(nodes@, edges@),
            a.closed(),
            a.names.len() == nodes@.len(),
            a.arcs.len() == edges@.len(),
            lists_outgoing(*node, s, a.arcs),
            forall|j: int|
                0 <= j < k ==> a.arcs[(#[trigger] node.outgoing@[j]) as int].label != label@,
        decreases node.outgoing@.len() - k,
    {
        let e: usize = node.outgoing[k];
        if edges[e].label == *label {
            proof {
                assert(a.arc_matches(e as int, s, label@));
                assert forall|d: int| 0 <= d < e implies !a.arc_matches(d, s, label@) by {
                    if a.arc_matches(d, s, label@) {
                        let j = choose|j: int|
                            0 <= j < node.outgoing@.len() && node.outgoing@[j] == d;
                        assert(j < k);
                    }
                }
                lemma_first_arc(a, e as int, s, label@);
                assert(a.arcs[e as int].dst == node.targets@[k as int]);
            }
            return Some(node.targets[k]);
        }
        k += 1;
    }
    proof {
        assert forall|e: int| !a.arc_matches(e, s, label@) by {
            if a.arc_matches(e, s, label@) {
                let j = choose|j: int| 0 <= j < node.outgoing@.len() && node.outgoing@[j] == e;
                assert(a.arcs[node.outgoing@[j] as int].label != label@);
            }
        }
        lemma_no_first_arc(a, s, label@);
    }
    None
}

/// Appends to `labels` the labels of `edges` that it does not hold yet.
fn add_labels(edges: &[Edge], labels: &mut Vec<String>, seen: &mut StringHashMap<bool>)
    requires
        texts(old(labels)@).no_duplicates(),
        keyed_by(old(seen)@, texts(old(labels)@)),
    ensures
        texts(final(labels)@) == labels_added(texts(old(labels)@), transitions(edges@)),
        texts(final(labels)@).no_duplicates(),
        keyed_by(final(seen)@, texts(final(labels)@)),
{
    let ghost base = texts(labels@);
    let mut e: usize = 0;
    while e < edges.len()
        invariant
            e <= edges@.len(),
            texts(labels@) == labels_added(base, transitions(edges@.take(e as int))),
            texts(labels@).no_duplicates(),
            keyed_by(seen@, texts(labels@)),
        decreases edges@.len() - e,
    {
        let ghost before = texts(labels@);
        proof {
            let ts = transitions(edges@.take(e + 1));
            assert(ts.drop_last() =~= transitions(edges@.take(e as int)));
            assert(ts.last() == edges@[e as int]@);
            lemma_added_once(before, edges@[e as int].label@);
        }
        if !seen.contains_key(edges[e].label.as_str()) {
            proof {
                lemma_keyed_push(seen@, before, edges@[e as int].label@, true);
            }
            labels.push(edges[e].label.clone());
            seen.insert(edges[e].label.clone(), true);
            proof {
                assert(texts(labels@) =~= before.push(edges@[e as int].label@));
            }
        }
        e += 1;
    }
    proof {
        assert(edges@.take(e as int) =~= edges@);
    }
}

/// The distinct labels of `edges`, in order of first occurrence.
pub fn alphabet(edges: &[Edge]) -> (labels: Vec<String>)
    ensures
        texts(labels@) == distinct_labels(transitions(edges@)),
{
    let mut labels: Vec<String> = Vec::new();
    let mut seen: StringHashMap<bool> = StringHashMap::new();
    proof {
        assert(texts(labels@) =~= Seq::<Seq<char>>::empty());
    }
    add_labels(edges, &mut labels, &mut seen);
    labels
}

/// State `s` accepts and is live.
pub open spec fn accepts_here(a: Automaton, s: int) -> bool {
    a.accepting(s) && a.live(s)
}

/// From exactly one of `p` and `q`, `label` leads to a live state.
pub open spec fn label_splits(a1: Automaton, a2: Automaton, p: int, q: int, label: Seq<char>) -> bool {
    (a1.live_target(p, label) is Some) != (a2.live_target(q, label) is Some)
}

/// The pair of states `(p, q)` tells the two automata apart: one accepts
/// where the other does not, or some label can be followed from one only.
pub open spec fn conflict(a1: Automaton, a2: Automaton, p: int, q: int) -> bool {
    accepts_here(a1, p) != accepts_here(a2, q) || exists|label: Seq<char>|
        label_splits(a1, a2, p, q, label)
}

/// Some label leads from `p` to `p_next` in the first automaton and from `q`
/// to `q_next` in the second, both live.
pub open spec fn pair_step(a1: Automaton, a2: Automaton, p: int, q: int, p_next: int, q_next: int) -> bool {
    exists|label: Seq<char>|
        a1.live_target(p, label) == Some(p_next) && a2.live_target(q, label) == Some(q_next)
}

/// The pair `(p, q)` is reached from `(s1, s2)` by `k` steps in lockstep.
pub open spec fn pair_reached(
    a1: Automaton,
    a2: Automaton,
    s1: int,
    s2: int,
    p: int,
    q: int,
    k: nat,
) -> bool
    decreases k,
{
    if k == 0 {
        p == s1 && q == s2
    } else {
        exists|p0: int, q0: int|
            pair_reached(a1, a2, s1, s2, p0, q0, (k - 1) as nat) && #[trigger] pair_step(
                a1,
                a2,
                p0,
                q0,
                p,
                q,
            )
    }
}

/// The pair `(p, q)` is reached from `(s1, s2)` by steps in lockstep.
pub open spec fn pair_reachable(a1: Automaton, a2: Automaton, s1: int, s2: int, p: int, q: int) -> bool {
    exists|k: nat| pair_reached(a1, a2, s1, s2, p, q, k)
}

/// The two automata, started in `s1` and `s2`, cannot be told apart: no
/// pair of states that they reach in lockstep is a conflict.
pub open spec fn equivalent_from(a1: Automaton, a2: Automaton, s1: int, s2: int) -> bool {
    forall|p: int, q: int| #[trigger]
        pair_reachable(a1, a2, s1, s2, p, q) ==> !conflict(a1, a2, p, q)
}

/// Where two automata part ways: the pair of states, and what differs
/// there.
#[derive(Debug)]
pub enum Divergence {
    /// One of the two states accepts and the other does not.
    Acceptance { left: usize, right: usize },
    /// `label` can be followed from one of the two states only.
    Label { left: usize, right: usize, label: String },
}

impl Divergence {
    /// The state of the first automaton at which the two part ways.
    pub open spec fn left(self) -> usize {
        match self {
            Divergence::Acceptance { left, .. } => left,
            Divergence::Label { left, .. } => left,
        }
    }

    /// The state of the second automaton at which the two part ways.
    pub open spec fn right(self) -> usize {
        match self {
            Divergence::Acceptance { right, .. } => right,
            Divergence::Label { right, .. } => right,
        }
    }
}

/// `d` names a pair of states that is reached from `(s1, s2)`, and a
/// difference that holds there.
pub open spec fn diverges(a1: Automaton, a2: Automaton, s1: int, s2: int, d: Divergence) -> bool {
    match d {
        Divergence::Acceptance { left, right } => pair_reachable(
            a1,
            a2,
            s1,
            s2,
            left as int,
            right as int,
        ) && accepts_here(a1, left as int) != accepts_here(a2, right as int),
        Divergence::Label { left, right, label } => pair_reachable(
            a1,
            a2,
            s1,
            s2,
            left as int,
            right as int,
        ) && label_splits(a1, a2, left as int, right as int, label@),
    }
}

/// One more step in lockstep reaches one pair further.
pub proof fn lemma_pair_reached_next(
    a1: Automaton,
    a2: Automaton,
    s1: int,
    s2: int,
    p0: int,
    q0: int,
    p: int,
    q: int,
    k: nat,
)
    requires
        pair_reached(a1, a2, s1, s2, p0, q0, k),
        pair_step(a1, a2, p0, q0, p, q),
    ensures
        pair_reached(a1, a2, s1, s2, p, q, k + 1),
        pair_reachable(a1, a2, s1, s2, p, q),
{
    assert(((k + 1) - 1) as nat == k);
    assert(pair_reached(a1, a2, s1, s2, p0, q0, ((k + 1) - 1) as nat));
    assert(pair_reached(a1, a2, s1, s2, p, q, (k + 1) as nat));
}

/// How many entries of the rows are still `false`.
spec fn unmarked_rows(rows: Seq<Vec<bool>>) -> nat
    decreases rows.len(),
{
    if rows.len() == 0 {
        0
    } else {
        unmarked_rows(rows.drop_last()) + unmarked(rows.last()@)
    }
}

/// Rows with the same contents have the same count.
proof fn lemma_same_rows(rows: Seq<Vec<bool>>, other: Seq<Vec<bool>>)
    requires
        other.len() == rows.len(),
        forall|i: int| 0 <= i < rows.len() ==> other[i]@ == rows[i]@,
    ensures
        unmarked_rows(other) == unmarked_rows(rows),
    decreases rows.len(),
{
    if rows.len() > 0 {
        lemma_same_rows(rows.drop_last(), other.drop_last());
    }
}

/// Marking one unmarked entry of one row leaves one fewer.
proof fn lemma_mark_row(rows: Seq<Vec<bool>>, marked: Seq<Vec<bool>>, p: int, q: int)
    requires
        0 <= p < rows.len(),
        0 <= q < rows[p]@.len(),
        !rows[p]@[q],
        marked.len() == rows.len(),
        marked[p]@ == rows[p]@.update(q, true),
        forall|i: int| 0 <= i < rows.len() && i != p ==> marked[i]@ == rows[i]@,
    ensures
        unmarked_rows(marked) + 1 == unmarked_rows(rows),
    decreases rows.len(),
{
    if p == rows.len() - 1 {
        lemma_mark(rows[p]@, q);
        lemma_same_rows(rows.drop_last(), marked.drop_last());
    } else {
        lemma_mark_row(rows.drop_last(), marked.drop_last(), p, q);
    }
}

/// The pair `(p, q)` has been marked.
spec fn seen_pair(visited: Seq<Vec<bool>>, p: int, q: int) -> bool {
    0 <= p < visited.len() && 0 <= q < visited[p]@.len() && visited[p]@[q]
}

/// The pair `(p, q)` is no conflict, and every pair one step on is marked.
spec fn settled(a1: Automaton, a2: Automaton, visited: Seq<Vec<bool>>, p: int, q: int) -> bool {
    &&& !conflict(a1, a2, p, q)
    &&& forall|p_next: int, q_next: int| #[trigger]
        pair_step(a1, a2, p, q, p_next, q_next) ==> seen_pair(visited, p_next, q_next)
}

/// The pair `(p, q)` waits in the queue.
spec fn queued(queue: Seq<(usize, usize)>, p: int, q: int) -> bool {
    exists|j: int| 0 <= j < queue.len() && (#[trigger] queue[j]).0 == p && queue[j].1 == q
}

/// What the traversal keeps true: the start is marked; every marked pair is
/// reached from the start; every queued pair is marked; every marked pair
/// is settled, queued, or the one in hand.
#[verifier::opaque]
spec fn search_inv(
    a1: Automaton,
    a2: Automaton,
    s1: int,
    s2: int,
    visited: Seq<Vec<bool>>,
    queue: Seq<(usize, usize)>,
    done: Set<(int, int)>,
    current: Option<(int, int)>,
) -> bool {
    &&& seen_pair(visited, s1, s2)
    &&& forall|p: int, q: int| #[trigger]
        seen_pair(visited, p, q) ==> pair_reachable(a1, a2, s1, s2, p, q)
    &&& forall|j: int|
        0 <= j < queue.len() ==> seen_pair(visited, (#[trigger] queue[j]).0 as int, queue[j].1 as int)
    &&& forall|p: int, q: int| #[trigger]
        seen_pair(visited, p, q) ==> done.contains((p, q)) || queued(queue, p, q) || current
            == Some((p, q))
    &&& forall|p: int, q: int| #[trigger]
        done.contains((p, q)) ==> settled(a1, a2, visited, p, q)
}

/// `marked` is `visited` with the entry `(x, y)` set.
spec fn marks(visited: Seq<Vec<bool>>, marked: Seq<Vec<bool>>, x: int, y: int) -> bool {
    &&& 0 <= x < visited.len()
    &&& 0 <= y < visited[x]@.len()
    &&& marked.len() == visited.len()
    &&& marked[x]@ == visited[x]@.update(y, true)
    &&& forall|i: int| 0 <= i < visited.len() && i != x ==> marked[i]@ == visited[i]@
}

/// After marking `(x, y)`, the marked pairs are those that were marked,
/// and `(x, y)`.
proof fn lemma_marks(visited: Seq<Vec<bool>>, marked: Seq<Vec<bool>>, x: int, y: int)
    requires
        marks(visited, marked, x, y),
    ensures
        forall|p: int, q: int| #[trigger]
            seen_pair(marked, p, q) <==> seen_pair(visited, p, q) || (p == x && q == y),
{
    assert forall|p: int, q: int| #[trigger]
        seen_pair(marked, p, q) <==> seen_pair(visited, p, q) || (p == x && q == y) by {
        if 0 <= p < visited.len() && p != x {
            assert(marked[p]@ == visited[p]@);
        }
    }
}

/// The traversal starts well: with the start marked and queued, and
/// nothing else marked.
proof fn lemma_inv_start(
    a1: Automaton,
    a2: Automaton,
    s1: int,
    s2: int,
    blank: Seq<Vec<bool>>,
    visited: Seq<Vec<bool>>,
    queue: Seq<(usize, usize)>,
)
    requires
        forall|p: int, q: int| !seen_pair(blank, p, q),
        marks(blank, visited, s1, s2),
        queue.len() == 1,
        queue[0].0 == s1,
        queue[0].1 == s2,
    ensures
        search_inv(a1, a2, s1, s2, visited, queue, Set::empty(), None),
{
    reveal(search_inv);
    lemma_marks(blank, visited, s1, s2);
    assert(pair_reached(a1, a2, s1, s2, s1, s2, 0));
    assert forall|p: int, q: int| #[trigger] seen_pair(visited, p, q) implies queued(
        queue,
        p,
        q,
    ) by {
        assert(!seen_pair(blank, p, q));
        assert(queue[0].0 == p && queue[0].1 == q);
    }
}

/// Taking the first pair from the queue keeps the traversal well, with
/// that pair in hand.
proof fn lemma_inv_pop(
    a1: Automaton,
    a2: Automaton,
    s1: int,
    s2: int,
    visited: Seq<Vec<bool>>,
    queue: Seq<(usize, usize)>,
    done: Set<(int, int)>,
)
    requires
        search_inv(a1, a2, s1, s2, visited, queue, done, None),
        queue.len() > 0,
    ensures
        search_inv(
            a1,
            a2,
            s1,
            s2,
            visited,
            queue.subrange(1, queue.len() as int),
            done,
            Some((queue[0].0 as int, queue[0].1 as int)),
        ),
        seen_pair(visited, queue[0].0 as int, queue[0].1 as int),
        pair_reachable(a1, a2, s1, s2, queue[0].0 as int, queue[0].1 as int),
{
    reveal(search_inv);
    let rest = queue.subrange(1, queue.len() as int);
    let current = Some((queue[0].0 as int, queue[0].1 as int));
    assert forall|j: int| 0 <= j < rest.len() implies seen_pair(
        visited,
        (#[trigger] rest[j]).0 as int,
        rest[j].1 as int,
    ) by {
        assert(rest[j] == queue[j + 1]);
    }
    assert forall|p: int, q: int| #[trigger] seen_pair(visited, p, q) implies done.contains((p, q))
        || queued(rest, p, q) || current == Some((p, q)) by {
        if !done.contains((p, q)) {
            let j = choose|j: int|
                0 <= j < queue.len() && (#[trigger] queue[j]).0 == p && queue[j].1 == q;
            if j > 0 {
                assert(rest[j - 1] == queue[j]);
            }
        }
    }
}

/// Marking and queueing a pair one step on from the pair in hand keeps
/// the traversal well.
proof fn lemma_inv_mark(
    a1: Automaton,
    a2: Automaton,
    s1: int,
    s2: int,
    visited: Seq<Vec<bool>>,
    marked: Seq<Vec<bool>>,
    queue: Seq<(usize, usize)>,
    done: Set<(int, int)>,
    left: int,
    right: int,
    x: usize,
    y: usize,
)
    requires
        search_inv(a1, a2, s1, s2, visited, queue, done, Some((left, right))),
        seen_pair(visited, left, right),
        pair_step(a1, a2, left, right, x as int, y as int),
        marks(visited, marked, x as int, y as int),
    ensures
        search_inv(a1, a2, s1, s2, marked, queue.push((x, y)), done, Some((left, right))),
        seen_pair(marked, left, right),
{
    reveal(search_inv);
    lemma_marks(visited, marked, x as int, y as int);
    let grown = queue.push((x, y));
    let k = choose|k: nat| pair_reached(a1, a2, s1, s2, left, right, k);
    lemma_pair_reached_next(a1, a2, s1, s2, left, right, x as int, y as int, k);
    assert forall|j: int| 0 <= j < grown.len() implies seen_pair(
        marked,
        (#[trigger] grown[j]).0 as int,
        grown[j].1 as int,
    ) by {
        if j < queue.len() {
            assert(grown[j] == queue[j]);
        }
    }
    assert forall|p: int, q: int| #[trigger] seen_pair(marked, p, q) implies done.contains((p, q))
        || queued(grown, p, q) || Some((left, right)) == Some((p, q)) by {
        if p == x && q == y {
            assert(grown[queue.len() as int] == (x, y));
        } else if !done.contains((p, q)) && !(p == left && q == right) {
            let j = choose|j: int|
                0 <= j < queue.len() && (#[trigger] queue[j]).0 == p && queue[j].1 == q;
            assert(grown[j] == queue[j]);
        }
    }
    assert forall|p: int, q: int| #[trigger] done.contains((p, q)) implies settled(
        a1,
        a2,
        marked,
        p,
        q,
    ) by {
        assert(settled(a1, a2, visited, p, q));
        assert forall|p_next: int, q_next: int| #[trigger]
            pair_step(a1, a2, p, q, p_next, q_next) implies seen_pair(marked, p_next, q_next) by {
            assert(seen_pair(visited, p_next, q_next));
        }
    }
}

/// Once the pair in hand is settled, the traversal is well with no pair
/// in hand.
proof fn lemma_inv_settle(
    a1: Automaton,
    a2: Automaton,
    s1: int,
    s2: int,
    visited: Seq<Vec<bool>>,
    queue: Seq<(usize, usize)>,
    done: Set<(int, int)>,
    left: int,
    right: int,
)
    requires
        search_inv(a1, a2, s1, s2, visited, queue, done, Some((left, right))),
        settled(a1, a2, visited, left, right),
    ensures
        search_inv(a1, a2, s1, s2, visited, queue, done.insert((left, right)), None),
{
    reveal(search_inv);
}

/// When the queue is empty and no pair is in hand, no pair that is
/// reached is a conflict.
proof fn lemma_inv_exhausted(
    a1: Automaton,
    a2: Automaton,
    s1: int,
    s2: int,
    visited: Seq<Vec<bool>>,
    queue: Seq<(usize, usize)>,
    done: Set<(int, int)>,
)
    requires
        search_inv(a1, a2, s1, s2, visited, queue, done, None),
        queue.len() == 0,
    ensures
        equivalent_from(a1, a2, s1, s2),
{
    reveal(search_inv);
    assert forall|p: int, q: int| #[trigger] seen_pair(visited, p, q) implies settled(
        a1,
        a2,
        visited,
        p,
        q,
    ) by {
    }
    assert forall|p: int, q: int| #[trigger]
        pair_reachable(a1, a2, s1, s2, p, q) implies !conflict(a1, a2, p, q) by {
        let k = choose|k: nat| pair_reached(a1, a2, s1, s2, p, q, k);
        lemma_reached_is_seen(a1, a2, s1, s2, visited, p, q, k);
        assert(settled(a1, a2, visited, p, q));
    }
}

/// Where the start is marked and every marked pair is settled, every pair
/// that is reached is marked.
proof fn lemma_reached_is_seen(
    a1: Automaton,
    a2: Automaton,
    s1: int,
    s2: int,
    visited: Seq<Vec<bool>>,
    p: int,
    q: int,
    k: nat,
)
    requires
        seen_pair(visited, s1, s2),
        forall|p0: int, q0: int| #[trigger]
            seen_pair(visited, p0, q0) ==> settled(a1, a2, visited, p0, q0),
        pair_reached(a1, a2, s1, s2, p, q, k),
    ensures
        seen_pair(visited, p, q),
    decreases k,
{
    if k > 0 {
        let (p0, q0) = choose|p0: int, q0: int|
            pair_reached(a1, a2, s1, s2, p0, q0, (k - 1) as nat) && #[trigger] pair_step(
                a1,
                a2,
                p0,
                q0,
                p,
                q,
            );
        lemma_reached_is_seen(a1, a2, s1, s2, visited, p0, q0, (k - 1) as nat);
        assert(settled(a1, a2, visited, p0, q0));
    }
}

/// A pair that is reached and is a conflict tells the automata apart.
proof fn lemma_conflict_found(a1: Automaton, a2: Automaton, s1: int, s2: int, p: int, q: int)
    requires
        pair_reachable(a1, a2, s1, s2, p, q),
        conflict(a1, a2, p, q),
    ensures
        !equivalent_from(a1, a2, s1, s2),
{
}

/// A label that no transition carries leads nowhere.
proof fn lemma_unused_label(a: Automaton, s: int, label: Seq<char>)
    requires
        forall|e: int| 0 <= e < a.arcs.len() ==> (#[trigger] a.arcs[e]).label != label,
    ensures
        a.live_target(s, label) is None,
{
    lemma_no_first_arc(a, s, label);
}

/// The first `i` of `labels` have been followed from `(left, right)`: none
/// splits the pair, and where one leads on, the pair it leads to is marked.
#[verifier::opaque]
spec fn followed(
    a1: Automaton,
    a2: Automaton,
    visited: Seq<Vec<bool>>,
    left: int,
    right: int,
    labels: Seq<Seq<char>>,
    i: int,
) -> bool {
    forall|j: int|
        0 <= j < i ==> {
            &&& !label_splits(a1, a2, left, right, #[trigger] labels[j])
            &&& a1.live_target(left, labels[j]) matches Some(p_next) ==> seen_pair(
                visited,
                p_next,
                a2.live_target(right, labels[j])->0,
            )
        }
}

/// At first no label has been followed.
proof fn lemma_followed_start(
    a1: Automaton,
    a2: Automaton,
    visited: Seq<Vec<bool>>,
    left: int,
    right: int,
    labels: Seq<Seq<char>>,
)
    ensures
        followed(a1, a2, visited, left, right, labels, 0),
{
    reveal(followed);
}

/// What has been followed stays followed when one more pair is marked.
proof fn lemma_followed_marks(
    a1: Automaton,
    a2: Automaton,
    visited: Seq<Vec<bool>>,
    marked: Seq<Vec<bool>>,
    left: int,
    right: int,
    labels: Seq<Seq<char>>,
    i: int,
    x: int,
    y: int,
)
    requires
        followed(a1, a2, visited, left, right, labels, i),
        marks(visited, marked, x, y),
    ensures
        followed(a1, a2, marked, left, right, labels, i),
{
    reveal(followed);
    lemma_marks(visited, marked, x, y);
    assert forall|j: int| 0 <= j < i implies {
        &&& !label_splits(a1, a2, left, right, #[trigger] labels[j])
        &&& a1.live_target(left, labels[j]) matches Some(p_next) ==> seen_pair(
            marked,
            p_next,
            a2.live_target(right, labels[j])->0,
        )
    } by {
        if a1.live_target(left, labels[j]) is Some {
            assert(seen_pair(
                visited,
                a1.live_target(left, labels[j])->0,
                a2.live_target(right, labels[j])->0,
            ));
        }
    }
}

/// One more label has been followed once it does not split the pair and
/// the pair it leads to, if any, is marked.
proof fn lemma_followed_next(
    a1: Automaton,
    a2: Automaton,
    visited: Seq<Vec<bool>>,
    left: int,
    right: int,
    labels: Seq<Seq<char>>,
    i: int,
)
    requires
        0 <= i < labels.len(),
        followed(a1, a2, visited, left, right, labels, i),
        !label_splits(a1, a2, left, right, labels[i]),
        a1.live_target(left, labels[i]) matches Some(p_next) ==> seen_pair(
            visited,
            p_next,
            a2.live_target(right, labels[i])->0,
        ),
    ensures
        followed(a1, a2, visited, left, right, labels, i + 1),
{
    reveal(followed);
}

/// Once every label has been followed from a pair that agrees on
/// acceptance, the pair is settled.
proof fn lemma_followed_all(
    a1: Automaton,
    a2: Automaton,
    visited: Seq<Vec<bool>>,
    left: int,
    right: int,
    labels: Seq<Seq<char>>,
)
    requires
        followed(a1, a2, visited, left, right, labels, labels.len() as int),
        accepts_here(a1, left) == accepts_here(a2, right),
        forall|e: int| 0 <= e < a1.arcs.len() ==> labels.contains((#[trigger] a1.arcs[e]).label),
        forall|e: int| 0 <= e < a2.arcs.len() ==> labels.contains((#[trigger] a2.arcs[e]).label),
    ensures
        settled(a1, a2, visited, left, right),
{
    reveal(followed);
    assert forall|label: Seq<char>| !label_splits(a1, a2, left, right, label) by {
        if labels.contains(label) {
            let j = labels.index_of(label);
            assert(labels[j] == label);
        } else {
            lemma_unused_label(a1, left, label);
            lemma_unused_label(a2, right, label);
        }
    }
    assert forall|p_next: int, q_next: int| #[trigger]
        pair_step(a1, a2, left, right, p_next, q_next) implies seen_pair(visited, p_next, q_next) by {
        let label = choose|label: Seq<char>|
            a1.live_target(left, label) == Some(p_next) && a2.live_target(right, label) == Some(q_next);
        if labels.contains(label) {
            let j = labels.index_of(label);
            assert(labels[j] == label);
        } else {
            lemma_unused_label(a1, left, label);
        }
    }
}

/// A table of `rows` by `columns` entries, all `false`.
fn blank_table(rows: usize, columns: usize) -> (table: Vec<Vec<bool>>)
    ensures
        table@.len() == rows,
        forall|p: int| 0 <= p < rows ==> (#[trigger] table@[p])@.len() == columns,
        forall|p: int, q: int| !seen_pair(table@, p, q),
{
    let mut table: Vec<Vec<bool>> = Vec::new();
    let mut p: usize = 0;
    while p < rows
        invariant
            p <= rows,
            table@.len() == p,
            forall|i: int| 0 <= i < p ==> (#[trigger] table@[i])@.len() == columns,
            forall|i: int, j: int| 0 <= i < p && 0 <= j < columns ==> !(#[trigger] table@[i]@[j]),
        decreases rows - p,
    {
        let mut row: Vec<bool> = Vec::new();
        let mut q: usize = 0;
        while q < columns
            invariant
                q <= columns,
                row@.len() == q,
                forall|j: int| 0 <= j < q ==> !row@[j],
            decreases columns - q,
        {
            row.push(false);
            q += 1;
        }
        table.push(row);
        p += 1;
    }
    table
}

/// Marks the pair `(x, y)` and queues it.
fn mark_and_queue(
    visited: &mut Vec<Vec<bool>>,
    queue: &mut VecDeque<(usize, usize)>,
    x: usize,
    y: usize,
)
    requires
        x < old(visited)@.len(),
        y < old(visited)@[x as int]@.len(),
    ensures
        marks(old(visited)@, final(visited)@, x as int, y as int),
        final(queue)@ == old(queue)@.push((x, y)),
        final(visited)@.len() == old(visited)@.len(),
        forall|p: int|
            0 <= p < old(visited)@.len() ==> (#[trigger] final(visited)@[p])@.len() == old(
                visited,
            )@[p]@.len(),
{
    visited[x].set(y, true);
    queue.push_back((x, y));
}

/// Where `label` leads from state `node_idx`, a transition into a dead
/// state counting as none.
fn live_transition(
    nodes: &[Node],
    edges: &[Edge],
    live: &Vec<bool>,
    node_idx: usize,
    label: &String,
) -> (target: Option<usize>)
    requires
        well_formed(nodes@, edges@),
        node_idx < nodes@.len(),
        live@.len() == nodes@.len(),
        forall|s: int| 0 <= s < nodes@.len() ==> live@[s] == model(nodes@, edges@).live(s),
    ensures
        match target {
            Some(t) => t < nodes@.len() && model(nodes@, edges@).live_target(
                node_idx as int,
                label@,
            ) == Some(t as int),
            None => model(nodes@, edges@).live_target(node_idx as int, label@) is None,
        },
{
    match transition(nodes, edges, node_idx, label) {
        Some(t) => if live[t] {
            Some(t)
        } else {
            None
        },
        None => None,
    }
}

/// Walks the two automata in lockstep from `start1` and `start2`, breadth
/// first, and returns the first pair of states found at which they differ:
/// in acceptance, or in whether some label can be followed to a live state.
/// Returns `None` exactly when there is no such pair.
pub fn first_divergence(
    nodes1: &[Node],
    edges1: &[Edge],
    nodes2: &[Node],
    edges2: &[Edge],
    start1: usize,
    start2: usize,
) -> (found: Option<Divergence>)
    requires
        well_formed(nodes1@, edges1@),
        well_formed(nodes2@, edges2@),
        start1 < nodes1@.len(),
        start2 < nodes2@.len(),
    ensures
        found is None <==> equivalent_from(
            model(nodes1@, edges1@),
            model(nodes2@, edges2@),
            start1 as int,
            start2 as int,
        ),
        match found {
            Some(d) => diverges(
                model(nodes1@, edges1@),
                model(nodes2@, edges2@),
                start1 as int,
                start2 as int,
                d,
            ) && d.left() < nodes1@.len() && d.right() < nodes2@.len(),
            None => true,
        },
{
    let ghost a1 = model(nodes1@, edges1@);
    let ghost a2 = model(nodes2@, edges2@);
    let ghost s1 = start1 as int;
    let ghost s2 = start2 as int;
    let n1: usize = nodes1.len();
    let n2: usize = nodes2.len();
    let live1 = compute_live(nodes1, edges1);
    let live2 = compute_live(nodes2, edges2);
    let mut labels: Vec<String> = Vec::new();
    let mut seen: StringHashMap<bool> = StringHashMap::new();
    proof {
        assert(texts(labels@) =~= Seq::<Seq<char>>::empty());
    }
    add_labels(edges1, &mut labels, &mut seen);
    let ghost labels1 = texts(labels@);
    add_labels(edges2, &mut labels, &mut seen);
    let ghost all = texts(labels@);
    proof {
        lemma_model_closed(nodes1@, edges1@);
        lemma_model_closed(nodes2@, edges2@);
        lemma_labels_added(Seq::empty(), transitions(edges1@));
        lemma_labels_added(labels1, transitions(edges2@));
        assert forall|e: int| 0 <= e < a1.arcs.len() implies all.contains(
            (#[trigger] a1.arcs[e]).label,
        ) by {
            assert(transitions(edges1@)[e].label == a1.arcs[e].label);
        }
        assert forall|e: int| 0 <= e < a2.arcs.len() implies all.contains(
            (#[trigger] a2.arcs[e]).label,
        ) by {
            assert(transitions(edges2@)[e].label == a2.arcs[e].label);
        }
    }
    let mut visited = blank_table(n1, n2);
    let mut queue: VecDeque<(usize, usize)> = VecDeque::new();
    let ghost blank = visited@;
    mark_and_queue(&mut visited, &mut queue, start1, start2);
    let ghost mut done: Set<(int, int)> = Set::empty();
    proof {
        lemma_inv_start(a1, a2, s1, s2, blank, visited@, queue@);
    }
    loop
        invariant
            a1 == model(nodes1@, edges1@),
            a2 == model(nodes2@, edges2@),
            s1 == start1 as int,
            s2 == start2 as int,
            all == texts(labels@),
            well_formed(nodes1@, edges1@),
            well_formed(nodes2@, edges2@),
            n1 == nodes1@.len(),
            n2 == nodes2@.len(),
            live1@.len() == n1,
            live2@.len() == n2,
            forall|s: int| 0 <= s < n1 ==> live1@[s] == a1.live(s),
            forall|s: int| 0 <= s < n2 ==> live2@[s] == a2.live(s),
            forall|s: int|
                0 <= s < n1 ==> (a1.accepting(s) <==> (#[trigger] nodes1@[s]).outgoing@.len() == 0),
            forall|s: int|
                0 <= s < n2 ==> (a2.accepting(s) <==> (#[trigger] nodes2@[s]).outgoing@.len() == 0),
            forall|e: int| 0 <= e < a1.arcs.len() ==> all.contains((#[trigger] a1.arcs[e]).label),
            forall|e: int| 0 <= e < a2.arcs.len() ==> all.contains((#[trigger] a2.arcs[e]).label),
            visited@.len() == n1,
            forall|p: int| 0 <= p < n1 ==> (#[trigger] visited@[p])@.len() == n2,
            search_inv(a1, a2, s1, s2, visited@, queue@, done, None),
        decreases unmarked_rows(visited@), queue@.len(),
    {
        let ghost queue_before = queue@;
        let ghost visited_before = visited@;
        let (left, right): (usize, usize) = match queue.pop_front() {
            Some(pair) => pair,
            None => {
                proof {
                    lemma_inv_exhausted(a1, a2, s1, s2, visited@, queue@, done);
                }
                return None;
            },
        };
        proof {
            lemma_inv_pop(a1, a2, s1, s2, visited@, queue_before, done);
            lemma_followed_start(a1, a2, visited@, left as int, right as int, all);
        }
        let accepts1 = nodes1[left].is_accepting() && live1[left];
        let accepts2 = nodes2[right].is_accepting() && live2[right];
        if accepts1 != accepts2 {
            proof {
                assert(accepts_here(a1, left as int) != accepts_here(a2, right as int));
                lemma_conflict_found(a1, a2, s1, s2, left as int, right as int);
            }
            return Some(Divergence::Acceptance { left, right });
        }
        let mut i: usize = 0;
        while i < labels.len()
            invariant
                i <= labels@.len(),
                a1 == model(nodes1@, edges1@),
                a2 == model(nodes2@, edges2@),
                s1 == start1 as int,
                s2 == start2 as int,
                all == texts(labels@),
                well_formed(nodes1@, edges1@),
                well_formed(nodes2@, edges2@),
                n1 == nodes1@.len(),
                n2 == nodes2@.len(),
                left < n1,
                right < n2,
                live1@.len() == n1,
                live2@.len() == n2,
                forall|s: int| 0 <= s < n1 ==> live1@[s] == a1.live(s),
                forall|s: int| 0 <= s < n2 ==> live2@[s] == a2.live(s),
                visited@.len() == n1,
                forall|p: int| 0 <= p < n1 ==> (#[trigger] visited@[p])@.len() == n2,
                seen_pair(visited@, left as int, right as int),
                pair_reachable(a1, a2, s1, s2, left as int, right as int),
                search_inv(
                    a1,
                    a2,
                    s1,
                    s2,
                    visited@,
                    queue@,
                    done,
                    Some((left as int, right as int)),
                ),
                followed(a1, a2, visited@, left as int, right as int, all, i as int),
                unmarked_rows(visited@) + queue@.len() + 1 == unmarked_rows(visited_before)
                    + queue_before.len(),
                unmarked_rows(visited@) <= unmarked_rows(visited_before),
            decreases labels@.len() - i,
        {
            let label = &labels[i];
            assert(all[i as int] == label@);
            let t1 = live_transition(nodes1, edges1, &live1, left, label);
            let t2 = live_transition(nodes2, edges2, &live2, right, label);
            match (t1, t2) {
                (Some(x), Some(y)) => {
                    if !visited[x][y] {
                        let ghost visited_mid = visited@;
                        let ghost queue_mid = queue@;
                        mark_and_queue(&mut visited, &mut queue, x, y);
                        proof {
                            assert(pair_step(a1, a2, left as int, right as int, x as int, y as int));
                            lemma_mark_row(visited_mid, visited@, x as int, y as int);
                            lemma_inv_mark(
                                a1,
                                a2,
                                s1,
                                s2,
                                visited_mid,
                                visited@,
                                queue_mid,
                                done,
                                left as int,
                                right as int,
                                x,
                                y,
                            );
                            lemma_followed_marks(
                                a1,
                                a2,
                                visited_mid,
                                visited@,
                                left as int,
                                right as int,
                                all,
                                i as int,
                                x as int,
                                y as int,
                            );
                            lemma_marks(visited_mid, visited@, x as int, y as int);
                        }
                    }
                    proof {
                        assert(seen_pair(visited@, x as int, y as int));
                    }
                },
                (None, None) => {},
                _ => {
                    proof {
                        assert(label_splits(a1, a2, left as int, right as int, label@));
                        lemma_conflict_found(a1, a2, s1, s2, left as int, right as int);
                    }
                    return Some(Divergence::Label { left, right, label: label.clone() });
                },
            }
            proof {
                lemma_followed_next(a1, a2, visited@, left as int, right as int, all, i as int);
            }
            i += 1;
        }
        proof {
            lemma_followed_all(a1, a2, visited@, left as int, right as int, all);
            lemma_inv_settle(a1, a2, s1, s2, visited@, queue@, done, left as int, right as int);
            done = done.insert((left as int, right as int));
        }
    }
}

/// Decides whether the two automata, started in `start1` and `start2`,
/// accept the same language in the sense of [`equivalent_from`].
pub fn equivalent(
    nodes1: &[Node],
    edges1: &[Edge],
    nodes2: &[Node],
    edges2: &[Edge],
    start1: usize,
    start2: usize,
) -> (same: bool)
    requires
        well_formed(nodes1@, edges1@),
        well_formed(nodes2@, edges2@),
        start1 < nodes1@.len(),
        start2 < nodes2@.len(),
    ensures
        same == equivalent_from(
            model(nodes1@, edges1@),
            model(nodes2@, edges2@),
            start1 as int,
            start2 as int,
        ),
{
    first_divergence(nodes1, edges1, nodes2, edges2, start1, start2).is_none()
}

} // verus!
