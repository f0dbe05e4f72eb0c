//! Transitions into dead states: what they change, and what they leave as
//! it is.

use crate::automata::compile::compiled;
use crate::automata::derive::{lemma_state_names_distinct, state_names};
use crate::automata::equiv::{
    accepts_here, conflict, equivalent_from, label_splits, lemma_first_arc, lemma_least_match,
    lemma_no_first_arc, pair_reachable, pair_reached, pair_step,
};
use crate::automata::grade::{automaton_of, compared, lemma_reference_root, Verdict};
use crate::automata::laws::{lemma_automaton_of, lemma_first_root_is_root, lemma_least_root};
use crate::automata::live::lemma_reaches_through;
use crate::automata::model::{
    added_once, lemma_added_once, lemma_index_of_own, Arc, Automaton, Transition,
};
use crate::automata::paths::law_compiled_states_are_live;
use vstd::prelude::*;

verus! {

/// `b` is `a` with one more transition, after those that `a` has, into a
/// dead state of `a`. The transition starts from a state of `a` that does
/// not accept, or from a new state, which then comes after the states of
/// `a`.
pub open spec fn adds_dead_arc(a: Automaton, b: Automaton, arc: Arc) -> bool {
    &&& a.closed()
    &&& b.arcs == a.arcs.push(arc)
    &&& 0 <= arc.dst < a.names.len()
    &&& !a.live(arc.dst)
    &&& {
        ||| b.names == a.names && 0 <= arc.src < a.names.len() && !a.accepting(arc.src)
        ||| b.names.len() == a.names.len() + 1 && arc.src == a.names.len()
    }
}

/// The states of `a` accept in `b` as they do in `a`.
proof fn lemma_dead_arc_accepting(a: Automaton, b: Automaton, arc: Arc, s: int)
    requires
        adds_dead_arc(a, b, arc),
        0 <= s < a.names.len(),
    ensures
        b.accepting(s) == a.accepting(s),
{
    if a.accepting(s) {
        assert forall|e: int| 0 <= e < b.arcs.len() implies (#[trigger] b.arcs[e]).src != s by {
            if e < a.arcs.len() {
                assert(b.arcs[e] == a.arcs[e]);
            }
        }
    } else {
        let e = choose|e: int| 0 <= e < a.arcs.len() && (#[trigger] a.arcs[e]).src == s;
        assert(b.arcs[e] == a.arcs[e]);
    }
}

/// What reaches acceptance in `a` reaches it in `b`.
proof fn lemma_dead_arc_keeps_live(a: Automaton, b: Automaton, arc: Arc, s: int, k: nat)
    requires
        adds_dead_arc(a, b, arc),
        0 <= s < a.names.len(),
        a.reaches_accepting(s, k),
    ensures
        b.reaches_accepting(s, k),
    decreases k,
{
    lemma_dead_arc_accepting(a, b, arc, s);
    if !a.accepting(s) {
        let e = choose|e: int|
            0 <= e < a.arcs.len() && (#[trigger] a.arcs[e]).src == s && a.reaches_accepting(
                a.arcs[e].dst,
                (k - 1) as nat,
            );
        lemma_dead_arc_keeps_live(a, b, arc, a.arcs[e].dst, (k - 1) as nat);
        assert(b.arcs[e] == a.arcs[e]);
    }
}

/// What reaches acceptance in `b` from a state of `a` reaches it in `a`.
proof fn lemma_dead_arc_adds_no_live(a: Automaton, b: Automaton, arc: Arc, s: int, k: nat)
    requires
        adds_dead_arc(a, b, arc),
        0 <= s < a.names.len(),
        b.reaches_accepting(s, k),
    ensures
        a.live(s),
    decreases k,
{
    lemma_dead_arc_accepting(a, b, arc, s);
    if a.accepting(s) {
        assert(a.reaches_accepting(s, 0));
    } else {
        let e = choose|e: int|
            0 <= e < b.arcs.len() && (#[trigger] b.arcs[e]).src == s && b.reaches_accepting(
                b.arcs[e].dst,
                (k - 1) as nat,
            );
        if e < a.arcs.len() {
            assert(b.arcs[e] == a.arcs[e]);
            lemma_dead_arc_adds_no_live(a, b, arc, a.arcs[e].dst, (k - 1) as nat);
            let j = choose|j: nat| a.reaches_accepting(a.arcs[e].dst, j);
            lemma_reaches_through(a, e, j);
        } else {
            lemma_dead_arc_adds_no_live(a, b, arc, arc.dst, (k - 1) as nat);
        }
    }
}

/// The states of `a` are live in `b` as they are in `a`.
proof fn lemma_dead_arc_live(a: Automaton, b: Automaton, arc: Arc, s: int)
    requires
        adds_dead_arc(a, b, arc),
        0 <= s < a.names.len(),
    ensures
        b.live(s) == a.live(s),
{
    if a.live(s) {
        let k = choose|k: nat| a.reaches_accepting(s, k);
        lemma_dead_arc_keeps_live(a, b, arc, s, k);
    }
    if b.live(s) {
        let k = choose|k: nat| b.reaches_accepting(s, k);
        lemma_dead_arc_adds_no_live(a, b, arc, s, k);
    }
}

/// From the states of `a`, every label leads in `b` where it leads in `a`,
/// and that is a state of `a`.
proof fn lemma_dead_arc_target(a: Automaton, b: Automaton, arc: Arc, s: int, label: Seq<char>)
    requires
        adds_dead_arc(a, b, arc),
        0 <= s < a.names.len(),
    ensures
        b.live_target(s, label) == a.live_target(s, label),
        a.live_target(s, label) matches Some(t) ==> 0 <= t < a.names.len(),
{
    let n = a.arcs.len() as int;
    assert forall|e: int| 0 <= e < n implies b.arc_matches(e, s, label) == a.arc_matches(
        e,
        s,
        label,
    ) by {
        assert(b.arcs[e] == a.arcs[e]);
    }
    if a.first_arc(s, label) is Some {
        let e = a.first_arc(s, label)->0;
        assert(a.is_first_arc(e, s, label));
        assert(b.is_first_arc(e, s, label));
        lemma_first_arc(b, e, s, label);
        assert(b.arcs[e] == a.arcs[e]);
        lemma_dead_arc_live(a, b, arc, a.arcs[e].dst);
    } else {
        assert forall|e: int| !a.arc_matches(e, s, label) by {
            if a.arc_matches(e, s, label) {
                lemma_least_match(a, e, s, label);
            }
        }
        if b.arc_matches(n, s, label) {
            assert(b.is_first_arc(n, s, label));
            lemma_first_arc(b, n, s, label);
            assert(b.arcs[n] == arc);
            lemma_dead_arc_live(a, b, arc, arc.dst);
        } else {
            assert forall|e: int| !b.arc_matches(e, s, label) by {
                if 0 <= e < n {
                    assert(!a.arc_matches(e, s, label));
                }
            }
            lemma_no_first_arc(b, s, label);
        }
    }
}

/// What `b` reaches in lockstep with a third automaton, from a state of
/// `a`, is what `a` reaches, and a state of `a`.
proof fn lemma_dead_arc_reach(
    a: Automaton,
    b: Automaton,
    arc: Arc,
    r: Automaton,
    s1: int,
    s2: int,
    p: int,
    q: int,
    k: nat,
)
    requires
        adds_dead_arc(a, b, arc),
        0 <= s1 < a.names.len(),
        pair_reached(b, r, s1, s2, p, q, k) || pair_reached(a, r, s1, s2, p, q, k),
    ensures
        0 <= p < a.names.len(),
        pair_reached(b, r, s1, s2, p, q, k),
        pair_reached(a, r, s1, s2, p, q, k),
    decreases k,
{
    if k > 0 {
        if pair_reached(b, r, s1, s2, p, q, k) {
            let (p0, q0) = choose|p0: int, q0: int|
                pair_reached(b, r, s1, s2, p0, q0, (k - 1) as nat) && #[trigger] pair_step(
                    b,
                    r,
                    p0,
                    q0,
                    p,
                    q,
                );
            lemma_dead_arc_reach(a, b, arc, r, s1, s2, p0, q0, (k - 1) as nat);
            let label = choose|label: Seq<char>|
                b.live_target(p0, label) == Some(p) && r.live_target(q0, label) == Some(q);
            lemma_dead_arc_target(a, b, arc, p0, label);
            assert(pair_step(a, r, p0, q0, p, q));
        } else {
            let (p0, q0) = choose|p0: int, q0: int|
                pair_reached(a, r, s1, s2, p0, q0, (k - 1) as nat) && #[trigger] pair_step(
                    a,
                    r,
                    p0,
                    q0,
                    p,
                    q,
                );
            lemma_dead_arc_reach(a, b, arc, r, s1, s2, p0, q0, (k - 1) as nat);
            let label = choose|label: Seq<char>|
                a.live_target(p0, label) == Some(p) && r.live_target(q0, label) == Some(q);
            lemma_dead_arc_target(a, b, arc, p0, label);
            assert(pair_step(b, r, p0, q0, p, q));
        }
    }
}

/// Dead-state irrelevance on automata: a transition into a dead state,
/// after all other transitions, out of a state that does not accept or out
/// of a new state, leaves the automaton equivalent to what it was
/// equivalent to.
pub proof fn law_dead_arc(a: Automaton, b: Automaton, arc: Arc, r: Automaton, s1: int, s2: int)
    requires
        adds_dead_arc(a, b, arc),
        0 <= s1 < a.names.len(),
    ensures
        equivalent_from(b, r, s1, s2) == equivalent_from(a, r, s1, s2),
{
    if equivalent_from(a, r, s1, s2) {
        assert forall|p: int, q: int| #[trigger]
            pair_reachable(b, r, s1, s2, p, q) implies !conflict(b, r, p, q) by {
            let k = choose|k: nat| pair_reached(b, r, s1, s2, p, q, k);
            lemma_dead_arc_reach(a, b, arc, r, s1, s2, p, q, k);
            assert(pair_reachable(a, r, s1, s2, p, q));
            lemma_dead_arc_same_conflict(a, b, arc, r, p, q);
        }
    }
    if equivalent_from(b, r, s1, s2) {
        assert forall|p: int, q: int| #[trigger]
            pair_reachable(a, r, s1, s2, p, q) implies !conflict(a, r, p, q) by {
            let k = choose|k: nat| pair_reached(a, r, s1, s2, p, q, k);
            lemma_dead_arc_reach(a, b, arc, r, s1, s2, p, q, k);
            assert(pair_reachable(b, r, s1, s2, p, q));
            lemma_dead_arc_same_conflict(a, b, arc, r, p, q);
        }
    }
}

/// A state of `a` is in conflict with a state of a third automaton in `b`
/// exactly when it is in `a`.
proof fn lemma_dead_arc_same_conflict(
    a: Automaton,
    b: Automaton,
    arc: Arc,
    r: Automaton,
    p: int,
    q: int,
)
    requires
        adds_dead_arc(a, b, arc),
        0 <= p < a.names.len(),
    ensures
        conflict(b, r, p, q) == conflict(a, r, p, q),
{
    lemma_dead_arc_accepting(a, b, arc, p);
    lemma_dead_arc_live(a, b, arc, p);
    assert forall|label: Seq<char>| label_splits(b, r, p, q, label) == label_splits(
        a,
        r,
        p,
        q,
        label,
    ) by {
        lemma_dead_arc_target(a, b, arc, p, label);
    }
    if exists|label: Seq<char>| label_splits(b, r, p, q, label) {
        let label = choose|label: Seq<char>| label_splits(b, r, p, q, label);
        assert(label_splits(a, r, p, q, label));
    }
    if exists|label: Seq<char>| label_splits(a, r, p, q, label) {
        let label = choose|label: Seq<char>| label_splits(a, r, p, q, label);
        assert(label_splits(b, r, p, q, label));
    }
}

/// A transition into a state that is not the first root leaves the first
/// root as it is.
proof fn lemma_dead_arc_root(a: Automaton, b: Automaton, arc: Arc)
    requires
        adds_dead_arc(a, b, arc),
        a.first_root() is Some,
        a.first_root()->0 != arc.dst,
    ensures
        b.first_root() == a.first_root(),
{
    let f = a.first_root()->0;
    lemma_first_root_is_root(a);
    assert forall|s: int| b.root(s) implies a.root(s) by {
        assert forall|e: int| 0 <= e < a.arcs.len() implies (#[trigger] a.arcs[e]).dst != s by {
            assert(b.arcs[e] == a.arcs[e]);
        }
    }
    assert(b.root(f)) by {
        assert forall|e: int| 0 <= e < b.arcs.len() implies (#[trigger] b.arcs[e]).dst != f by {
            if e < a.arcs.len() {
                assert(b.arcs[e] == a.arcs[e]);
            }
        }
    }
    lemma_least_root(b, f);
    lemma_first_root_is_root(b);
    let g = b.first_root()->0;
    if g < f {
        assert(a.root(g));
    }
}

/// The transition that `t` is in the automaton of `ts` and `t`.
pub open spec fn arc_of(ts: Seq<Transition>, t: Transition) -> Arc {
    Arc {
        src: if state_names(ts).contains(t.from) {
            state_names(ts).index_of(t.from)
        } else {
            state_names(ts).len() as int
        },
        dst: state_names(ts).index_of(t.to),
        label: t.label,
    }
}

/// `t` leads into a dead state of the automaton of `ts`, and starts from a
/// state of it that does not accept or from a state that it does not
/// have.
pub open spec fn leads_to_dead_state(ts: Seq<Transition>, t: Transition) -> bool {
    &&& state_names(ts).contains(t.to)
    &&& !automaton_of(ts).live(state_names(ts).index_of(t.to))
    &&& state_names(ts).contains(t.from) ==> !automaton_of(ts).accepting(
        state_names(ts).index_of(t.from),
    )
}

/// One more transition into a dead state, stated after all others, adds a
/// dead transition to the automaton.
proof fn lemma_adds_dead_arc(ts: Seq<Transition>, t: Transition)
    requires
        leads_to_dead_state(ts, t),
    ensures
        adds_dead_arc(automaton_of(ts), automaton_of(ts.push(t)), arc_of(ts, t)),
{
    let longer = ts.push(t);
    let a = automaton_of(ts);
    let b = automaton_of(longer);
    let names = state_names(ts);
    let arc = arc_of(ts, t);
    assert(longer.drop_last() =~= ts);
    lemma_automaton_of(ts);
    lemma_automaton_of(longer);
    lemma_state_names_distinct(ts);
    lemma_added_once(names, t.from);
    lemma_added_once(added_once(names, t.from), t.to);
    assert(added_once(names, t.from).contains(t.to));
    assert(b.names == added_once(names, t.from));
    let dst = names.index_of(t.to);
    assert(names[dst] == t.to);
    assert(b.names[dst] == t.to);
    lemma_index_of_own(b.names, dst);
    if names.contains(t.from) {
        let src = names.index_of(t.from);
        assert(names[src] == t.from);
    } else {
        assert(b.names[names.len() as int] == t.from);
        lemma_index_of_own(b.names, names.len() as int);
    }
    assert forall|e: int| 0 <= e < ts.len() implies b.arcs[e] == a.arcs[e] by {
        assert(longer[e] == ts[e]);
        let i = a.arcs[e].src;
        let j = a.arcs[e].dst;
        assert(b.names[i] == ts[e].from);
        assert(b.names[j] == ts[e].to);
        lemma_index_of_own(b.names, i);
        lemma_index_of_own(b.names, j);
    }
    assert(b.arcs =~= a.arcs.push(arc));
}

/// Dead-state irrelevance, for a transition: against any reference, an
/// answer that is correct stays correct when one more transition is stated
/// after all others, into a state from which no accepting state can be
/// reached and in which the answer does not start. The transition starts
/// from a state that does not accept, or from a state that the answer did
/// not have.
pub proof fn law_dead_transition(ts: Seq<Transition>, t: Transition, reference: Seq<Transition>)
    requires
        leads_to_dead_state(ts, t),
        automaton_of(ts).first_root() != Some(state_names(ts).index_of(t.to)),
        compared(ts, reference, Verdict::Correct),
    ensures
        compared(ts.push(t), reference, Verdict::Correct),
{
    let a = automaton_of(ts);
    let b = automaton_of(ts.push(t));
    let r = automaton_of(reference);
    lemma_adds_dead_arc(ts, t);
    lemma_dead_arc_root(a, b, arc_of(ts, t));
    lemma_first_root_is_root(a);
    law_dead_arc(a, b, arc_of(ts, t), r, a.first_root()->0, r.first_root()->0);
}

/// A state from which a label leads to a live state is live.
proof fn lemma_live_through_label(a: Automaton, s: int, label: Seq<char>)
    requires
        a.live_target(s, label) is Some,
    ensures
        a.live(s),
{
    let e = a.first_arc(s, label)->0;
    assert(a.is_first_arc(e, s, label));
    let k = choose|k: nat| a.reaches_accepting(a.arcs[e].dst, k);
    lemma_reaches_through(a, e, k);
}

/// A correct answer to a pattern starts in a live state.
pub proof fn lemma_correct_start_is_live(pattern: Seq<char>, ts: Seq<Transition>)
    requires
        compared(ts, compiled(pattern), Verdict::Correct),
    ensures
        automaton_of(ts).first_root() is Some,
        automaton_of(ts).live(automaton_of(ts).first_root()->0),
{
    let a = automaton_of(ts);
    let r = automaton_of(compiled(pattern));
    lemma_reference_root(pattern);
    lemma_automaton_of(compiled(pattern));
    law_compiled_states_are_live(pattern, 0);
    let f = a.first_root()->0;
    assert(pair_reached(a, r, f, 0, f, 0, 0));
    assert(pair_reachable(a, r, f, 0, f, 0));
    assert(!conflict(a, r, f, 0));
    if r.accepting(0) {
        assert(accepts_here(r, 0));
        assert(accepts_here(a, f));
    } else {
        let k = choose|k: nat| r.reaches_accepting(0, k);
        let e = choose|e: int|
            0 <= e < r.arcs.len() && (#[trigger] r.arcs[e]).src == 0 && r.reaches_accepting(
                r.arcs[e].dst,
                (k - 1) as nat,
            );
        let label = r.arcs[e].label;
        assert(r.arc_matches(e, 0, label));
        lemma_least_match(r, e, 0, label);
        let first = r.first_arc(0, label)->0;
        assert(r.is_first_arc(first, 0, label));
        law_compiled_states_are_live(pattern, r.arcs[first].dst);
        assert(r.live_target(0, label) is Some);
        assert(!label_splits(a, r, f, 0, label));
        lemma_live_through_label(a, f, label);
    }
}

/// Dead-state irrelevance, for a transition: an answer to a pattern that is
/// correct stays correct when one more transition is stated after all
/// others, into a state from which no accepting state can be reached. The
/// transition starts from a state that does not accept, or from a state
/// that the answer did not have.
pub proof fn law_dead_transition_in_answer(
    pattern: Seq<char>,
    ts: Seq<Transition>,
    t: Transition,
)
    requires
        leads_to_dead_state(ts, t),
        compared(ts, compiled(pattern), Verdict::Correct),
    ensures
        compared(ts.push(t), compiled(pattern), Verdict::Correct),
{
    lemma_correct_start_is_live(pattern, ts);
    law_dead_transition(ts, t, compiled(pattern));
}

} // verus!
