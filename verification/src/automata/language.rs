//! What equivalence means for the words that the automata accept.

use crate::automata::equiv::{
    accepts_here, conflict, equivalent_from, label_splits, lemma_least_match,
    lemma_pair_reached_next, pair_reachable, pair_reached, pair_step,
};
use crate::automata::model::Automaton;
use vstd::prelude::*;

verus! {

/// Where the word `w`, a sequence of labels, leads from state `s`: each
/// label is followed along the first transition that carries it, and a
/// transition into a dead state is none.
pub open spec fn run(a: Automaton, s: int, w: Seq<Seq<char>>) -> Option<int>
    decreases w.len(),
{
    if w.len() == 0 {
        Some(s)
    } else {
        match run(a, s, w.drop_last()) {
            Some(t) => a.live_target(t, w.last()),
            None => None,
        }
    }
}

/// The automaton, started in `s`, accepts the word `w`.
pub open spec fn accepts(a: Automaton, s: int, w: Seq<Seq<char>>) -> bool {
    run(a, s, w) matches Some(t) && accepts_here(a, t)
}

/// The two automata, started in `s1` and `s2`, accept the same words.
pub open spec fn same_language(a1: Automaton, a2: Automaton, s1: int, s2: int) -> bool {
    forall|w: Seq<Seq<char>>| #[trigger] accepts(a1, s1, w) == accepts(a2, s2, w)
}

/// No state has two transitions with one label that end in different
/// states.
pub open spec fn deterministic(a: Automaton) -> bool {
    forall|e: int, d: int|
        0 <= e < a.arcs.len() && 0 <= d < a.arcs.len() && (#[trigger] a.arcs[e]).src == (
        #[trigger] a.arcs[d]).src && a.arcs[e].label == a.arcs[d].label ==> a.arcs[e].dst
            == a.arcs[d].dst
}

/// Equivalent automata run in lockstep: a word leads on in both or in
/// neither, and where it leads is a pair that the two reach together.
proof fn lemma_lockstep(a1: Automaton, a2: Automaton, s1: int, s2: int, w: Seq<Seq<char>>)
    requires
        equivalent_from(a1, a2, s1, s2),
    ensures
        run(a1, s1, w) is Some == run(a2, s2, w) is Some,
        run(a1, s1, w) is Some ==> pair_reached(
            a1,
            a2,
            s1,
            s2,
            run(a1, s1, w)->0,
            run(a2, s2, w)->0,
            w.len(),
        ),
    decreases w.len(),
{
    if w.len() > 0 {
        let shorter = w.drop_last();
        lemma_lockstep(a1, a2, s1, s2, shorter);
        if run(a1, s1, shorter) is Some {
            let p = run(a1, s1, shorter)->0;
            let q = run(a2, s2, shorter)->0;
            assert(pair_reachable(a1, a2, s1, s2, p, q));
            assert(!conflict(a1, a2, p, q));
            assert(!label_splits(a1, a2, p, q, w.last()));
            if a1.live_target(p, w.last()) is Some {
                let p_next = a1.live_target(p, w.last())->0;
                let q_next = a2.live_target(q, w.last())->0;
                assert(pair_step(a1, a2, p, q, p_next, q_next));
                lemma_pair_reached_next(a1, a2, s1, s2, p, q, p_next, q_next, shorter.len());
            }
        }
    } else {
        assert(pair_reached(a1, a2, s1, s2, s1, s2, 0));
    }
}

/// Equivalent automata accept the same words.
pub proof fn law_equivalent_same_language(a1: Automaton, a2: Automaton, s1: int, s2: int)
    requires
        equivalent_from(a1, a2, s1, s2),
    ensures
        same_language(a1, a2, s1, s2),
{
    assert forall|w: Seq<Seq<char>>| #[trigger] accepts(a1, s1, w) == accepts(a2, s2, w) by {
        lemma_lockstep(a1, a2, s1, s2, w);
        if run(a1, s1, w) is Some {
            let p = run(a1, s1, w)->0;
            let q = run(a2, s2, w)->0;
            assert(pair_reachable(a1, a2, s1, s2, p, q));
            assert(!conflict(a1, a2, p, q));
        }
    }
}

/// A word that is run after another runs from where the other led.
proof fn lemma_run_concat(a: Automaton, s: int, w: Seq<Seq<char>>, u: Seq<Seq<char>>)
    ensures
        run(a, s, w + u) == match run(a, s, w) {
            Some(t) => run(a, t, u),
            None => None,
        },
    decreases u.len(),
{
    if u.len() == 0 {
        assert(w + u =~= w);
    } else {
        assert((w + u).drop_last() =~= w + u.drop_last());
        assert((w + u).last() == u.last());
        lemma_run_concat(a, s, w, u.drop_last());
    }
}

/// A pair that is reached in lockstep is reached by a word.
proof fn lemma_reached_by_word(
    a1: Automaton,
    a2: Automaton,
    s1: int,
    s2: int,
    p: int,
    q: int,
    k: nat,
) -> (w: Seq<Seq<char>>)
    requires
        pair_reached(a1, a2, s1, s2, p, q, k),
    ensures
        run(a1, s1, w) == Some(p),
        run(a2, s2, w) == Some(q),
    decreases k,
{
    if k == 0 {
        Seq::empty()
    } else {
        let (p0, q0) = choose|p0: int, q0: int|
            pair_reached(a1, a2, s1, s2, p0, q0, (k - 1) as nat) && #[trigger] pair_step(
                a1,
                a2,
                p0,
                q0,
                p,
                q,
            );
        let shorter = lemma_reached_by_word(a1, a2, s1, s2, p0, q0, (k - 1) as nat);
        let label = choose|label: Seq<char>|
            a1.live_target(p0, label) == Some(p) && a2.live_target(q0, label) == Some(q);
        let w = shorter.push(label);
        assert(w.drop_last() =~= shorter);
        w
    }
}

/// In a deterministic automaton, every live state accepts some word.
proof fn lemma_live_accepts(a: Automaton, s: int, k: nat) -> (w: Seq<Seq<char>>)
    requires
        deterministic(a),
        a.reaches_accepting(s, k),
    ensures
        accepts(a, s, w),
    decreases k,
{
    if a.accepting(s) {
        assert(a.reaches_accepting(s, 0));
        Seq::empty()
    } else {
        let e = choose|e: int|
            0 <= e < a.arcs.len() && (#[trigger] a.arcs[e]).src == s && a.reaches_accepting(
                a.arcs[e].dst,
                (k - 1) as nat,
            );
        let next = a.arcs[e].dst;
        let label = a.arcs[e].label;
        let rest = lemma_live_accepts(a, next, (k - 1) as nat);
        assert(a.arc_matches(e, s, label));
        lemma_least_match(a, e, s, label);
        let first = a.first_arc(s, label)->0;
        assert(a.is_first_arc(first, s, label));
        assert(a.arcs[first].dst == a.arcs[e].dst);
        assert(a.live(next));
        assert(a.live_target(s, label) == Some(next));
        let one = seq![label];
        assert(one.drop_last() =~= Seq::<Seq<char>>::empty());
        assert(one.last() == label);
        assert(run(a, s, one.drop_last()) == Some(s));
        assert(run(a, s, one) == a.live_target(s, label));
        assert(run(a, s, one) == Some(next));
        lemma_run_concat(a, s, one, rest);
        one + rest
    }
}

/// Deterministic automata that accept the same words are equivalent.
pub proof fn law_same_language_equivalent(a1: Automaton, a2: Automaton, s1: int, s2: int)
    requires
        deterministic(a1),
        deterministic(a2),
        same_language(a1, a2, s1, s2),
    ensures
        equivalent_from(a1, a2, s1, s2),
{
    assert forall|p: int, q: int| #[trigger] pair_reachable(a1, a2, s1, s2, p, q) implies !conflict(
        a1,
        a2,
        p,
        q,
    ) by {
        let k = choose|k: nat| pair_reached(a1, a2, s1, s2, p, q, k);
        let w = lemma_reached_by_word(a1, a2, s1, s2, p, q, k);
        assert(accepts(a1, s1, w) == accepts(a2, s2, w));
        if exists|label: Seq<char>| label_splits(a1, a2, p, q, label) {
            let label = choose|label: Seq<char>| label_splits(a1, a2, p, q, label);
            let longer = w.push(label);
            assert(longer.drop_last() =~= w);
            if a1.live_target(p, label) is Some {
                let x = a1.live_target(p, label)->0;
                let j = choose|j: nat| a1.reaches_accepting(x, j);
                let u = lemma_live_accepts(a1, x, j);
                lemma_run_concat(a1, s1, longer, u);
                lemma_run_concat(a2, s2, longer, u);
                assert(accepts(a1, s1, longer + u));
                assert(!accepts(a2, s2, longer + u));
            } else {
                let x = a2.live_target(q, label)->0;
                let j = choose|j: nat| a2.reaches_accepting(x, j);
                let u = lemma_live_accepts(a2, x, j);
                lemma_run_concat(a1, s1, longer, u);
                lemma_run_concat(a2, s2, longer, u);
                assert(accepts(a2, s2, longer + u));
                assert(!accepts(a1, s1, longer + u));
            }
        }
    }
}

} // verus!
