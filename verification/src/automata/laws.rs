//! What holds of the oracle as a whole.

use crate::automata::compile::{
    char_edges, compiled, valid_pattern, word_edges, words, words_edges,
};
use crate::automata::derive::{
    lemma_state_names_distinct, lemma_state_names_hold, state_names,
};
use crate::automata::dot::declared_edges;
use crate::automata::equiv::{
    accepts_here, conflict, equivalent_from, pair_reachable, pair_reached, pair_step,
};
use crate::automata::grade::{
    automaton_of, judged, lemma_reference_root, lone_state, Verdict,
};
use crate::automata::lexer::ParseError;
use crate::automata::model::{
    added_once, lemma_added_once, lemma_index_of_own, Automaton, Transition,
};
use crate::automata::parser::{decode, Declaration};
use crate::text::{is_alphanumeric, lower, upper};
use vstd::prelude::*;

verus! {

/// The other case of an ASCII letter; any other character unchanged.
pub open spec fn opposite_case(c: char) -> char {
    if 'a' <= c <= 'z' {
        upper(c)
    } else if 'A' <= c <= 'Z' {
        lower(c)
    } else {
        c
    }
}

/// `q` is `p` with some of its letters in the other case.
pub open spec fn recased(p: Seq<char>, q: Seq<char>) -> bool {
    &&& q.len() == p.len()
    &&& forall|i: int| 0 <= i < p.len() ==> q[i] == p[i] || q[i] == opposite_case(#[trigger] p[i])
}

/// Pairs that an automaton reaches in lockstep with itself are pairs of
/// one state.
proof fn lemma_diagonal(a: Automaton, s: int, p: int, q: int, k: nat)
    requires
        pair_reached(a, a, s, s, p, q, k),
    ensures
        p == q,
    decreases k,
{
    if k > 0 {
        let (p0, q0) = choose|p0: int, q0: int|
            pair_reached(a, a, s, s, p0, q0, (k - 1) as nat) && #[trigger] pair_step(
                a,
                a,
                p0,
                q0,
                p,
                q,
            );
        lemma_diagonal(a, s, p0, q0, (k - 1) as nat);
    }
}

/// Every automaton is equivalent to itself, from any state.
pub proof fn law_equivalent_to_itself(a: Automaton, s: int)
    ensures
        equivalent_from(a, a, s, s),
{
    assert forall|p: int, q: int| #[trigger] pair_reachable(a, a, s, s, p, q) implies !conflict(
        a,
        a,
        p,
        q,
    ) by {
        let k = choose|k: nat| pair_reached(a, a, s, s, p, q, k);
        lemma_diagonal(a, s, p, q, k);
    }
}

/// The transitions of a word do not depend on the case of its letters.
proof fn lemma_word_recased(w: Seq<char>, v: Seq<char>, id: nat)
    requires
        recased(w, v),
    ensures
        word_edges(v, id) == word_edges(w, id),
    decreases w.len(),
{
    if w.len() > 0 {
        assert(recased(w.drop_last(), v.drop_last())) by {
            assert forall|i: int| 0 <= i < w.len() - 1 implies v.drop_last()[i] == w.drop_last()[i]
                || v.drop_last()[i] == opposite_case(#[trigger] w.drop_last()[i]) by {
                assert(v[i] == w[i] || v[i] == opposite_case(w[i]));
            }
        }
        lemma_word_recased(w.drop_last(), v.drop_last(), id);
        let c = w.last();
        let d = v.last();
        assert(d == c || d == opposite_case(w[w.len() - 1]));
        assert(upper(d) == upper(c) && lower(d) == lower(c));
        assert(char_edges(id, (v.len() - 1) as nat, d) == char_edges(id, (w.len() - 1) as nat, c));
    }
}

/// The words of a pattern keep their number, and each its letters up to
/// case, when letters of the pattern change case.
proof fn lemma_words_recased(p: Seq<char>, q: Seq<char>)
    requires
        recased(p, q),
    ensures
        words(q).len() == words(p).len(),
        words(p).len() > 0,
        forall|k: int| 0 <= k < words(p).len() ==> recased(#[trigger] words(p)[k], words(q)[k]),
    decreases p.len(),
{
    if p.len() > 0 {
        let p0 = p.drop_last();
        let q0 = q.drop_last();
        assert(recased(p0, q0)) by {
            assert forall|i: int| 0 <= i < p0.len() implies q0[i] == p0[i] || q0[i]
                == opposite_case(#[trigger] p0[i]) by {
                assert(q[i] == p[i] || q[i] == opposite_case(p[i]));
            }
        }
        lemma_words_recased(p0, q0);
        let c = p.last();
        let d = q.last();
        assert(d == c || d == opposite_case(p[p.len() - 1]));
        assert((d == '|') == (c == '|'));
        let wp = words(p0);
        let wq = words(q0);
        if c == '|' {
            assert forall|k: int| 0 <= k < words(p).len() implies recased(
                #[trigger] words(p)[k],
                words(q)[k],
            ) by {
                if k < wp.len() {
                    assert(recased(wp[k], wq[k]));
                }
            }
        } else {
            let last = wp.len() - 1;
            assert(recased(wp[last], wq[last]));
            assert forall|k: int| 0 <= k < words(p).len() implies recased(
                #[trigger] words(p)[k],
                words(q)[k],
            ) by {
                if k < last {
                    assert(recased(wp[k], wq[k]));
                } else {
                    let w = wp[last].push(c);
                    let v = wq[last].push(d);
                    assert forall|i: int| 0 <= i < w.len() implies v[i] == w[i] || v[i]
                        == opposite_case(#[trigger] w[i]) by {
                        if i < wp[last].len() {
                            assert(wq[last][i] == wp[last][i] || wq[last][i] == opposite_case(
                                wp[last][i],
                            ));
                        }
                    }
                }
            }
        }
    } else {
        assert(q =~= p);
        assert(recased(words(p)[0], words(q)[0]));
    }
}

/// Lists of words that agree up to case compile to the same transitions.
proof fn lemma_words_edges_recased(ws: Seq<Seq<char>>, vs: Seq<Seq<char>>)
    requires
        vs.len() == ws.len(),
        forall|k: int| 0 <= k < ws.len() ==> recased(#[trigger] ws[k], vs[k]),
    ensures
        words_edges(vs) == words_edges(ws),
    decreases ws.len(),
{
    if ws.len() > 0 {
        assert forall|k: int| 0 <= k < ws.len() - 1 implies recased(
            #[trigger] ws.drop_last()[k],
            vs.drop_last()[k],
        ) by {
            assert(recased(ws[k], vs[k]));
        }
        lemma_words_edges_recased(ws.drop_last(), vs.drop_last());
        assert(recased(ws[ws.len() - 1], vs[ws.len() - 1]));
        lemma_word_recased(ws.last(), vs.last(), (ws.len() - 1) as nat);
    }
}

/// Case invariance: a pattern in which letters are replaced by their other
/// case compiles to the same transitions, so its automaton is equivalent
/// to that of the pattern, and every verdict against the one is a verdict
/// against the other.
pub proof fn law_case_invariance(p: Seq<char>, q: Seq<char>)
    requires
        recased(p, q),
    ensures
        valid_pattern(p) == valid_pattern(q),
        compiled(q) == compiled(p),
        equivalent_from(automaton_of(compiled(q)), automaton_of(compiled(p)), 0, 0),
        forall|text: Seq<char>, verdict: Verdict| #[trigger]
            judged(q, text, verdict) == judged(p, text, verdict),
{
    lemma_words_recased(p, q);
    lemma_words_edges_recased(words(p), words(q));
    law_equivalent_to_itself(automaton_of(compiled(p)), 0);
    if valid_pattern(p) {
        assert forall|i: int| 0 <= i < q.len() implies (#[trigger] q[i]) == '|'
            || is_alphanumeric(q[i]) by {
            assert(q[i] == p[i] || q[i] == opposite_case(p[i]));
        }
    }
    if valid_pattern(q) {
        assert forall|i: int| 0 <= i < p.len() implies (#[trigger] p[i]) == '|'
            || is_alphanumeric(p[i]) by {
            assert(q[i] == p[i] || q[i] == opposite_case(p[i]));
        }
    }
}

/// Declaring a state, with or without attributes, adds no transition and
/// takes none away, wherever the declaration stands.
pub proof fn lemma_state_declared(decls: Seq<Declaration>, i: int, name: Seq<char>)
    requires
        0 <= i <= decls.len(),
    ensures
        declared_edges(decls.insert(i, Declaration::State(name))) == declared_edges(decls),
    decreases decls.len() - i,
{
    let longer = decls.insert(i, Declaration::State(name));
    if i == decls.len() {
        assert(longer.drop_last() =~= decls);
    } else {
        lemma_state_declared(decls.drop_last(), i, name);
        assert(longer.drop_last() =~= decls.drop_last().insert(i, Declaration::State(name)));
        assert(longer.last() == decls.last());
    }
}

/// Dead-state irrelevance, for a state without transitions: where one
/// graph text reads as another with one more state declared, every verdict
/// on the one is a verdict on the other. The same holds of a statement that
/// marks a state as accepting, which reads as the declaration of that
/// state.
pub proof fn law_isolated_state(
    pattern: Seq<char>,
    text: Seq<char>,
    longer: Seq<char>,
    i: int,
    name: Seq<char>,
    verdict: Verdict,
)
    requires
        decode(text) is Ok,
        0 <= i <= decode(text)->Ok_0.len(),
        decode(longer) == Ok::<Seq<Declaration>, ParseError>(
            decode(text)->Ok_0.insert(i, Declaration::State(name)),
        ),
    ensures
        judged(pattern, longer, verdict) == judged(pattern, text, verdict),
{
    lemma_state_declared(decode(text)->Ok_0, i, name);
}

/// Some transition of the automaton starts or ends at state `s`.
pub open spec fn is_endpoint(a: Automaton, s: int) -> bool {
    exists|e: int| 0 <= e < a.arcs.len() && ((#[trigger] a.arcs[e]).src == s || a.arcs[e].dst == s)
}

/// Every state of the automaton of a list of transitions is an endpoint of
/// one of them, every transition starts and ends at a state, and the
/// states have distinct names.
pub proof fn lemma_automaton_of(ts: Seq<Transition>)
    ensures
        automaton_of(ts).closed(),
        automaton_of(ts).names.no_duplicates(),
        automaton_of(ts).names.len() > 0,
        automaton_of(ts).arcs.len() == ts.len(),
        forall|e: int|
            0 <= e < ts.len() ==> automaton_of(ts).names[(#[trigger] automaton_of(ts).arcs[e]).src]
                == ts[e].from && automaton_of(ts).names[automaton_of(ts).arcs[e].dst] == ts[e].to,
        ts.len() > 0 ==> forall|s: int|
            0 <= s < automaton_of(ts).names.len() ==> #[trigger] is_endpoint(automaton_of(ts), s),
{
    let a = automaton_of(ts);
    if ts.len() > 0 {
        lemma_state_names_distinct(ts);
        assert forall|e: int| 0 <= e < ts.len() implies 0 <= (#[trigger] a.arcs[e]).src
            < a.names.len() && 0 <= a.arcs[e].dst < a.names.len() && a.names[a.arcs[e].src]
            == ts[e].from && a.names[a.arcs[e].dst] == ts[e].to by {
            lemma_state_names_hold(ts, e);
        }
        assert forall|s: int| 0 <= s < a.names.len() implies #[trigger] is_endpoint(a, s) by {
            let e = lemma_state_is_endpoint(ts, s);
            lemma_index_of_own(a.names, s);
            assert(a.arcs[e].src == s || a.arcs[e].dst == s);
        }
    } else {
        assert(a.names[0] == lone_state());
    }
}

/// Every name among the states of a list of transitions is an endpoint of
/// one of them.
proof fn lemma_state_is_endpoint(ts: Seq<Transition>, s: int) -> (e: int)
    requires
        0 <= s < state_names(ts).len(),
    ensures
        0 <= e < ts.len(),
        ts[e].from == state_names(ts)[s] || ts[e].to == state_names(ts)[s],
    decreases ts.len(),
{
    let before = state_names(ts.drop_last());
    lemma_state_names_distinct(ts.drop_last());
    lemma_added_once(before, ts.last().from);
    lemma_added_once(added_once(before, ts.last().from), ts.last().to);
    if s < before.len() {
        let e = lemma_state_is_endpoint(ts.drop_last(), s);
        assert(ts.drop_last()[e] == ts[e]);
        e
    } else {
        ts.len() - 1
    }
}

/// Acceptance is read off the transitions alone: in the automaton of a
/// list of transitions, the state that a transition starts from does not
/// accept, whatever the text says of it.
pub proof fn law_acceptance_is_structural(ts: Seq<Transition>, e: int)
    requires
        0 <= e < ts.len(),
    ensures
        !automaton_of(ts).accepting(automaton_of(ts).arcs[e].src),
        automaton_of(ts).names[automaton_of(ts).arcs[e].src] == ts[e].from,
{
    lemma_automaton_of(ts);
}

/// Some transition ends in the state `name`.
pub open spec fn is_target(ts: Seq<Transition>, name: Seq<char>) -> bool {
    exists|d: int| 0 <= d < ts.len() && (#[trigger] ts[d]).to == name
}

/// Every state that starts a transition also ends one, so that no state is
/// without an incoming transition.
pub open spec fn every_state_entered(ts: Seq<Transition>) -> bool {
    forall|e: int| 0 <= e < ts.len() ==> is_target(ts, (#[trigger] ts[e]).from)
}

/// The automaton of a list of transitions has no root exactly when it has
/// transitions and every state that starts one also ends one.
pub proof fn lemma_rootless(ts: Seq<Transition>)
    ensures
        automaton_of(ts).first_root() is None <==> ts.len() > 0 && every_state_entered(ts),
{
    let a = automaton_of(ts);
    lemma_automaton_of(ts);
    if ts.len() == 0 {
        assert(a.root(0));
    } else if every_state_entered(ts) {
        assert forall|s: int| 0 <= s < a.names.len() implies !a.root(s) by {
            assert(is_endpoint(a, s));
            let e = choose|e: int|
                0 <= e < a.arcs.len() && ((#[trigger] a.arcs[e]).src == s || a.arcs[e].dst == s);
            if a.arcs[e].dst != s {
                assert(is_target(ts, ts[e].from));
                let d = choose|d: int| 0 <= d < ts.len() && (#[trigger] ts[d]).to == ts[e].from;
                assert(a.names[a.arcs[d].dst] == a.names[s]);
                assert(a.arcs[d].dst == s);
            }
        }
    } else {
        let e = choose|e: int| 0 <= e < ts.len() && !is_target(ts, (#[trigger] ts[e]).from);
        let s = a.arcs[e].src;
        assert forall|d: int| 0 <= d < a.arcs.len() implies (#[trigger] a.arcs[d]).dst != s by {
            if a.arcs[d].dst == s {
                assert(ts[d].to == ts[e].from);
            }
        }
        assert(a.root(s));
        lemma_least_root(a, s);
    }
}

/// The first root of an automaton is a root, and no state before it is.
pub proof fn lemma_first_root_is_root(a: Automaton)
    requires
        a.first_root() is Some,
    ensures
        0 <= a.first_root()->0 < a.names.len(),
        a.root(a.first_root()->0),
        forall|r: int| 0 <= r < a.first_root()->0 ==> !a.root(r),
{
    let s = choose|s: int| 0 <= s < a.names.len() && a.root(s);
    lemma_least_root(a, s);
    let chosen = choose|t: int|
        0 <= t < a.names.len() && a.root(t) && forall|r: int| 0 <= r < t ==> !a.root(r);
    let least = a.first_root()->0;
    assert(chosen == least);
    lemma_least_exists(a, s);
}

/// Below a root there is a least root.
proof fn lemma_least_exists(a: Automaton, s: int)
    requires
        0 <= s < a.names.len(),
        a.root(s),
    ensures
        exists|t: int|
            0 <= t < a.names.len() && a.root(t) && forall|r: int| 0 <= r < t ==> !a.root(r),
    decreases s,
{
    if exists|r: int| 0 <= r < s && a.root(r) {
        let r = choose|r: int| 0 <= r < s && a.root(r);
        lemma_least_exists(a, r);
    } else {
        assert(0 <= s < a.names.len() && a.root(s) && forall|r: int| 0 <= r < s ==> !a.root(r));
    }
}

/// An automaton with a root has a first root.
pub proof fn lemma_least_root(a: Automaton, s: int)
    requires
        0 <= s < a.names.len(),
        a.root(s),
    ensures
        a.first_root() is Some,
        0 <= a.first_root()->0 <= s,
        a.root(a.first_root()->0),
    decreases s,
{
    if exists|r: int| 0 <= r < s && a.root(r) {
        let r = choose|r: int| 0 <= r < s && a.root(r);
        lemma_least_root(a, r);
    } else {
        assert(0 <= s < a.names.len() && a.root(s) && forall|r: int| 0 <= r < s ==> !a.root(r));
        let chosen = choose|t: int|
            0 <= t < a.names.len() && a.root(t) && forall|r: int| 0 <= r < t ==> !a.root(r);
        if chosen > s {
            assert(!a.root(s));
        }
    }
}

/// Structural failure: the verdict on a graph text that can be read is a
/// structural error exactly when the graph has transitions and no state
/// without an incoming one. It is then neither `Correct` nor a mismatch.
pub proof fn law_structural_failure(pattern: Seq<char>, text: Seq<char>, verdict: Verdict)
    requires
        decode(text) is Ok,
        judged(pattern, text, verdict),
    ensures
        verdict is StructuralError <==> declared_edges(decode(text)->Ok_0).len() > 0
            && every_state_entered(declared_edges(decode(text)->Ok_0)),
{
    lemma_rootless(declared_edges(decode(text)->Ok_0));
    lemma_reference_root(pattern);
}

/// The empty pattern compiles to no transition.
pub proof fn lemma_empty_pattern()
    ensures
        compiled(Seq::<char>::empty()).len() == 0,
{
    let ws = words(Seq::<char>::empty());
    assert(ws.len() == 1);
    assert(ws.drop_last().len() == 0);
    assert(words_edges(ws.drop_last()).len() == 0);
    assert(word_edges(ws.last(), 0).len() == 0);
}

/// Empty pattern, empty graph: the verdict on a graph text as an answer to
/// the empty pattern is `Correct` exactly when the text can be read and
/// holds no transition.
pub proof fn law_empty_pattern(text: Seq<char>, verdict: Verdict)
    requires
        judged(Seq::<char>::empty(), text, verdict),
    ensures
        verdict is Correct <==> decode(text) is Ok && declared_edges(
            decode(text)->Ok_0,
        ).len() == 0,
{
    lemma_empty_pattern();
    lemma_reference_root(Seq::<char>::empty());
    if decode(text) is Ok {
        let ts = declared_edges(decode(text)->Ok_0);
        let a = automaton_of(ts);
        let r = automaton_of(compiled(Seq::<char>::empty()));
        lemma_automaton_of(ts);
        assert(r.accepting(0));
        assert(r.reaches_accepting(0, 0));
        assert(accepts_here(r, 0));
        if ts.len() == 0 {
            assert(ts =~= compiled(Seq::<char>::empty()));
            assert(a == r);
            assert(a.root(0));
            lemma_least_root(a, 0);
            law_equivalent_to_itself(a, 0);
        } else if a.first_root() is Some {
            let s = a.first_root()->0;
            lemma_first_root_is_root(a);
            assert(is_endpoint(a, s));
            let e = choose|e: int|
                0 <= e < a.arcs.len() && ((#[trigger] a.arcs[e]).src == s || a.arcs[e].dst == s);
            assert(a.arcs[e].src == s);
            assert(!a.accepting(s));
            assert(pair_reached(a, r, s, 0, s, 0, 0));
            assert(pair_reachable(a, r, s, 0, s, 0));
            assert(conflict(a, r, s, 0));
        }
    }
}

} // verus!
