//! The shape of a compiled pattern: one path for each alternative, and
//! every state on the way to an accepting state.

use crate::automata::compile::{
    char_edges, compiled, lemma_decimal_nonempty, state_name, word_edges, words, words_edges,
};
use crate::automata::derive::state_names;
use crate::automata::grade::automaton_of;
use crate::automata::laws::{is_endpoint, lemma_automaton_of};
use crate::automata::live::lemma_reaches_through;
use crate::automata::model::{lemma_index_of_own, Transition};
use crate::text::{decimal, digit};
use vstd::prelude::*;

verus! {

/// The number that a digit stands for.
pub open spec fn digit_value(c: char) -> int {
    c as int - '0' as int
}

/// The number that a numeral stands for.
pub open spec fn numeral_value(s: Seq<char>) -> int
    decreases s.len(),
{
    if s.len() == 0 {
        0
    } else {
        numeral_value(s.drop_last()) * 10 + digit_value(s.last())
    }
}

/// A numeral stands for its number, and holds digits only.
pub proof fn lemma_decimal(n: nat)
    ensures
        numeral_value(decimal(n)) == n,
        forall|k: int| 0 <= k < decimal(n).len() ==> '0' <= (#[trigger] decimal(n)[k]) <= '9',
    decreases n,
{
    if n < 10 {
        let s = decimal(n);
        assert(s.drop_last() =~= Seq::<char>::empty());
        assert(numeral_value(s.drop_last()) == 0);
        assert(digit(n as int) as int == 48 + n);
    } else {
        lemma_decimal(n / 10);
        let s = decimal(n);
        assert(s.drop_last() =~= decimal(n / 10));
        assert(digit((n % 10) as int) as int == 48 + n % 10);
        assert forall|k: int| 0 <= k < s.len() implies '0' <= (#[trigger] s[k]) <= '9' by {
            if k < s.len() - 1 {
                assert(s[k] == decimal(n / 10)[k]);
            }
        }
    }
}

/// Different numbers have different numerals.
pub proof fn lemma_decimal_injective(a: nat, b: nat)
    requires
        decimal(a) == decimal(b),
    ensures
        a == b,
{
    lemma_decimal(a);
    lemma_decimal(b);
}

/// Different places on the paths have different names, and none but the
/// first place of a path has the name of the shared first state.
pub proof fn lemma_state_name_injective(id: nat, pos: nat, id2: nat, pos2: nat)
    requires
        pos >= 1,
        state_name(id, pos) == state_name(id2, pos2),
    ensures
        pos2 >= 1,
        id == id2,
        pos == pos2,
{
    lemma_decimal(id);
    lemma_decimal(pos);
    lemma_decimal(id2);
    lemma_decimal(pos2);
    lemma_decimal_nonempty(id);
    lemma_decimal_nonempty(pos);
    lemma_decimal_nonempty(id2);
    lemma_decimal_nonempty(pos2);
    let s = state_name(id, pos);
    let n1 = decimal(id).len() as int;
    assert(s.len() >= 3);
    if pos2 >= 1 {
        let s2 = state_name(id2, pos2);
        let n2 = decimal(id2).len() as int;
        assert(s[n1] == '-');
        assert(s2[n2] == '-');
        if n1 < n2 {
            assert(s2[n1] == decimal(id2)[n1]);
        } else if n2 < n1 {
            assert(s[n2] == decimal(id)[n2]);
        } else {
            assert(decimal(id) =~= s.subrange(0, n1));
            assert(decimal(id2) =~= s2.subrange(0, n2));
            assert(decimal(pos) =~= s.subrange(n1 + 1, s.len() as int));
            assert(decimal(pos2) =~= s2.subrange(n2 + 1, s2.len() as int));
            lemma_decimal_injective(id, id2);
            lemma_decimal_injective(pos, pos2);
        }
    }
}

/// The transition leads from place `pos` of path `id` to the next place.
pub open spec fn on_path(t: Transition, id: nat, pos: nat) -> bool {
    t.from == state_name(id, pos) && t.to == state_name(id, pos + 1)
}

/// The transition is a step of the path `id` of `word`.
pub open spec fn steps_in(word: Seq<char>, id: nat, t: Transition) -> bool {
    exists|pos: nat| pos < word.len() && #[trigger] on_path(t, id, pos)
}

/// The transition is a step of the path of word `id` among the words.
pub open spec fn steps(ws: Seq<Seq<char>>, t: Transition) -> bool {
    exists|id: nat, pos: nat| id < ws.len() && pos < ws[id as int].len() && #[trigger] on_path(t, id, pos)
}

/// Some transition of the list is the step from place `pos` of path `id`.
pub open spec fn has_step(ts: Seq<Transition>, id: nat, pos: nat) -> bool {
    exists|e: int| 0 <= e < ts.len() && on_path(#[trigger] ts[e], id, pos)
}

/// The transitions of a word are the steps of its path, and every step of
/// the path is among them.
pub proof fn lemma_word_shape(word: Seq<char>, id: nat)
    ensures
        forall|e: int|
            0 <= e < word_edges(word, id).len() ==> steps_in(
                word,
                id,
                #[trigger] word_edges(word, id)[e],
            ),
        forall|pos: nat| pos < word.len() ==> #[trigger] has_step(word_edges(word, id), id, pos),
    decreases word.len(),
{
    if word.len() > 0 {
        let shorter = word.drop_last();
        let last_pos = (word.len() - 1) as nat;
        let before = word_edges(shorter, id);
        let last = char_edges(id, last_pos, word.last());
        let all = word_edges(word, id);
        lemma_word_shape(shorter, id);
        assert(on_path(last[0], id, last_pos));
        assert forall|e: int| 0 <= e < all.len() implies steps_in(word, id, #[trigger] all[e]) by {
            if e < before.len() {
                assert(all[e] == before[e]);
                assert(steps_in(shorter, id, before[e]));
                let pos = choose|pos: nat| pos < shorter.len() && #[trigger] on_path(before[e], id, pos);
                assert(on_path(all[e], id, pos));
            } else {
                assert(all[e] == last[e - before.len()]);
                assert(on_path(all[e], id, last_pos));
            }
        }
        assert forall|pos: nat| pos < word.len() implies #[trigger] has_step(all, id, pos) by {
            if pos < shorter.len() {
                assert(has_step(before, id, pos));
                let e = choose|e: int| 0 <= e < before.len() && on_path(#[trigger] before[e], id, pos);
                assert(all[e] == before[e]);
            } else {
                assert(all[before.len() as int] == last[0]);
            }
        }
    }
}

/// The transitions of a list of words are the steps of the paths of the
/// words, and every step of every path is among them.
pub proof fn lemma_words_shape(ws: Seq<Seq<char>>)
    ensures
        forall|e: int| 0 <= e < words_edges(ws).len() ==> steps(ws, #[trigger] words_edges(ws)[e]),
        forall|id: nat, pos: nat|
            id < ws.len() && pos < ws[id as int].len() ==> #[trigger] has_step(
                words_edges(ws),
                id,
                pos,
            ),
    decreases ws.len(),
{
    if ws.len() > 0 {
        let shorter = ws.drop_last();
        let last_id = (ws.len() - 1) as nat;
        let before = words_edges(shorter);
        let last = word_edges(ws.last(), last_id);
        let all = words_edges(ws);
        lemma_words_shape(shorter);
        lemma_word_shape(ws.last(), last_id);
        assert forall|e: int| 0 <= e < all.len() implies steps(ws, #[trigger] all[e]) by {
            if e < before.len() {
                assert(all[e] == before[e]);
                assert(steps(shorter, before[e]));
                let (id, pos) = choose|id: nat, pos: nat|
                    id < shorter.len() && pos < shorter[id as int].len() && #[trigger] on_path(
                        before[e],
                        id,
                        pos,
                    );
                assert(shorter[id as int] == ws[id as int]);
                assert(on_path(all[e], id, pos));
            } else {
                let d = e - before.len();
                assert(all[e] == last[d]);
                assert(steps_in(ws.last(), last_id, last[d]));
                let pos = choose|pos: nat| pos < ws.last().len() && #[trigger] on_path(last[d], last_id, pos);
                assert(on_path(all[e], last_id, pos));
            }
        }
        assert forall|id: nat, pos: nat|
            id < ws.len() && pos < ws[id as int].len() implies #[trigger] has_step(
            all,
            id,
            pos,
        ) by {
            if id < shorter.len() {
                assert(shorter[id as int] == ws[id as int]);
                assert(has_step(before, id, pos));
                let e = choose|e: int| 0 <= e < before.len() && on_path(#[trigger] before[e], id, pos);
                assert(all[e] == before[e]);
            } else {
                assert(has_step(last, id, pos));
                let e = choose|e: int| 0 <= e < last.len() && on_path(#[trigger] last[e], id, pos);
                assert(all[before.len() + e] == last[e]);
            }
        }
    }
}

/// Every place of a path after the first is a state of the automaton of
/// the words, and an accepting state can be reached from it: the end of
/// its path.
pub proof fn lemma_place_live(ws: Seq<Seq<char>>, id: nat, pos: nat)
    requires
        id < ws.len(),
        1 <= pos <= ws[id as int].len(),
    ensures
        state_names(words_edges(ws)).contains(state_name(id, pos)),
        automaton_of(words_edges(ws)).names == state_names(words_edges(ws)),
        automaton_of(words_edges(ws)).live(
            state_names(words_edges(ws)).index_of(state_name(id, pos)),
        ),
    decreases ws[id as int].len() - pos,
{
    let ts = words_edges(ws);
    let a = automaton_of(ts);
    let name = state_name(id, pos);
    lemma_words_shape(ws);
    lemma_automaton_of(ts);
    assert(has_step(ts, id, (pos - 1) as nat));
    let e_in = choose|e: int| 0 <= e < ts.len() && on_path(#[trigger] ts[e], id, (pos - 1) as nat);
    let s = a.arcs[e_in].dst;
    assert(a.names[s] == name);
    lemma_index_of_own(a.names, s);
    if pos == ws[id as int].len() {
        assert forall|e: int| 0 <= e < a.arcs.len() implies (#[trigger] a.arcs[e]).src != s by {
            if a.arcs[e].src == s {
                assert(ts[e].from == name);
                assert(steps(ws, ts[e]));
                let (id2, pos2) = choose|id2: nat, pos2: nat|
                    id2 < ws.len() && pos2 < ws[id2 as int].len() && #[trigger] on_path(
                        ts[e],
                        id2,
                        pos2,
                    );
                lemma_state_name_injective(id, pos, id2, pos2);
            }
        }
        assert(a.reaches_accepting(s, 0));
    } else {
        assert(has_step(ts, id, pos));
        let e_out = choose|e: int| 0 <= e < ts.len() && on_path(#[trigger] ts[e], id, pos);
        lemma_place_live(ws, id, pos + 1);
        let next = a.arcs[e_out].dst;
        assert(a.names[next] == state_name(id, pos + 1));
        lemma_index_of_own(a.names, next);
        assert(a.names[a.arcs[e_out].src] == a.names[s]);
        assert(a.arcs[e_out].src == s);
        let k = choose|k: nat| a.reaches_accepting(next, k);
        lemma_reaches_through(a, e_out, k);
    }
}

/// In the automaton of a pattern an accepting state can be reached from
/// every state.
pub proof fn law_compiled_states_are_live(pattern: Seq<char>, s: int)
    requires
        0 <= s < automaton_of(compiled(pattern)).names.len(),
    ensures
        automaton_of(compiled(pattern)).live(s),
{
    let ws = words(pattern);
    let ts = compiled(pattern);
    let a = automaton_of(ts);
    lemma_automaton_of(ts);
    if ts.len() == 0 {
        assert(a.accepting(s));
        assert(a.reaches_accepting(s, 0));
    } else {
        lemma_words_shape(ws);
        assert(is_endpoint(a, s));
        let e = choose|e: int|
            0 <= e < a.arcs.len() && ((#[trigger] a.arcs[e]).src == s || a.arcs[e].dst == s);
        assert(steps(ws, ts[e]));
        let (id, pos) = choose|id: nat, pos: nat|
            id < ws.len() && pos < ws[id as int].len() && #[trigger] on_path(ts[e], id, pos);
        lemma_place_live(ws, id, pos + 1);
        let next = a.arcs[e].dst;
        assert(a.names[next] == state_name(id, pos + 1));
        lemma_index_of_own(a.names, next);
        if a.arcs[e].dst != s {
            let k = choose|k: nat| a.reaches_accepting(next, k);
            lemma_reaches_through(a, e, k);
        }
    }
}

} // verus!
