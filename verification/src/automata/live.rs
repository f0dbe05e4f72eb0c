//! Liveness: which states can still reach an accepting state.

use crate::automata::model::{
    lemma_model_closed, lists_ingoing, model, well_formed, Automaton, Edge, Node,
};
use vstd::prelude::*;

verus! {

/// How many entries of `marks` are still `false`.
pub open spec fn unmarked(marks: Seq<bool>) -> nat
    decreases marks.len(),
{
    if marks.len() == 0 {
        0
    } else {
        unmarked(marks.drop_last()) + if marks.last() {
            0nat
        } else {
            1nat
        }
    }
}

/// Marking one unmarked entry leaves one fewer.
pub proof fn lemma_mark(marks: Seq<bool>, i: int)
    requires
        0 <= i < marks.len(),
        !marks[i],
    ensures
        unmarked(marks.update(i, true)) + 1 == unmarked(marks),
    decreases marks.len(),
{
    let marked = marks.update(i, true);
    if i == marks.len() - 1 {
        assert(marked.drop_last() =~= marks.drop_last());
    } else {
        assert(marked.drop_last() =~= marks.drop_last().update(i, true));
        lemma_mark(marks.drop_last(), i);
    }
}

/// A state that reaches acceptance within `k` transitions also does so
/// within `k + 1`, and so does the start of any transition into it.
pub proof fn lemma_reaches_through(a: Automaton, e: int, k: nat)
    requires
        0 <= e < a.arcs.len(),
        a.reaches_accepting(a.arcs[e].dst, k),
    ensures
        a.reaches_accepting(a.arcs[e].src, k + 1),
{
    assert(a.arcs[e].src == a.arcs[e].src);
}

/// A set of marked states that holds every accepting state, and with a
/// state the start of every transition into it, holds every live state.
proof fn lemma_marks_complete(a: Automaton, marks: Seq<bool>, s: int, k: nat)
    requires
        a.closed(),
        marks.len() == a.names.len(),
        forall|t: int| 0 <= t < marks.len() && a.accepting(t) ==> marks[t],
        forall|e: int|
            0 <= e < a.arcs.len() && marks[(#[trigger] a.arcs[e]).dst] ==> marks[a.arcs[e].src],
        0 <= s < marks.len(),
        a.reaches_accepting(s, k),
    ensures
        marks[s],
    decreases k,
{
    if !a.accepting(s) {
        let e = choose|e: int|
            0 <= e < a.arcs.len() && (#[trigger] a.arcs[e]).src == s && a.reaches_accepting(
                a.arcs[e].dst,
                (k - 1) as nat,
            );
        lemma_marks_complete(a, marks, a.arcs[e].dst, (k - 1) as nat);
    }
}

/// Computes, for each state, whether an accepting state can be reached from
/// it: a backward traversal from the accepting states along incoming
/// transitions, with an explicit work list.
pub fn compute_live(nodes: &[Node], edges: &[Edge]) -> (live: Vec<bool>)
    requires
        well_formed(nodes@, edges@),
    ensures
        live@.len() == nodes@.len(),
        forall|s: int| 0 <= s < nodes@.len() ==> live@[s] == model(nodes@, edges@).live(s),
{
    let ghost a = model(nodes@, edges@);
    proof {
        lemma_model_closed(nodes@, edges@);
    }
    let n: usize = nodes.len();
    let mut live: Vec<bool> = Vec::new();
    let mut stack: Vec<usize> = Vec::new();
    let mut i: usize = 0;
    while i < n
        invariant
            i <= n,
            n == nodes@.len(),
            live@.len() == i,
            forall|s: int| 0 <= s < i ==> live@[s] == a.accepting(s),
            forall|j: int| 0 <= j < stack@.len() ==> stack@[j] < i && live@[stack@[j] as int],
            forall|s: int| 0 <= s < i && live@[s] ==> stack@.contains(s as usize),
            forall|s: int|
                0 <= s < nodes@.len() ==> (a.accepting(s) <==> (#[trigger] nodes@[s]).outgoing@.len()
                    == 0),
        decreases n - i,
    {
        let accepting = nodes[i].is_accepting();
        live.push(accepting);
        if accepting {
            let ghost before = stack@;
            stack.push(i);
            proof {
                assert(stack@[before.len() as int] == i);
                assert forall|s: int| 0 <= s < i + 1 && live@[s] implies stack@.contains(
                    s as usize,
                ) by {
                    if s < i {
                        let j = before.index_of(s as usize);
                        assert(stack@[j] == s);
                    }
                }
            }
        }
        i += 1;
    }
    let ghost mut done: Set<int> = Set::empty();
    proof {
        assert forall|s: int| 0 <= s < n && live@[s] implies a.live(s) by {
            assert(a.reaches_accepting(s, 0));
        }
    }
    loop
        invariant
            n == nodes@.len(),
            live@.len() == n,
            a == model(nodes@, edges@),
            well_formed(nodes@, edges@),
            a.closed(),
            a.names.len() == n,
            forall|s: int| 0 <= s < n && a.accepting(s) ==> live@[s],
            forall|s: int| 0 <= s < n && live@[s] ==> a.live(s),
            forall|j: int| 0 <= j < stack@.len() ==> stack@[j] < n && live@[stack@[j] as int],
            forall|s: int|
                0 <= s < n && live@[s] ==> done.contains(s) || stack@.contains(s as usize),
            forall|e: int|
                0 <= e < a.arcs.len() && done.contains((#[trigger] a.arcs[e]).dst)
                    ==> live@[a.arcs[e].src],
        decreases unmarked(live@), stack@.len(),
    {
        let ghost stack_before = stack@;
        let ghost live_before = live@;
        let s: usize = match stack.pop() {
            Some(s) => s,
            None => {
                proof {
                    assert forall|t: int| 0 <= t < n implies live@[t] == a.live(t) by {
                        if a.live(t) {
                            let k = choose|k: nat| a.reaches_accepting(t, k);
                            assert forall|e: int|
                                0 <= e < a.arcs.len() && live@[(#[trigger] a.arcs[e]).dst]
                                    implies live@[a.arcs[e].src] by {
                                assert(done.contains(a.arcs[e].dst));
                            }
                            lemma_marks_complete(a, live@, t, k);
                        }
                    }
                }
                return live;
            },
        };
        proof {
            assert(stack_before[stack_before.len() - 1] == s);
            assert(lists_ingoing(nodes@[s as int], s as int, a.arcs));
            assert forall|t: int| 0 <= t < n && live@[t] implies done.contains(t)
                || stack@.contains(t as usize) || t == s by {
                if !done.contains(t) && t != s {
                    let j = stack_before.index_of(t as usize);
                    assert(stack@[j] == t);
                }
            }
        }
        let node = &nodes[s];
        proof {
            assert forall|j: int| 0 <= j < node.sources@.len() implies node.sources@[j] < n by {
                let e = node.ingoing@[j] as int;
                assert(a.arcs[e].src == node.sources@[j]);
            }
        }
        let mut k: usize = 0;
        while k < node.ingoing.len()
            invariant
                n == nodes@.len(),
                live@.len() == n,
                s < n,
                *node == nodes@[s as int],
                k <= node.ingoing@.len(),
                a.closed(),
                a.names.len() == n,
                lists_ingoing(*node, s as int, a.arcs),
                forall|j: int| 0 <= j < node.sources@.len() ==> node.sources@[j] < n,
                live_before.len() == n,
                live@[s as int],
                forall|t: int| 0 <= t < n && a.accepting(t) ==> live@[t],
                forall|t: int| 0 <= t < n && live@[t] ==> a.live(t),
                forall|t: int| 0 <= t < n && live_before[t] ==> live@[t],
                forall|j: int| 0 <= j < stack@.len() ==> stack@[j] < n && live@[stack@[j] as int],
                forall|t: int|
                    0 <= t < n && live@[t] ==> done.contains(t) || stack@.contains(t as usize) || t
                        == s,
                forall|j: int| 0 <= j < k ==> live@[node.sources@[j] as int],
                unmarked(live@) + stack@.len() + 1 == unmarked(live_before) + stack_before.len(),
                unmarked(live@) <= unmarked(live_before),
            decreases node.ingoing@.len() - k,
        {
            let from: usize = node.sources[k];
            proof {
                let e = node.ingoing@[k as int] as int;
                assert(a.arcs[e].src == from);
                assert(a.arcs[e].dst == s);
            }
            if !live[from] {
                let ghost stack_mid = stack@;
                proof {
                    lemma_mark(live@, from as int);
                    let e = node.ingoing@[k as int] as int;
                    assert(a.live(s as int));
                    let j = choose|j: nat| a.reaches_accepting(s as int, j);
                    lemma_reaches_through(a, e, j);
                    assert(a.live(from as int));
                }
                live.set(from, true);
                stack.push(from);
                proof {
                    assert(stack@[stack_mid.len() as int] == from);
                    assert forall|t: int| 0 <= t < n && live@[t] implies done.contains(t)
                        || stack@.contains(t as usize) || t == s by {
                        if !done.contains(t) && t != s && t != from {
                            let j = stack_mid.index_of(t as usize);
                            assert(stack@[j] == t);
                        }
                    }
                }
            }
            k += 1;
        }
        proof {
            let ghost done_before = done;
            done = done.insert(s as int);
            assert forall|e: int|
                0 <= e < a.arcs.len() && done.contains((#[trigger] a.arcs[e]).dst)
                    implies live@[a.arcs[e].src] by {
                let t = a.arcs[e].dst;
                if t == s {
                    let j = choose|j: int| 0 <= j < node.ingoing@.len() && node.ingoing@[j] == e;
                    assert(a.arcs[e].src == node.sources@[j]);
                } else {
                    assert(done_before.contains(t));
                    assert(live_before[a.arcs[e].src]);
                }
            }
        }
    }
}

} // verus!
