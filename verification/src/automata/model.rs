//! The graph model: named states, labelled transitions, and the
//! mathematical automaton that a state list and a transition list denote.

use vstd::prelude::*;

verus! {

/// A labelled transition between two named states.
#[derive(Debug)]
pub struct Edge {
    pub from: String,
    pub to: String,
    pub label: String,
}

/// What an [`Edge`] holds, as plain sequences of characters.
pub struct Transition {
    pub from: Seq<char>,
    pub to: Seq<char>,
    pub label: Seq<char>,
}

impl View for Edge {
    type V = Transition;

    open spec fn view(&self) -> Transition {
        Transition { from: self.from@, to: self.to@, label: self.label@ }
    }
}

impl Clone for Edge {
    fn clone(&self) -> (copy: Edge)
        ensures
            copy@ == self@,
    {
        Edge { from: self.from.clone(), to: self.to.clone(), label: self.label.clone() }
    }
}

/// The transitions that a list of edges holds, in the same order.
pub open spec fn transitions(edges: Seq<Edge>) -> Seq<Transition> {
    Seq::new(edges.len(), |i: int| edges[i]@)
}

/// A state. `ingoing` and `outgoing` hold the indices of the transitions
/// that end and start here; `sources[k]` is the index of the state that
/// transition `ingoing[k]` starts from, and `targets[k]` the index of the
/// state that transition `outgoing[k]` ends in.
#[derive(Debug)]
pub struct Node {
    pub name: String,
    pub ingoing: Vec<usize>,
    pub outgoing: Vec<usize>,
    pub sources: Vec<usize>,
    pub targets: Vec<usize>,
}

impl Node {
    /// A state accepts when no transition leaves it.
    pub fn is_accepting(&self) -> (accepting: bool)
        ensures
            accepting == (self.outgoing@.len() == 0),
    {
        self.outgoing.len() == 0
    }

    /// A state is a root when no transition enters it.
    pub fn is_root(&self) -> (root: bool)
        ensures
            root == (self.ingoing@.len() == 0),
    {
        self.ingoing.len() == 0
    }
}

/// A transition whose endpoints are state indices.
pub struct Arc {
    pub src: int,
    pub dst: int,
    pub label: Seq<char>,
}

/// An automaton as a mathematical value: the names of its states, and its
/// transitions in insertion order with their endpoints resolved to indices
/// into `names`.
pub struct Automaton {
    pub names: Seq<Seq<char>>,
    pub arcs: Seq<Arc>,
}

impl Automaton {
    /// Every transition starts and ends at a state of the automaton.
    pub open spec fn closed(self) -> bool {
        forall|e: int|
            0 <= e < self.arcs.len() ==> 0 <= (#[trigger] self.arcs[e]).src < self.names.len() && 0
                <= self.arcs[e].dst < self.names.len()
    }

    /// No transition leaves `s`.
    pub open spec fn accepting(self, s: int) -> bool {
        forall|e: int| 0 <= e < self.arcs.len() ==> (#[trigger] self.arcs[e]).src != s
    }

    /// No transition enters `s`.
    pub open spec fn root(self, s: int) -> bool {
        forall|e: int| 0 <= e < self.arcs.len() ==> (#[trigger] self.arcs[e]).dst != s
    }

    /// The first root in state order, if there is one.
    pub open spec fn first_root(self) -> Option<int> {
        if exists|s: int| 0 <= s < self.names.len() && self.root(s) {
            Some(
                choose|s: int|
                    0 <= s < self.names.len() && self.root(s) && forall|r: int|
                        0 <= r < s ==> !self.root(r),
            )
        } else {
            None
        }
    }

    /// An accepting state can be reached from `s` in at most `k` transitions.
    pub open spec fn reaches_accepting(self, s: int, k: nat) -> bool
        decreases k,
    {
        self.accepting(s) || (k > 0 && exists|e: int|
            0 <= e < self.arcs.len() && (#[trigger] self.arcs[e]).src == s
                && self.reaches_accepting(self.arcs[e].dst, (k - 1) as nat))
    }

    /// An accepting state can be reached from `s`.
    pub open spec fn live(self, s: int) -> bool {
        exists|k: nat| self.reaches_accepting(s, k)
    }

    /// Transition `e` leaves `s` and carries `label`.
    pub open spec fn arc_matches(self, e: int, s: int, label: Seq<char>) -> bool {
        0 <= e < self.arcs.len() && self.arcs[e].src == s && self.arcs[e].label == label
    }

    /// Transition `e` is the first, in insertion order, that leaves `s` with
    /// `label`.
    pub open spec fn is_first_arc(self, e: int, s: int, label: Seq<char>) -> bool {
        self.arc_matches(e, s, label) && forall|d: int|
            0 <= d < e ==> !self.arc_matches(d, s, label)
    }

    /// The first transition, in insertion order, that leaves `s` with
    /// `label`.
    pub open spec fn first_arc(self, s: int, label: Seq<char>) -> Option<int> {
        if exists|e: int| self.is_first_arc(e, s, label) {
            Some(choose|e: int| self.is_first_arc(e, s, label))
        } else {
            None
        }
    }

    /// Where `label` leads from `s`: the end of the first matching
    /// transition. Later transitions with the same start and label are
    /// shadowed.
    pub open spec fn target(self, s: int, label: Seq<char>) -> Option<int> {
        match self.first_arc(s, label) {
            Some(e) => Some(self.arcs[e].dst),
            None => None,
        }
    }

    /// Where `label` leads from `s`, a transition into a dead state counting
    /// as no transition.
    pub open spec fn live_target(self, s: int, label: Seq<char>) -> Option<int> {
        match self.target(s, label) {
            Some(t) => if self.live(t) {
                Some(t)
            } else {
                None
            },
            None => None,
        }
    }
}

/// The names of a list of states, in the same order.
pub open spec fn names_of(nodes: Seq<Node>) -> Seq<Seq<char>> {
    Seq::new(nodes.len(), |i: int| nodes[i].name@)
}

/// The automaton that a state list and a transition list denote: each
/// endpoint is resolved to the index of the state of that name.
pub open spec fn model(nodes: Seq<Node>, edges: Seq<Edge>) -> Automaton {
    let names = names_of(nodes);
    Automaton {
        names,
        arcs: Seq::new(
            edges.len(),
            |e: int|
                Arc {
                    src: names.index_of(edges[e].from@),
                    dst: names.index_of(edges[e].to@),
                    label: edges[e].label@,
                },
        ),
    }
}

/// `node.outgoing` lists, in increasing order, exactly the transitions
/// that leave state `i`, and `node.targets` the states they end in.
pub open spec fn lists_outgoing(node: Node, i: int, arcs: Seq<Arc>) -> bool {
    &&& node.targets@.len() == node.outgoing@.len()
    &&& forall|j: int, k: int|
        0 <= j < k < node.outgoing@.len() ==> node.outgoing@[j] < node.outgoing@[k]
    &&& forall|k: int|
        0 <= k < node.outgoing@.len() ==> (#[trigger] node.outgoing@[k]) < arcs.len()
            && arcs[node.outgoing@[k] as int].src == i && arcs[node.outgoing@[k] as int].dst
            == node.targets@[k]
    &&& forall|e: int|
        0 <= e < arcs.len() && (#[trigger] arcs[e]).src == i ==> exists|k: int|
            0 <= k < node.outgoing@.len() && node.outgoing@[k] == e
}

/// `node.ingoing` lists, in increasing order, exactly the transitions that
/// enter state `i`, and `node.sources` the states they start from.
pub open spec fn lists_ingoing(node: Node, i: int, arcs: Seq<Arc>) -> bool {
    &&& node.sources@.len() == node.ingoing@.len()
    &&& forall|j: int, k: int|
        0 <= j < k < node.ingoing@.len() ==> node.ingoing@[j] < node.ingoing@[k]
    &&& forall|k: int|
        0 <= k < node.ingoing@.len() ==> (#[trigger] node.ingoing@[k]) < arcs.len()
            && arcs[node.ingoing@[k] as int].dst == i && arcs[node.ingoing@[k] as int].src
            == node.sources@[k]
    &&& forall|e: int|
        0 <= e < arcs.len() && (#[trigger] arcs[e]).dst == i ==> exists|k: int|
            0 <= k < node.ingoing@.len() && node.ingoing@[k] == e
}

/// The state list and the transition list fit together: state names are
/// distinct, every endpoint of a transition names a state, and each state
/// lists exactly the transitions that touch it.
pub open spec fn well_formed(nodes: Seq<Node>, edges: Seq<Edge>) -> bool {
    &&& names_of(nodes).no_duplicates()
    &&& forall|e: int|
        0 <= e < edges.len() ==> names_of(nodes).contains((#[trigger] edges[e]).from@)
            && names_of(nodes).contains(edges[e].to@)
    &&& forall|i: int|
        0 <= i < nodes.len() ==> lists_outgoing(#[trigger] nodes[i], i, model(nodes, edges).arcs)
            && lists_ingoing(nodes[i], i, model(nodes, edges).arcs)
}

/// `items`, with `item` added at the end unless it is there already.
pub open spec fn added_once(items: Seq<Seq<char>>, item: Seq<char>) -> Seq<Seq<char>> {
    if items.contains(item) {
        items
    } else {
        items.push(item)
    }
}

/// Adding an item once keeps the list free of duplicates, keeps what was
/// there in place, and makes the item present.
pub proof fn lemma_added_once(items: Seq<Seq<char>>, item: Seq<char>)
    requires
        items.no_duplicates(),
    ensures
        added_once(items, item).no_duplicates(),
        added_once(items, item).contains(item),
        items.len() <= added_once(items, item).len() <= items.len() + 1,
        forall|i: int| 0 <= i < items.len() ==> added_once(items, item)[i] == items[i],
        forall|other: Seq<char>| items.contains(other) ==> added_once(items, item).contains(other),
{
    let grown = added_once(items, item);
    if items.contains(item) {
    } else {
        assert(grown[items.len() as int] == item);
        assert forall|other: Seq<char>| items.contains(other) implies grown.contains(other) by {
            let i = items.index_of(other);
            assert(grown[i] == other);
        }
    }
}

/// The keys of the map are the items of the list.
pub open spec fn keyed_by<V>(map: Map<Seq<char>, V>, items: Seq<Seq<char>>) -> bool {
    forall|item: Seq<char>| #[trigger] map.contains_key(item) <==> items.contains(item)
}

/// A map that is keyed by a list stays so when an item is entered in the
/// map and put at the end of the list.
pub proof fn lemma_keyed_push<V>(
    map: Map<Seq<char>, V>,
    items: Seq<Seq<char>>,
    item: Seq<char>,
    value: V,
)
    requires
        keyed_by(map, items),
    ensures
        keyed_by(map.insert(item, value), items.push(item)),
{
    let grown = items.push(item);
    assert(grown[items.len() as int] == item);
    assert forall|other: Seq<char>| #[trigger]
        map.insert(item, value).contains_key(other) <==> grown.contains(other) by {
        if items.contains(other) {
            let i = items.index_of(other);
            assert(grown[i] == other);
        }
        if grown.contains(other) && other != item {
            let i = grown.index_of(other);
            assert(items[i] == other);
        }
    }
}

/// The map sends each name to its position in `names`, and holds nothing
/// else.
pub open spec fn indexes(map: Map<Seq<char>, usize>, names: Seq<Seq<char>>) -> bool {
    &&& keyed_by(map, names)
    &&& forall|i: int| 0 <= i < names.len() ==> map[#[trigger] names[i]] == i
}

/// A name that the map holds stands in `names` where the map says.
pub proof fn lemma_indexes_found(
    map: Map<Seq<char>, usize>,
    names: Seq<Seq<char>>,
    name: Seq<char>,
)
    requires
        indexes(map, names),
        map.contains_key(name),
    ensures
        map[name] < names.len(),
        names[map[name] as int] == name,
        added_once(names, name) == names,
{
    let i = names.index_of(name);
    assert(names[i] == name);
}

/// A map that sends the names to their positions stays so when a new name
/// is entered with the next position and put at the end of the names.
pub proof fn lemma_indexes_push(
    map: Map<Seq<char>, usize>,
    names: Seq<Seq<char>>,
    name: Seq<char>,
    index: usize,
)
    requires
        indexes(map, names),
        !map.contains_key(name),
        index == names.len(),
    ensures
        indexes(map.insert(name, index), names.push(name)),
        added_once(names, name) == names.push(name),
{
    lemma_keyed_push(map, names, name, index);
}

/// In a list without duplicates, a name is found at its own position.
pub proof fn lemma_index_of_own(names: Seq<Seq<char>>, i: int)
    requires
        names.no_duplicates(),
        0 <= i < names.len(),
    ensures
        names.index_of(names[i]) == i,
{
    let j = names.index_of(names[i]);
    assert(0 <= j < names.len() && names[j] == names[i]);
}

/// In a well-formed automaton every transition starts and ends at a state,
/// and a state without outgoing transitions is one that no transition
/// leaves.
pub proof fn lemma_model_closed(nodes: Seq<Node>, edges: Seq<Edge>)
    requires
        well_formed(nodes, edges),
    ensures
        model(nodes, edges).closed(),
        model(nodes, edges).names.len() == nodes.len(),
        model(nodes, edges).arcs.len() == edges.len(),
        forall|s: int|
            0 <= s < nodes.len() ==> (model(nodes, edges).accepting(s) <==> (
            #[trigger] nodes[s]).outgoing@.len() == 0),
        forall|s: int|
            0 <= s < nodes.len() ==> (model(nodes, edges).root(s) <==> (
            #[trigger] nodes[s]).ingoing@.len() == 0),
{
    let a = model(nodes, edges);
    let names = names_of(nodes);
    assert forall|e: int| 0 <= e < a.arcs.len() implies 0 <= (#[trigger] a.arcs[e]).src
        < a.names.len() && 0 <= a.arcs[e].dst < a.names.len() by {
        assert(names.contains(edges[e].from@));
        assert(names.contains(edges[e].to@));
    }
    assert forall|s: int| 0 <= s < nodes.len() implies (a.accepting(s) <==> (
    #[trigger] nodes[s]).outgoing@.len() == 0) by {
        assert(lists_outgoing(nodes[s], s, a.arcs));
        if nodes[s].outgoing@.len() > 0 {
            let e = nodes[s].outgoing@[0] as int;
            assert(a.arcs[e].src == s);
        }
    }
    assert forall|s: int| 0 <= s < nodes.len() implies (a.root(s) <==> (
    #[trigger] nodes[s]).ingoing@.len() == 0) by {
        assert(lists_ingoing(nodes[s], s, a.arcs));
        if nodes[s].ingoing@.len() > 0 {
            let e = nodes[s].ingoing@[0] as int;
            assert(a.arcs[e].dst == s);
        }
    }
}

} // verus!
