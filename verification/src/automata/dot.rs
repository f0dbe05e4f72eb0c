//! Reading a graph text into a graph, and the transitions of that graph.

use crate::automata::lexer::ParseError;
use crate::automata::model::{
    added_once, indexes, lemma_added_once, lemma_indexes_found, lemma_indexes_push, transitions,
    Edge, Transition,
};
use crate::automata::parser::{declarations, decode, parse_text, Declaration, Statement};
use petgraph::graph::{Graph, NodeIndex};
use petgraph::visit::EdgeRef;
use petgraph::Directed;
use vstd::hash_map::StringHashMap;
use vstd::prelude::*;

verus! {

/// The graph type of `petgraph`, with node and edge weights.
#[verifier::external_type_specification]
#[verifier::external_body]
#[verifier::reject_recursive_types(N)]
#[verifier::reject_recursive_types(E)]
#[verifier::reject_recursive_types(Ty)]
#[verifier::reject_recursive_types(Ix)]
pub struct ExGraph<N, E, Ty, Ix>(Graph<N, E, Ty, Ix>);

/// The marker of `petgraph` for graphs with directed edges.
#[verifier::external_type_specification]
#[verifier::external_body]
pub struct ExDirected(Directed);

/// The weights of the nodes of a graph, in index order.
pub uninterp spec fn graph_nodes(g: Graph<String, String, Directed, usize>) -> Seq<Seq<char>>;

/// The edges of a graph, in index order: for each the index of its source
/// node, the index of its target node, and its weight.
pub uninterp spec fn graph_edges(g: Graph<String, String, Directed, usize>) -> Seq<
    (int, int, Seq<char>),
>;

/// `Graph::default` of `petgraph`: a graph without nodes and without edges.
#[verifier::external_body]
fn graph_new() -> (g: Graph<String, String, Directed, usize>)
    ensures
        graph_nodes(g) == Seq::<Seq<char>>::empty(),
        graph_edges(g) == Seq::<(int, int, Seq<char>)>::empty(),
{
    Graph::default()
}

/// `Graph::node_count` of `petgraph`: the number of nodes.
#[verifier::external_body]
fn graph_node_count(g: &Graph<String, String, Directed, usize>) -> (count: usize)
    ensures
        count == graph_nodes(*g).len(),
{
    g.node_count()
}

/// `Graph::add_node` of `petgraph`: the new node comes after the nodes that
/// were there and gets the next index; the edges stay as they were. With
/// indices of type `usize` the graph is never full.
#[verifier::external_body]
fn graph_add_node(g: &mut Graph<String, String, Directed, usize>, name: String) -> (index: usize)
    ensures
        graph_nodes(*final(g)) == graph_nodes(*old(g)).push(name@),
        graph_edges(*final(g)) == graph_edges(*old(g)),
        index == graph_nodes(*old(g)).len(),
{
    g.add_node(name).index()
}

/// `Graph::add_edge` of `petgraph`: the new edge comes after the edges that
/// were there; the nodes stay as they were. The method panics where an
/// endpoint is no node of the graph, which `requires` leaves out. With
/// indices of type `usize` the graph is never full.
#[verifier::external_body]
fn graph_add_edge(
    g: &mut Graph<String, String, Directed, usize>,
    from: usize,
    to: usize,
    label: String,
)
    requires
        from < graph_nodes(*old(g)).len(),
        to < graph_nodes(*old(g)).len(),
    ensures
        graph_nodes(*final(g)) == graph_nodes(*old(g)),
        graph_edges(*final(g)) == graph_edges(*old(g)).push((from as int, to as int, label@)),
{
    g.add_edge(NodeIndex::new(from), NodeIndex::new(to), label);
}

/// `Graph::edge_references` of `petgraph`, with `EdgeRef::source`, `target`
/// and `weight` on each item: the edges in index order, each with the
/// indices of its two nodes and a copy of its weight.
#[verifier::external_body]
fn graph_edge_list(g: &Graph<String, String, Directed, usize>) -> (list: Vec<
    (usize, usize, String),
>)
    ensures
        list@.len() == graph_edges(*g).len(),
        forall|e: int|
            0 <= e < list@.len() ==> {
                &&& (#[trigger] list@[e]).0 == graph_edges(*g)[e].0
                &&& list@[e].1 == graph_edges(*g)[e].1
                &&& list@[e].2@ == graph_edges(*g)[e].2
            },
{
    g.edge_references().map(|e| (e.source().index(), e.target().index(), e.weight().clone())).collect()
}

/// Indexing a `Graph` of `petgraph` by a node index: the weight of that
/// node. Indexing panics where the graph has no such node, which `requires`
/// leaves out.
#[verifier::external_body]
fn graph_node_name(g: &Graph<String, String, Directed, usize>, index: usize) -> (name: String)
    requires
        index < graph_nodes(*g).len(),
    ensures
        name@ == graph_nodes(*g)[index as int],
{
    g[NodeIndex::new(index)].clone()
}

/// The names that the statements mention, each once, in order of first
/// mention.
pub open spec fn declared_names(decls: Seq<Declaration>) -> Seq<Seq<char>>
    decreases decls.len(),
{
    if decls.len() == 0 {
        Seq::empty()
    } else {
        let before = declared_names(decls.drop_last());
        match decls.last() {
            Declaration::Transition(t) => added_once(added_once(before, t.from), t.to),
            Declaration::State(name) => added_once(before, name),
            Declaration::Setting => before,
        }
    }
}

/// The transitions among the statements, in order.
pub open spec fn declared_edges(decls: Seq<Declaration>) -> Seq<Transition>
    decreases decls.len(),
{
    if decls.len() == 0 {
        Seq::empty()
    } else {
        let before = declared_edges(decls.drop_last());
        match decls.last() {
            Declaration::Transition(t) => before.push(t),
            _ => before,
        }
    }
}

/// A graph read from a graph text: its states, those without transitions
/// too, and its transitions.
pub struct ParsedGraph {
    graph: Graph<String, String, Directed, usize>,
}

impl ParsedGraph {
    /// Every edge starts and ends at one of the nodes.
    #[verifier::type_invariant]
    spec fn consistent(self) -> bool {
        forall|e: int|
            0 <= e < graph_edges(self.graph).len() ==> 0 <= (#[trigger] graph_edges(
                self.graph,
            )[e]).0 < graph_nodes(self.graph).len() && 0 <= graph_edges(self.graph)[e].1
                < graph_nodes(self.graph).len()
    }

    /// The names of the states, in order of first mention.
    pub closed spec fn names(self) -> Seq<Seq<char>> {
        graph_nodes(self.graph)
    }

    /// The transitions, in the order in which they were stated.
    pub closed spec fn transitions(self) -> Seq<Transition> {
        Seq::new(
            graph_edges(self.graph).len(),
            |e: int|
                Transition {
                    from: graph_nodes(self.graph)[graph_edges(self.graph)[e].0],
                    to: graph_nodes(self.graph)[graph_edges(self.graph)[e].1],
                    label: graph_edges(self.graph)[e].2,
                },
        )
    }

    /// The transitions of the graph, in the order in which they were
    /// stated. States without transitions do not show.
    pub fn edges(&self) -> (edges: Vec<Edge>)
        ensures
            transitions(edges@) == self.transitions(),
    {
        proof {
            use_type_invariant(self);
        }
        let list = graph_edge_list(&self.graph);
        let mut edges: Vec<Edge> = Vec::new();
        let mut e: usize = 0;
        while e < list.len()
            invariant
                e <= list@.len(),
                edges@.len() == e,
                list@.len() == graph_edges(self.graph).len(),
                forall|d: int|
                    0 <= d < list@.len() ==> {
                        &&& (#[trigger] list@[d]).0 == graph_edges(self.graph)[d].0
                        &&& list@[d].1 == graph_edges(self.graph)[d].1
                        &&& list@[d].2@ == graph_edges(self.graph)[d].2
                    },
                forall|d: int|
                    0 <= d < graph_edges(self.graph).len() ==> 0 <= (#[trigger] graph_edges(
                        self.graph,
                    )[d]).0 < graph_nodes(self.graph).len() && 0 <= graph_edges(self.graph)[d].1
                        < graph_nodes(self.graph).len(),
                forall|d: int| 0 <= d < e ==> (#[trigger] edges@[d])@ == self.transitions()[d],
            decreases list@.len() - e,
        {
            proof {
                assert(list@[e as int].0 == graph_edges(self.graph)[e as int].0);
            }
            let from = graph_node_name(&self.graph, list[e].0);
            let to = graph_node_name(&self.graph, list[e].1);
            let label = list[e].2.clone();
            edges.push(Edge { from, to, label });
            e += 1;
        }
        proof {
            assert(transitions(edges@) =~= self.transitions());
        }
        edges
    }

    /// The names of the states of the graph, in order of first mention.
    pub fn node_names(&self) -> (names: Vec<String>)
        ensures
            names@.len() == self.names().len(),
            forall|i: int| 0 <= i < names@.len() ==> (#[trigger] names@[i])@ == self.names()[i],
    {
        proof {
            use_type_invariant(self);
        }
        let count = graph_node_count(&self.graph);
        let mut names: Vec<String> = Vec::new();
        let mut i: usize = 0;
        while i < count
            invariant
                i <= count,
                count == graph_nodes(self.graph).len(),
                names@.len() == i,
                forall|j: int| 0 <= j < i ==> (#[trigger] names@[j])@ == graph_nodes(self.graph)[j],
            decreases count - i,
        {
            names.push(graph_node_name(&self.graph, i));
            i += 1;
        }
        names
    }
}

/// The edges of the graph are the transitions `ts`, their endpoints
/// resolved against the nodes of the graph.
spec fn holds_edges(g: Graph<String, String, Directed, usize>, ts: Seq<Transition>) -> bool {
    &&& graph_edges(g).len() == ts.len()
    &&& forall|e: int|
        0 <= e < ts.len() ==> {
            &&& 0 <= (#[trigger] graph_edges(g)[e]).0 < graph_nodes(g).len()
            &&& 0 <= graph_edges(g)[e].1 < graph_nodes(g).len()
            &&& graph_nodes(g)[graph_edges(g)[e].0] == ts[e].from
            &&& graph_nodes(g)[graph_edges(g)[e].1] == ts[e].to
            &&& graph_edges(g)[e].2 == ts[e].label
        }
}

/// The index of the node called `name`, which is added where the graph has
/// none of that name.
fn node_index(
    g: &mut Graph<String, String, Directed, usize>,
    index_of: &mut StringHashMap<usize>,
    name: &String,
) -> (index: usize)
    requires
        indexes(old(index_of)@, graph_nodes(*old(g))),
    ensures
        graph_edges(*final(g)) == graph_edges(*old(g)),
        graph_nodes(*final(g)) == added_once(graph_nodes(*old(g)), name@),
        indexes(final(index_of)@, graph_nodes(*final(g))),
        index < graph_nodes(*final(g)).len(),
        graph_nodes(*final(g))[index as int] == name@,
{
    let ghost names = graph_nodes(*g);
    match index_of.get(name.as_str()) {
        Some(found) => {
            let index: usize = *found;
            proof {
                lemma_indexes_found(index_of@, names, name@);
            }
            index
        },
        None => {
            let index = graph_add_node(g, name.clone());
            proof {
                lemma_indexes_push(index_of@, names, name@, index);
            }
            index_of.insert(name.clone(), index);
            index
        },
    }
}

/// Adding a name to the nodes keeps the edges resolved as they were.
proof fn lemma_holds_edges_kept(
    before: Graph<String, String, Directed, usize>,
    after: Graph<String, String, Directed, usize>,
    name: Seq<char>,
    ts: Seq<Transition>,
)
    requires
        holds_edges(before, ts),
        graph_nodes(before).no_duplicates(),
        graph_edges(after) == graph_edges(before),
        graph_nodes(after) == added_once(graph_nodes(before), name),
    ensures
        holds_edges(after, ts),
        graph_nodes(after).no_duplicates(),
{
    lemma_added_once(graph_nodes(before), name);
}

/// Builds the graph that the statements describe: one node for each name,
/// in order of first mention, and one edge for each transition, in order.
fn build(statements: &[Statement]) -> (parsed: ParsedGraph)
    ensures
        parsed.names() == declared_names(declarations(statements@)),
        parsed.transitions() == declared_edges(declarations(statements@)),
{
    let ghost decls = declarations(statements@);
    let mut g = graph_new();
    let mut index_of: StringHashMap<usize> = StringHashMap::new();
    let mut k: usize = 0;
    proof {
        assert(decls.take(0) =~= Seq::<Declaration>::empty());
    }
    while k < statements.len()
        invariant
            k <= statements@.len(),
            decls == declarations(statements@),
            graph_nodes(g) == declared_names(decls.take(k as int)),
            graph_nodes(g).no_duplicates(),
            indexes(index_of@, graph_nodes(g)),
            holds_edges(g, declared_edges(decls.take(k as int))),
        decreases statements@.len() - k,
    {
        let ghost prefix = decls.take(k + 1);
        let ghost ts = declared_edges(decls.take(k as int));
        let ghost start = g;
        proof {
            assert(prefix.drop_last() =~= decls.take(k as int));
            assert(prefix.last() == statements@[k as int]@);
        }
        match &statements[k] {
            Statement::Edge(edge) => {
                let from = node_index(&mut g, &mut index_of, &edge.from);
                let ghost middle = g;
                proof {
                    lemma_holds_edges_kept(start, middle, edge.from@, ts);
                }
                let to = node_index(&mut g, &mut index_of, &edge.to);
                let ghost grown = g;
                proof {
                    lemma_holds_edges_kept(middle, grown, edge.to@, ts);
                    lemma_added_once(graph_nodes(middle), edge.to@);
                    assert(graph_nodes(grown)[from as int] == edge.from@);
                }
                graph_add_edge(&mut g, from, to, edge.label.clone());
                proof {
                    assert(declared_edges(prefix) == ts.push(edge@));
                    assert forall|e: int| 0 <= e < ts.len() implies (#[trigger] graph_edges(g)[e])
                        == graph_edges(grown)[e] by {}
                }
            },
            Statement::Node(name) => {
                let _ = node_index(&mut g, &mut index_of, name);
                proof {
                    lemma_holds_edges_kept(start, g, name@, ts);
                }
            },
            Statement::Setting => {},
        }
        k += 1;
    }
    proof {
        assert(decls.take(k as int) =~= decls);
        let ts = declared_edges(decls);
        assert(Seq::new(
            graph_edges(g).len(),
            |e: int|
                Transition {
                    from: graph_nodes(g)[graph_edges(g)[e].0],
                    to: graph_nodes(g)[graph_edges(g)[e].1],
                    label: graph_edges(g)[e].2,
                },
        ) =~= ts);
    }
    ParsedGraph { graph: g }
}

/// Reads a graph text into a graph. Names may be quoted or bare; a
/// transition may carry attribute lists, of which the last `label` counts;
/// states may be declared alone, with or without attributes; settings of
/// the graph are passed over.
pub fn dot_to_petgraph(text: &str) -> (result: Result<ParsedGraph, ParseError>)
    ensures
        match result {
            Ok(parsed) => decode(text@) matches Ok(decls) && parsed.names() == declared_names(decls)
                && parsed.transitions() == declared_edges(decls),
            Err(e) => decode(text@) == Err::<Seq<Declaration>, ParseError>(e),
        },
{
    match parse_text(text) {
        Err(e) => Err(e),
        Ok(statements) => Ok(build(statements.as_slice())),
    }
}

} // verus!
