//! The dependency graph of a pipeline: a `petgraph` directed graph map whose
//! nodes are step ids, described by the sequence of its nodes and the sequence
//! of its edges.

use vstd::prelude::*;
use petgraph::graphmap::{DiGraphMap, GraphMap};
use petgraph::{Directed, Direction};
use std::hash::RandomState;

verus! {

/// The marker type for directed graphs of `petgraph`.
#[verifier::external_type_specification]
#[verifier::external_body]
pub struct ExDirected(Directed);

/// `petgraph`'s graph map, held opaque: what it holds is described by
/// [`graph_nodes`] and [`graph_edges`].
#[verifier::external_type_specification]
#[verifier::external_body]
#[verifier::reject_recursive_types(N)]
#[verifier::reject_recursive_types(E)]
#[verifier::reject_recursive_types(Ty)]
#[verifier::reject_recursive_types(S)]
pub struct ExGraphMap<N, E, Ty, S: std::hash::BuildHasher>(GraphMap<N, E, Ty, S>);

/// The node table of a graph map: each node, in the order in which it was first added,
/// with its adjacency list, in which each edge that touches the node appears once, in the
/// order in which the edges were added (while none was removed), as the other end and
/// whether the edge leads away from the node (a self loop appears once, leading away).
pub uninterp spec fn graph_adjacency(g: GraphMap<usize, String, Directed, RandomState>) -> Seq<
    (usize, Seq<(usize, bool)>),
>;

/// The nodes of an adjacency table, in order.
pub open spec fn adj_keys(adj: Seq<(usize, Seq<(usize, bool)>)>) -> Seq<usize> {
    adj.map_values(|e: (usize, Seq<(usize, bool)>)| e.0)
}

/// The nodes of a graph map, in the order in which they were first added.
pub open spec fn graph_nodes(g: GraphMap<usize, String, Directed, RandomState>) -> Seq<usize> {
    adj_keys(graph_adjacency(g))
}

/// The table has an entry for `n`.
pub open spec fn adj_has(adj: Seq<(usize, Seq<(usize, bool)>)>, n: usize) -> bool {
    exists|i: int| 0 <= i < adj.len() && (#[trigger] adj[i]).0 == n
}

/// The position of the entry for `n` (meaningful where [`adj_has`] holds; a table's nodes
/// are unique).
pub open spec fn adj_index(adj: Seq<(usize, Seq<(usize, bool)>)>, n: usize) -> int {
    choose|i: int| 0 <= i < adj.len() && (#[trigger] adj[i]).0 == n
}

/// The table with an entry for `n`: a new entry with an empty list goes last.
pub open spec fn adj_touch(adj: Seq<(usize, Seq<(usize, bool)>)>, n: usize) -> Seq<(usize, Seq<(usize, bool)>)> {
    if adj_has(adj, n) {
        adj
    } else {
        adj.push((n, Seq::empty()))
    }
}

/// The table with `item` appended to the list of `n` (a new entry goes last).
pub open spec fn adj_append(adj: Seq<(usize, Seq<(usize, bool)>)>, n: usize, item: (usize, bool)) -> Seq<
    (usize, Seq<(usize, bool)>),
> {
    if adj_has(adj, n) {
        let i = adj_index(adj, n);
        adj.update(i, (n, adj[i].1.push(item)))
    } else {
        adj.push((n, seq![item]))
    }
}

/// The adjacency list of `n` (empty where `n` is no node).
pub open spec fn adj_list(adj: Seq<(usize, Seq<(usize, bool)>)>, n: usize) -> Seq<(usize, bool)> {
    if adj_has(adj, n) {
        adj[adj_index(adj, n)].1
    } else {
        Seq::empty()
    }
}

/// The targets of the edges leading away from `n` in its adjacency list, in order.
pub open spec fn out_targets(list: Seq<(usize, bool)>, n: usize) -> Seq<usize>
    decreases list.len(),
{
    if list.len() == 0 {
        Seq::empty()
    } else {
        let rest = out_targets(list.drop_last(), n);
        if list.last().1 || list.last().0 == n {
            rest.push(list.last().0)
        } else {
            rest
        }
    }
}

/// The nodes that `n` leads to, in the order of its adjacency list.
pub open spec fn graph_successors(g: GraphMap<usize, String, Directed, RandomState>, n: usize) -> Seq<usize> {
    out_targets(adj_list(graph_adjacency(g), n), n)
}

/// The nodes after adding an entry for `n` or appending to its list: `n` is added last
/// where it was missing.
proof fn lemma_adj_keys(adj: Seq<(usize, Seq<(usize, bool)>)>, n: usize, item: (usize, bool))
    ensures
        adj_keys(adj_touch(adj, n)) == push_absent(adj_keys(adj), n),
        adj_keys(adj_append(adj, n, item)) == push_absent(adj_keys(adj), n),
{
    assert(adj_keys(adj).contains(n) == adj_has(adj, n)) by {
        if adj_has(adj, n) {
            let i = adj_index(adj, n);
            assert(adj_keys(adj)[i] == n);
        }
        if adj_keys(adj).contains(n) {
            let i = choose|i: int| 0 <= i < adj_keys(adj).len() && adj_keys(adj)[i] == n;
            assert(adj[i].0 == n);
        }
    }
    if adj_has(adj, n) {
        let i = adj_index(adj, n);
        assert(adj_keys(adj_append(adj, n, item)) =~= adj_keys(adj));
    } else {
        assert(adj_keys(adj_touch(adj, n)) =~= adj_keys(adj).push(n));
        assert(adj_keys(adj_append(adj, n, item)) =~= adj_keys(adj).push(n));
    }
}

/// The edges `(from, to)` of a graph map, in the order of its edge table
/// (the order in which they were first added, as long as none was removed).
/// The edge weights are not described.
pub uninterp spec fn graph_edges(g: GraphMap<usize, String, Directed, RandomState>) -> Seq<(usize, usize)>;

/// `s` with `n` appended, unless `s` holds it already.
pub open spec fn push_absent(s: Seq<usize>, n: usize) -> Seq<usize> {
    if s.contains(n) { s } else { s.push(n) }
}

/// `es` with the edge `(a, b)` appended, unless `es` holds it already.
pub open spec fn push_edge(es: Seq<(usize, usize)>, a: usize, b: usize) -> Seq<(usize, usize)> {
    if es.contains((a, b)) { es } else { es.push((a, b)) }
}

/// The number of edges in `es` that end in `n`.
pub open spec fn in_degree(es: Seq<(usize, usize)>, n: usize) -> nat
    decreases es.len(),
{
    if es.len() == 0 {
        0
    } else {
        in_degree(es.drop_last(), n) + if es.last().1 == n { 1nat } else { 0nat }
    }
}

/// `p` is a walk of at least one edge along the edges `es`.
pub open spec fn is_walk(es: Seq<(usize, usize)>, p: Seq<usize>) -> bool {
    &&& p.len() >= 2
    &&& forall|i: int| 0 <= i < p.len() - 1 ==> #[trigger] es.contains((p[i], p[i + 1]))
}

/// `p` is a walk along `es` that ends where it starts.
pub open spec fn is_closed_walk(es: Seq<(usize, usize)>, p: Seq<usize>) -> bool {
    is_walk(es, p) && p[0] == p.last()
}

/// The edges `es` contain a cycle (a self loop counts as one).
pub open spec fn has_cycle(es: Seq<(usize, usize)>) -> bool {
    exists|p: Seq<usize>| #[trigger] is_closed_walk(es, p)
}

/// Every edge of `es` leads from a smaller node to a larger one.
pub open spec fn edges_ascend(es: Seq<(usize, usize)>) -> bool {
    forall|i: int| 0 <= i < es.len() ==> (#[trigger] es[i]).0 < es[i].1
}

/// Along ascending edges, every node of a walk after the first is larger than the first.
proof fn lemma_ascending_walk(es: Seq<(usize, usize)>, p: Seq<usize>, k: int)
    requires
        edges_ascend(es),
        is_walk(es, p),
        1 <= k < p.len(),
    ensures
        p[k] > p[0],
    decreases k,
{
    let i = k - 1;
    assert(es.contains((p[i], p[i + 1])));
    let j = choose|j: int| 0 <= j < es.len() && es[j] == (p[i], p[i + 1]);
    assert(es[j].0 < es[j].1);
    if k > 1 {
        lemma_ascending_walk(es, p, k - 1);
    }
}

/// A graph whose edges all ascend has no cycle.
pub proof fn lemma_ascending_edges_acyclic(es: Seq<(usize, usize)>)
    requires
        edges_ascend(es),
    ensures
        !has_cycle(es),
{
    if has_cycle(es) {
        let p = choose|p: Seq<usize>| #[trigger] is_closed_walk(es, p);
        lemma_ascending_walk(es, p, p.len() - 1);
    }
}

/// `DiGraphMap::new`: the new graph has no node and no edge.
#[verifier::external_body]
pub(crate) fn new_graph() -> (g: DiGraphMap<usize, String>)
    ensures
        graph_adjacency(g) == Seq::<(usize, Seq<(usize, bool)>)>::empty(),
        graph_edges(g) == Seq::<(usize, usize)>::empty(),
{
    DiGraphMap::new()
}

/// `GraphMap::add_node`: gives `n` an entry with an empty list at the end of the node
/// table unless it has one already; the edges stay as they were.
#[verifier::external_body]
fn graph_map_add_node(g: &mut DiGraphMap<usize, String>, n: usize)
    ensures
        graph_adjacency(*final(g)) == adj_touch(graph_adjacency(*old(g)), n),
        graph_edges(*final(g)) == graph_edges(*old(g)),
{
    g.add_node(n);
}

/// Adds `n` at the end of the nodes unless it is one already; the edges stay as they were.
pub(crate) fn add_node(g: &mut DiGraphMap<usize, String>, n: usize)
    ensures
        graph_adjacency(*final(g)) == adj_touch(graph_adjacency(*old(g)), n),
        graph_nodes(*final(g)) == push_absent(graph_nodes(*old(g)), n),
        graph_edges(*final(g)) == graph_edges(*old(g)),
{
    graph_map_add_node(g, n);
    proof {
        lemma_adj_keys(graph_adjacency(*old(g)), n, (n, true));
    }
}

/// The node table after adding the new edge `(a, b)`: `b` leading away is appended to the
/// list of `a`, then, unless it is a self loop, `a` leading in to the list of `b`.
pub open spec fn adj_add_edge(adj: Seq<(usize, Seq<(usize, bool)>)>, a: usize, b: usize) -> Seq<
    (usize, Seq<(usize, bool)>),
> {
    let with_a = adj_append(adj, a, (b, true));
    if a != b {
        adj_append(with_a, b, (a, false))
    } else {
        with_a
    }
}

/// `GraphMap::add_edge`: adds the edge `(a, b)` unless it is one already (then only its
/// weight is replaced, and the node table stays as it was); a new edge is entered in the
/// adjacency lists of `a` and `b`, which are added to the node table where missing.
#[verifier::external_body]
fn graph_map_add_edge(g: &mut DiGraphMap<usize, String>, a: usize, b: usize, weight: String)
    ensures
        graph_edges(*final(g)) == push_edge(graph_edges(*old(g)), a, b),
        graph_adjacency(*final(g)) == if graph_edges(*old(g)).contains((a, b)) {
            graph_adjacency(*old(g))
        } else {
            adj_add_edge(graph_adjacency(*old(g)), a, b)
        },
{
    g.add_edge(a, b, weight);
}

/// Adds the edge `(a, b)` unless it is one already; a new edge also adds `a`, then `b`,
/// to the nodes where they are missing.
pub(crate) fn add_edge(g: &mut DiGraphMap<usize, String>, a: usize, b: usize, weight: String)
    ensures
        graph_edges(*final(g)) == push_edge(graph_edges(*old(g)), a, b),
        graph_adjacency(*final(g)) == if graph_edges(*old(g)).contains((a, b)) {
            graph_adjacency(*old(g))
        } else {
            adj_add_edge(graph_adjacency(*old(g)), a, b)
        },
        graph_nodes(*final(g)) == if graph_edges(*old(g)).contains((a, b)) {
            graph_nodes(*old(g))
        } else {
            push_absent(push_absent(graph_nodes(*old(g)), a), b)
        },
{
    graph_map_add_edge(g, a, b, weight);
    proof {
        let adj = graph_adjacency(*old(g));
        if !graph_edges(*old(g)).contains((a, b)) {
            lemma_adj_keys(adj, a, (b, true));
            let with_a = adj_append(adj, a, (b, true));
            lemma_adj_keys(with_a, b, (a, false));
            if a == b {
                assert(push_absent(adj_keys(adj), a).contains(a)) by {
                    if !adj_keys(adj).contains(a) {
                        assert(push_absent(adj_keys(adj), a)[adj_keys(adj).len() as int] == a);
                    }
                }
            }
        }
    }
}

/// `GraphMap::contains_edge`: whether `(a, b)` is an edge.
#[verifier::external_body]
pub(crate) fn contains_edge(g: &DiGraphMap<usize, String>, a: usize, b: usize) -> (res: bool)
    ensures
        res == graph_edges(*g).contains((a, b)),
{
    g.contains_edge(a, b)
}

/// `GraphMap::nodes`, collected: the nodes in their order.
#[verifier::external_body]
pub(crate) fn nodes_of(g: &DiGraphMap<usize, String>) -> (res: Vec<usize>)
    ensures
        res@ == graph_nodes(*g),
{
    g.nodes().collect()
}

/// `GraphMap::edges_directed` with `Incoming`, counted: the number of edges that end in `n`
/// (a node's adjacency list holds one entry for each edge that ends in it).
#[verifier::external_body]
pub(crate) fn incoming_count(g: &DiGraphMap<usize, String>, n: usize) -> (res: usize)
    ensures
        res == in_degree(graph_edges(*g), n),
{
    g.edges_directed(n, Direction::Incoming).count()
}

/// `GraphMap::edges_directed` with `Outgoing`, mapped to the edges' targets: the entries of
/// `n`'s adjacency list that lead away from it (or back to it), in order; each node `t`
/// such that `(n, t)` is an edge, once.
#[verifier::external_body]
pub(crate) fn successors_of(g: &DiGraphMap<usize, String>, n: usize) -> (res: Vec<usize>)
    ensures
        res@ == graph_successors(*g, n),
        res@.no_duplicates(),
        forall|t: usize| res@.contains(t) <==> graph_edges(*g).contains((n, t)),
{
    g.edges_directed(n, Direction::Outgoing).map(|e| e.1).collect()
}

/// `petgraph::algo::is_cyclic_directed`: whether the graph contains a cycle.
#[verifier::external_body]
pub(crate) fn is_cyclic_directed(g: &DiGraphMap<usize, String>) -> (res: bool)
    ensures
        res == has_cycle(graph_edges(*g)),
{
    petgraph::algo::is_cyclic_directed(g)
}

} // verus!
