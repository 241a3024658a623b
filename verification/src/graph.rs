//! The undirected graph of an instance, held in a `petgraph` graph.
//!
//! A graph is described by names for what it holds: the number of its
//! nodes, the list of its edges in insertion order, and the order in which
//! the edges at each vertex are walked.
use vstd::prelude::*;
use petgraph::visit::EdgeRef;
use std::collections::HashMap;

verus! {

/// The undirected graph type of an instance.
pub type InstanceGraph = petgraph::graph::Graph<(), (), petgraph::Undirected, u32>;

#[verifier::external_type_specification]
#[verifier::external_body]
#[verifier::reject_recursive_types(N)]
#[verifier::reject_recursive_types(E)]
#[verifier::reject_recursive_types(Ty)]
#[verifier::reject_recursive_types(Ix)]
pub struct ExGraph<N, E, Ty, Ix>(petgraph::graph::Graph<N, E, Ty, Ix>);

#[verifier::external_type_specification]
#[verifier::external_body]
pub struct ExUndirected(petgraph::Undirected);

/// The number of nodes that a graph holds.
pub uninterp spec fn graph_node_count(g: InstanceGraph) -> nat;

/// The edges that a graph holds, as (source, target) pairs in insertion order.
pub uninterp spec fn graph_edge_list(g: InstanceGraph) -> Seq<(u32, u32)>;

/// One more than the largest endpoint of `edges`, or 0 when there is none.
pub open spec fn node_bound(edges: Seq<(u32, u32)>) -> nat
    decreases edges.len(),
{
    if edges.len() == 0 {
        0
    } else {
        let rest = node_bound(edges.drop_last());
        let (a, b) = edges.last();
        let m: nat = if a >= b { (a + 1) as nat } else { (b + 1) as nat };
        if m >= rest { m } else { rest }
    }
}

/// The edges at `v` whose source is `v`, among the first `k` edges, the
/// latest first, each as (edge index, `v`, target).
pub open spec fn out_walk(edges: Seq<(u32, u32)>, v: u32, k: int) -> Seq<(u32, u32, u32)>
    decreases k,
{
    if k <= 0 {
        seq![]
    } else {
        let rest = out_walk(edges, v, k - 1);
        if edges[k - 1].0 == v {
            seq![((k - 1) as u32, v, edges[k - 1].1)] + rest
        } else {
            rest
        }
    }
}

/// The edges at `v` whose target is `v` and whose source is not, among the
/// first `k` edges, the latest first, each as (edge index, `v`, source).
pub open spec fn in_walk(edges: Seq<(u32, u32)>, v: u32, k: int) -> Seq<(u32, u32, u32)>
    decreases k,
{
    if k <= 0 {
        seq![]
    } else {
        let rest = in_walk(edges, v, k - 1);
        if edges[k - 1].1 == v && edges[k - 1].0 != v {
            seq![((k - 1) as u32, v, edges[k - 1].0)] + rest
        } else {
            rest
        }
    }
}

/// The walk of the edges at `v` in a graph whose edges were only ever
/// added: the edges that leave `v`, then those that enter it, each list
/// the latest edge first.
pub open spec fn insertion_walk(edges: Seq<(u32, u32)>, v: u32) -> Seq<(u32, u32, u32)> {
    out_walk(edges, v, edges.len() as int) + in_walk(edges, v, edges.len() as int)
}

/// `Graph::from_edges`: builds a graph with one edge per pair, in order, and
/// with just enough nodes for the largest endpoint.  The source adds nodes
/// up to the larger endpoint of each pair before adding the edge; it
/// panics when a node index would reach `u32::MAX` or an edge index would
/// pass `u32::MAX - 1` (`add_node` and `add_edge` assert both), and
/// `requires` leaves those inputs out.  `add_edge` puts each new edge at
/// the head of its source's outgoing list and of its target's incoming
/// list, and `edges(v)` walks the outgoing list of `v`, then its incoming
/// list without the self-loops: so the walk at every vertex is the
/// `insertion_walk`.
#[verifier::external_body]
pub(crate) fn graph_from_edges(edges: &Vec<(u32, u32)>) -> (g: InstanceGraph)
    requires
        edges@.len() <= u32::MAX,
        forall|i: int| 0 <= i < edges@.len() ==> edges@[i].0 < u32::MAX && edges@[i].1 < u32::MAX,
    ensures
        graph_edge_list(g) == edges@,
        graph_node_count(g) == node_bound(edges@),
        forall|v: u32| #[trigger] graph_edges_at(g, v) == insertion_walk(edges@, v),
{
    petgraph::graph::Graph::from_edges(edges)
}

/// `Graph::add_node`: one more node, with no edge; the edges and the walk
/// of the edges at every vertex stay as they were.  The source panics when
/// the new node's index would be `u32::MAX`; `requires` leaves that out.
#[verifier::external_body]
pub(crate) fn graph_add_node(g: &mut InstanceGraph)
    requires
        graph_node_count(*old(g)) < u32::MAX,
    ensures
        graph_node_count(*final(g)) == graph_node_count(*old(g)) + 1,
        graph_edge_list(*final(g)) == graph_edge_list(*old(g)),
        forall|v: u32| graph_edges_at(*final(g), v) == graph_edges_at(*old(g), v),
{
    g.add_node(());
}

/// `Graph::node_count`.  The source never lets a graph with `u32` indices
/// hold more than `u32::MAX` nodes (`add_node` asserts it).
#[verifier::external_body]
pub(crate) fn graph_nodes(g: &InstanceGraph) -> (n: usize)
    ensures
        n == graph_node_count(*g),
        n <= u32::MAX,
{
    g.node_count()
}

/// `Graph::edge_count`.  The source never lets a graph with `u32` indices
/// hold more than `u32::MAX` edges (`add_edge` asserts it).
#[verifier::external_body]
pub(crate) fn graph_edges(g: &InstanceGraph) -> (m: usize)
    ensures
        m == graph_edge_list(*g).len(),
        m <= u32::MAX,
{
    g.edge_count()
}

/// `Graph::edge_endpoints` of edge `i`: its source and target, or `None`
/// when there is no such edge.  Both endpoints are nodes of the graph:
/// `add_edge` panics on an endpoint that is not.
#[verifier::external_body]
pub(crate) fn graph_edge_endpoints(g: &InstanceGraph, i: usize) -> (e: Option<(u32, u32)>)
    requires
        i < u32::MAX,
    ensures
        i < graph_edge_list(*g).len() ==> e == Some(graph_edge_list(*g)[i as int]),
        i >= graph_edge_list(*g).len() ==> e is None,
        e matches Some(p) ==> p.0 < graph_node_count(*g) && p.1 < graph_node_count(*g),
{
    g.edge_endpoints(petgraph::graph::EdgeIndex::new(i)).map(|(a, b)| (a.index() as u32, b.index() as u32))
}

/// The order in which `Graph::edges(v)` walks the edges at `v`, each given
/// as (edge index, source, target).
pub uninterp spec fn graph_edges_at(g: InstanceGraph, v: u32) -> Seq<(u32, u32, u32)>;

/// `Graph::edges(v)` on an undirected graph: every edge connected to `v`
/// once (a self-loop too), with `v` as the source and the other endpoint as
/// the target.  The order of the walk (it follows the graph's adjacency
/// lists) is left to the name `graph_edges_at`.
#[verifier::external_body]
pub(crate) fn graph_incident_edges(g: &InstanceGraph, v: u32) -> (r: Vec<(u32, u32, u32)>)
    ensures
        r@ == graph_edges_at(*g, v),
        forall|k: int| 0 <= k < r@.len() ==> {
            let (i, src, tgt) = #[trigger] r@[k];
            &&& i < graph_edge_list(*g).len()
            &&& src == v
            &&& touches(graph_edge_list(*g)[i as int], v)
            &&& tgt == other_end(graph_edge_list(*g)[i as int], v)
        },
        forall|k1: int, k2: int| 0 <= k1 < k2 < r@.len() ==> (#[trigger] r@[k1]).0 != (#[trigger] r@[k2]).0,
        forall|i: int| 0 <= i < graph_edge_list(*g).len() && touches(graph_edge_list(*g)[i], v)
            ==> exists|k: int| 0 <= k < r@.len() && (#[trigger] r@[k]).0 == i,
{
    g.edges(petgraph::graph::NodeIndex::new(v as usize))
        .map(|e| (e.id().index() as u32, e.source().index() as u32, e.target().index() as u32))
        .collect()
}

/// Edge `e` has `v` as an endpoint.
pub open spec fn touches(e: (u32, u32), v: u32) -> bool {
    e.0 == v || e.1 == v
}

/// The endpoint of `e` other than `v` (`v` itself for a self-loop).
pub open spec fn other_end(e: (u32, u32), v: u32) -> u32 {
    if e.0 == v { e.1 } else { e.0 }
}

/// `m` maps each node reachable from `s` to its distance from `s` in hops,
/// and holds no other node.
pub open spec fn is_hop_distance_map(n: nat, edges: Seq<(u32, u32)>, s: u32, m: Map<u32, u32>) -> bool {
    &&& m.contains_key(s) && m[s] == 0
    &&& forall|v: u32| #[trigger] m.contains_key(v) ==> v < n
    &&& forall|i: int| 0 <= i < edges.len() ==> {
        &&& m.contains_key((#[trigger] edges[i]).0) ==> m.contains_key(edges[i].1) && m[edges[i].1] <= m[edges[i].0] + 1
        &&& m.contains_key(edges[i].1) ==> m.contains_key(edges[i].0) && m[edges[i].0] <= m[edges[i].1] + 1
    }
    &&& forall|v: u32| #[trigger] m.contains_key(v) && v != s ==> exists|i: int|
        0 <= i < edges.len() && touches(#[trigger] edges[i], v) && m.contains_key(other_end(edges[i], v))
            && m[other_end(edges[i], v)] + 1 == m[v]
}

/// The cost of an edge when distances count edges.
pub fn hop_cost() -> (c: u32)
    ensures
        c == 1,
{
    1
}

/// `petgraph::algo::dijkstra` from `s` with every edge of cost 1 (the cost
/// that `hop_cost` gives): the
/// length of a shortest path from `s` to every node that `s` reaches, as
/// its documentation says.  The source panics when `s` is not a node.
#[verifier::external_body]
pub(crate) fn graph_hop_distances(g: &InstanceGraph, s: u32) -> (m: HashMap<u32, u32>)
    requires
        s < graph_node_count(*g),
    ensures
        is_hop_distance_map(graph_node_count(*g), graph_edge_list(*g), s, m@),
{
    petgraph::algo::dijkstra(g, petgraph::graph::NodeIndex::new(s as usize), None, |_| hop_cost())
        .into_iter()
        .map(|(v, d)| (v.index() as u32, d))
        .collect()
}

proof fn lemma_hop_distance_le(n: nat, edges: Seq<(u32, u32)>, s: u32, d1: Map<u32, u32>, d2: Map<u32, u32>, v: u32, k: nat)
    requires
        is_hop_distance_map(n, edges, s, d1),
        is_hop_distance_map(n, edges, s, d2),
        d1.contains_key(v),
        d1[v] == k,
    ensures
        d2.contains_key(v),
        d2[v] <= k,
    decreases k,
{
    if v != s {
        let i = choose|i: int| 0 <= i < edges.len() && touches(#[trigger] edges[i], v)
            && d1.contains_key(other_end(edges[i], v)) && d1[other_end(edges[i], v)] + 1 == d1[v];
        let u = other_end(edges[i], v);
        lemma_hop_distance_le(n, edges, s, d1, d2, u, (k - 1) as nat);
        assert(edges[i] == edges[i]);
    }
}

/// There is only one map of hop distances: the distances from the source
/// are a function of the graph.
pub proof fn lemma_hop_distance_unique(n: nat, edges: Seq<(u32, u32)>, s: u32, d1: Map<u32, u32>, d2: Map<u32, u32>)
    requires
        is_hop_distance_map(n, edges, s, d1),
        is_hop_distance_map(n, edges, s, d2),
    ensures
        d1 == d2,
{
    assert forall|v: u32| d1.contains_key(v) implies d2.contains_key(v) && d2[v] <= d1[v] by {
        lemma_hop_distance_le(n, edges, s, d1, d2, v, d1[v] as nat);
    }
    assert forall|v: u32| d2.contains_key(v) implies d1.contains_key(v) && d1[v] <= d2[v] by {
        lemma_hop_distance_le(n, edges, s, d2, d1, v, d2[v] as nat);
    }
    assert(d1 =~= d2);
}

/// The number of nodes of a graph.
pub fn node_count(g: &InstanceGraph) -> (n: usize)
    ensures
        n == graph_node_count(*g),
        n <= u32::MAX,
{
    graph_nodes(g)
}

/// The number of edges of a graph.
pub fn edge_count(g: &InstanceGraph) -> (m: usize)
    ensures
        m == graph_edge_list(*g).len(),
        m <= u32::MAX,
{
    graph_edges(g)
}

} // verus!
