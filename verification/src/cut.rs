//! Cuts of the flow graph of a solution: their size, the marks that show
//! them, and the randomized approximation that grows connected cuts from
//! the source.
use vstd::prelude::*;
use std::collections::HashSet;
use crate::graph::{InstanceGraph, graph_edge_list, graph_edges};
use crate::lp::edge_at_index;

verus! {

broadcast use vstd::std_specs::hash::group_hash_axioms;

/// What the cut logic reads of a flow graph: its directed edges in order,
/// and for each vertex whether its flow value is positive.
pub struct FlowView {
    pub edges: Vec<(u32, u32)>,
    pub positive: Vec<bool>,
}

/// The directed edges of the flow graph of a solution: each edge `(a, b)`
/// of the instance, in order, first as `(a, b)` and then as `(b, a)`.
pub open spec fn both_directions(edges: Seq<(u32, u32)>) -> Seq<(u32, u32)> {
    Seq::new(2 * edges.len(), |i: int| if i % 2 == 0 { edges[i / 2] } else { (edges[i / 2].1, edges[i / 2].0) })
}

/// The directed edges that the cut and flow graphs of a solution have,
/// in the order in which they are added: see `both_directions`.
pub fn directed_edges(g: &InstanceGraph) -> (v: Vec<(u32, u32)>)
    ensures
        v@ == both_directions(graph_edge_list(*g)),
{
    let ghost list = graph_edge_list(*g);
    let m = graph_edges(g);
    let mut v: Vec<(u32, u32)> = Vec::new();
    let mut i: usize = 0;
    while i < m
        invariant
            i <= m == list.len() <= u32::MAX,
            list == graph_edge_list(*g),
            v@.len() == 2 * i,
            forall|j: int| 0 <= j < 2 * i ==> #[trigger] v@[j] == both_directions(list)[j],
        decreases m - i,
    {
        let (a, b) = edge_at_index(g, i);
        v.push((a, b));
        v.push((b, a));
        assert(both_directions(list)[2 * i as int] == (a, b));
        assert(both_directions(list)[2 * i + 1] == (b, a));
        i = i + 1;
    }
    assert(v@ =~= both_directions(list));
    v
}

/// Every edge joins two vertices of the view.
pub open spec fn view_ok(edges: Seq<(u32, u32)>, n: nat) -> bool {
    forall|i: int| 0 <= i < edges.len() ==> (#[trigger] edges[i]).0 < n && edges[i].1 < n
}

/// Edge `e` has exactly one endpoint in the cut.
pub open spec fn crosses(e: (u32, u32), cut: Set<u32>) -> bool {
    cut.contains(e.0) != cut.contains(e.1)
}

/// How many of the first `k` edges cross the cut.
pub open spec fn crossing_count(edges: Seq<(u32, u32)>, cut: Set<u32>, k: int) -> nat
    decreases k,
{
    if k <= 0 {
        0
    } else {
        crossing_count(edges, cut, k - 1) + if crosses(edges[k - 1], cut) { 1nat } else { 0nat }
    }
}

pub proof fn lemma_crossing_count_bound(edges: Seq<(u32, u32)>, cut: Set<u32>, k: int)
    requires
        0 <= k,
    ensures
        crossing_count(edges, cut, k) <= k,
    decreases k,
{
    if k > 0 {
        lemma_crossing_count_bound(edges, cut, k - 1);
    }
}

/// The size of the cut: the number of edges with exactly one endpoint in it.
pub fn size_of_cut(cut: &HashSet<u32>, edges: &Vec<(u32, u32)>) -> (size: usize)
    ensures
        size == crossing_count(edges@, cut@, edges@.len() as int),
{
    let mut size: usize = 0;
    let mut i: usize = 0;
    while i < edges.len()
        invariant
            i <= edges@.len(),
            size == crossing_count(edges@, cut@, i as int),
            size <= i,
        decreases edges@.len() - i,
    {
        let (from, to) = edges[i];
        if cut.contains(&from) && !cut.contains(&to) {
            size = size + 1;
        } else if !cut.contains(&from) && cut.contains(&to) {
            size = size + 1;
        }
        i = i + 1;
    }
    size
}

/// Which vertices and which edges show a cut: the vertices in it, and the
/// edges that cross it.
pub struct CutMarks {
    pub vertices: Vec<bool>,
    pub edges: Vec<bool>,
}

/// The vertex marks of `cut` on `n` vertices: vertex `v` is marked when it
/// is in the cut.
pub open spec fn vertex_marks(cut: Set<u32>, n: nat) -> Seq<bool> {
    Seq::new(n, |v: int| cut.contains(v as u32))
}

/// The edge marks of `cut`: edge `i` is marked when it crosses the cut.
pub open spec fn edge_marks(edges: Seq<(u32, u32)>, cut: Set<u32>) -> Seq<bool> {
    Seq::new(edges.len(), |i: int| crosses(edges[i], cut))
}

/// `values` with every marked place set to `mark`.
pub open spec fn marked<W>(values: Seq<W>, marks: Seq<bool>, mark: W) -> Seq<W> {
    Seq::new(values.len(), |i: int| if marks[i] { mark } else { values[i] })
}

/// The marks that show `cut` on a flow graph with `n` vertices: vertex `v`
/// is marked when it is in the cut, edge `i` when it crosses the cut.
pub fn cut_marks(cut: &HashSet<u32>, edges: &Vec<(u32, u32)>, n: usize) -> (marks: CutMarks)
    requires
        n <= u32::MAX + 1,
    ensures
        marks.vertices@ == vertex_marks(cut@, n as nat),
        marks.edges@ == edge_marks(edges@, cut@),
        marks.vertices@.len() == n,
        forall|v: int| 0 <= v < n ==> #[trigger] marks.vertices@[v] == cut@.contains(v as u32),
        marks.edges@.len() == edges@.len(),
        forall|i: int| 0 <= i < edges@.len() ==> #[trigger] marks.edges@[i] == crosses(edges@[i], cut@),
{
    let mut vertices: Vec<bool> = Vec::new();
    let mut v: usize = 0;
    while v < n
        invariant
            v <= n <= u32::MAX + 1,
            vertices@.len() == v,
            forall|u: int| 0 <= u < v ==> #[trigger] vertices@[u] == cut@.contains(u as u32),
        decreases n - v,
    {
        vertices.push(cut.contains(&(v as u32)));
        v = v + 1;
    }
    let mut marked: Vec<bool> = Vec::new();
    let mut i: usize = 0;
    while i < edges.len()
        invariant
            i <= edges@.len(),
            marked@.len() == i,
            forall|j: int| 0 <= j < i ==> #[trigger] marked@[j] == crosses(edges@[j], cut@),
        decreases edges@.len() - i,
    {
        let (from, to) = edges[i];
        marked.push(cut.contains(&from) != cut.contains(&to));
        i = i + 1;
    }
    assert(vertices@ =~= vertex_marks(cut@, n as nat));
    assert(marked@ =~= edge_marks(edges@, cut@));
    CutMarks { vertices, edges: marked }
}

/// Sets every marked place of `values` to `mark`: this is how a cut is
/// shown on the weights of a flow graph, its vertices and its crossing edges
/// set to a weight that no flow has.
pub fn apply_marks<W: Copy>(values: &mut Vec<W>, marks: &Vec<bool>, mark: W)
    requires
        old(values)@.len() == marks@.len(),
    ensures
        final(values)@ == marked(old(values)@, marks@, mark),
{
    let ghost start = values@;
    let mut i: usize = 0;
    while i < values.len()
        invariant
            values@.len() == start.len() == marks@.len(),
            i <= values@.len(),
            forall|j: int| 0 <= j < i ==> #[trigger] values@[j] == (if marks@[j] { mark } else { start[j] }),
            forall|j: int| i <= j < values@.len() ==> #[trigger] values@[j] == start[j],
        decreases values@.len() - i,
    {
        if marks[i] {
            values.set(i, mark);
        }
        i = i + 1;
    }
    assert(values@ =~= marked(start, marks@, mark));
}

/// Showing a cut twice changes nothing that showing it once did not: the
/// marks depend only on the cut and the edges, which marking leaves alone,
/// and setting a marked weight again gives it the same value.
pub proof fn lemma_marking_twice<W>(
    node_values: Seq<W>,
    edge_values: Seq<W>,
    edges: Seq<(u32, u32)>,
    cut: Set<u32>,
    mark: W,
)
    requires
        edge_values.len() == edges.len(),
    ensures
        ({
            let vm = vertex_marks(cut, node_values.len());
            let once = marked(node_values, vm, mark);
            marked(once, vertex_marks(cut, once.len()), mark) == once
        }),
        ({
            let em = edge_marks(edges, cut);
            let once = marked(edge_values, em, mark);
            marked(once, em, mark) == once
        }),
{
    let vm = vertex_marks(cut, node_values.len());
    let once = marked(node_values, vm, mark);
    assert(marked(once, vertex_marks(cut, once.len()), mark) =~= once);
    let em = edge_marks(edges, cut);
    let eonce = marked(edge_values, em, mark);
    assert(marked(eonce, em, mark) =~= eonce);
}

/// A cut and its complement (among the endpoints of the edges) have the
/// same size.
pub proof fn lemma_cut_size_complement(edges: Seq<(u32, u32)>, a: Set<u32>, b: Set<u32>, k: int)
    requires
        0 <= k <= edges.len(),
        forall|i: int| 0 <= i < edges.len() ==> (a.contains((#[trigger] edges[i]).0) <==> !b.contains(edges[i].0))
            && (a.contains(edges[i].1) <==> !b.contains(edges[i].1)),
    ensures
        crossing_count(edges, a, k) == crossing_count(edges, b, k),
    decreases k,
{
    if k > 0 {
        lemma_cut_size_complement(edges, a, b, k - 1);
        assert(crosses(edges[k - 1], a) == crosses(edges[k - 1], b));
    }
}

/// The empty cut has size 0.
pub proof fn lemma_cut_size_empty(edges: Seq<(u32, u32)>, k: int)
    requires
        0 <= k <= edges.len(),
    ensures
        crossing_count(edges, Set::<u32>::empty(), k) == 0,
    decreases k,
{
    if k > 0 {
        lemma_cut_size_empty(edges, k - 1);
    }
}

/// How many of the first `k` marks are set.
pub open spec fn marked_count(marks: Seq<bool>, k: int) -> nat
    decreases k,
{
    if k <= 0 {
        0
    } else {
        marked_count(marks, k - 1) + if marks[k - 1] { 1nat } else { 0nat }
    }
}

/// The edges that the marks show are as many as the size of the cut.
pub proof fn lemma_marks_count_cut(edges: Seq<(u32, u32)>, cut: Set<u32>, marks: Seq<bool>, k: int)
    requires
        0 <= k <= edges.len(),
        marks.len() == edges.len(),
        forall|i: int| 0 <= i < edges.len() ==> #[trigger] marks[i] == crosses(edges[i], cut),
    ensures
        marked_count(marks, k) == crossing_count(edges, cut, k),
    decreases k,
{
    if k > 0 {
        lemma_marks_count_cut(edges, cut, marks, k - 1);
        assert(marks[k - 1] == crosses(edges[k - 1], cut));
    }
}

} // verus!
