//! Instances of the minimum connected cut problem and their file format.
//!
//! An instance file lists edges as `[from;to]` and gives the source vertex
//! as `s=<number>` and the capacity as `k=<number>`, anywhere in the text.
use vstd::prelude::*;
use crate::graph::{InstanceGraph, graph_edge_list, graph_node_count, graph_from_edges, node_bound, graph_add_node, graph_nodes,
    graph_edges_at, insertion_walk};
use crate::generator::{clique_edges, clique_rows, clique_row, lemma_clique_edges};
use crate::grammar::{is_digit, is_u32_text, digits_value, skip_spaces, skip_digits, lemma_skip_spaces, lemma_skip_digits, skip_spaces_at, skip_digits_at, parse_u32_at, chars_of};

verus! {

/// Structure for the minimum connected cut: a graph, a capacity (the number
/// of vertices to choose) and a source vertex that has to be chosen.
pub struct Instance {
    g: InstanceGraph,
    c: u32,
    s: u32,
}

impl Instance {
    pub closed spec fn spec_graph(&self) -> InstanceGraph {
        self.g
    }

    pub closed spec fn spec_capacity(&self) -> u32 {
        self.c
    }

    pub closed spec fn spec_source(&self) -> u32 {
        self.s
    }

    pub fn new(g: InstanceGraph, k: u32, s: u32) -> (inst: Self)
        ensures
            inst.spec_graph() == g,
            inst.spec_capacity() == k,
            inst.spec_source() == s,
    {
        Instance { g, c: k, s }
    }

    pub fn capacity(&self) -> (c: u32)
        ensures
            c == self.spec_capacity(),
    {
        self.c
    }

    pub fn source(&self) -> (s: u32)
        ensures
            s == self.spec_source(),
    {
        self.s
    }

    pub fn graph(&self) -> (g: &InstanceGraph)
        ensures
            *g == self.spec_graph(),
    {
        &self.g
    }
}

/// Where an edge `[a;b]` matches at position `i`: the digit spans of both
/// endpoints and the position just past the closing bracket.  White space
/// may stand around each number; a number may be empty (the match is then
/// found, but it names no `u32`).
pub open spec fn edge_at(t: Seq<char>, i: int) -> Option<(int, int, int, int, int)> {
    if 0 <= i < t.len() && t[i] == '[' {
        let a0 = skip_spaces(t, i + 1);
        let a1 = skip_digits(t, a0);
        let p = skip_spaces(t, a1);
        if 0 <= p < t.len() && t[p] == ';' {
            let b0 = skip_spaces(t, p + 1);
            let b1 = skip_digits(t, b0);
            let q = skip_spaces(t, b1);
            if 0 <= q < t.len() && t[q] == ']' {
                Some((a0, a1, b0, b1, q + 1))
            } else {
                None
            }
        } else {
            None
        }
    } else {
        None
    }
}

pub proof fn lemma_edge_at(t: Seq<char>, i: int)
    requires
        0 <= i,
        edge_at(t, i) is Some,
    ensures
        ({
            let (a0, a1, b0, b1, e) = edge_at(t, i)->0;
            &&& i < a0 <= a1 < b0 <= b1 < e <= t.len()
            &&& forall|j: int| a0 <= j < a1 ==> is_digit(#[trigger] t[j])
            &&& forall|j: int| b0 <= j < b1 ==> is_digit(#[trigger] t[j])
        }),
{
    lemma_skip_spaces(t, i + 1);
    let a0 = skip_spaces(t, i + 1);
    lemma_skip_digits(t, a0);
    let a1 = skip_digits(t, a0);
    lemma_skip_spaces(t, a1);
    let p = skip_spaces(t, a1);
    lemma_skip_spaces(t, p + 1);
    let b0 = skip_spaces(t, p + 1);
    lemma_skip_digits(t, b0);
    let b1 = skip_digits(t, b0);
    lemma_skip_spaces(t, b1);
}

/// All edge matches from position `i` on, leftmost first, without overlap.
pub open spec fn edge_matches(t: Seq<char>, i: int) -> Seq<(int, int, int, int, int)>
    decreases t.len() - i,
{
    if i < 0 || i >= t.len() {
        seq![]
    } else {
        match edge_at(t, i) {
            Some(m) => {
                proof {
                    lemma_edge_at(t, i);
                }
                seq![m] + edge_matches(t, m.4)
            },
            None => edge_matches(t, i + 1),
        }
    }
}

/// Where `key\s*=\s*[0-9]+` matches at `i`: the span of its digits.
pub open spec fn assignment_at(t: Seq<char>, i: int, key: char) -> Option<(int, int)> {
    if 0 <= i < t.len() && t[i] == key {
        let p = skip_spaces(t, i + 1);
        if 0 <= p < t.len() && t[p] == '=' {
            let d0 = skip_spaces(t, p + 1);
            let d1 = skip_digits(t, d0);
            if d0 < d1 {
                Some((d0, d1))
            } else {
                None
            }
        } else {
            None
        }
    } else {
        None
    }
}

/// The leftmost assignment of `key` at or after `i`.
pub open spec fn first_assignment(t: Seq<char>, i: int, key: char) -> Option<(int, int)>
    decreases t.len() - i,
{
    if i < 0 || i >= t.len() {
        None
    } else {
        match assignment_at(t, i, key) {
            Some(m) => Some(m),
            None => first_assignment(t, i + 1, key),
        }
    }
}

/// Why an instance text was refused.
#[derive(Debug, Clone, Copy, PartialEq, Eq)]
pub enum InstanceError {
    /// An edge endpoint is empty or does not fit in a `u32`.
    BadEdgeNumber,
    /// An endpoint is `u32::MAX`, or there are more than `u32::MAX` edges:
    /// the graph cannot index that many.
    GraphTooLarge,
    /// No `s=<number>` in the text.
    MissingSource,
    /// The source number does not fit in a `u32`.
    BadSource,
    /// No `k=<number>` in the text.
    MissingCapacity,
    /// The capacity number does not fit in a `u32`.
    BadCapacity,
}

/// Both endpoints of every edge match are `u32` texts.
pub open spec fn edge_numbers_ok(t: Seq<char>, ms: Seq<(int, int, int, int, int)>) -> bool {
    forall|j: int| 0 <= j < ms.len() ==> is_u32_text(t, #[trigger] ms[j].0, ms[j].1)
        && is_u32_text(t, ms[j].2, ms[j].3)
}

/// The edges named by the matches.
pub open spec fn edge_values(t: Seq<char>, ms: Seq<(int, int, int, int, int)>) -> Seq<(u32, u32)> {
    ms.map_values(|m: (int, int, int, int, int)| (digits_value(t, m.0, m.1) as u32, digits_value(t, m.2, m.3) as u32))
}

/// Edges that a `petgraph` graph with `u32` indices can hold.
pub open spec fn edges_fit(edges: Seq<(u32, u32)>) -> bool {
    &&& edges.len() <= u32::MAX
    &&& forall|j: int| 0 <= j < edges.len() ==> #[trigger] edges[j].0 < u32::MAX && edges[j].1 < u32::MAX
}

/// What an instance text holds: its edges in order, its source and its
/// capacity; or why it is refused.
pub open spec fn instance_of(t: Seq<char>) -> Result<(Seq<(u32, u32)>, u32, u32), InstanceError> {
    let ms = edge_matches(t, 0);
    let edges = edge_values(t, ms);
    if !edge_numbers_ok(t, ms) {
        Err(InstanceError::BadEdgeNumber)
    } else if !edges_fit(edges) {
        Err(InstanceError::GraphTooLarge)
    } else {
        match first_assignment(t, 0, 's') {
            None => Err(InstanceError::MissingSource),
            Some((s0, s1)) => if !is_u32_text(t, s0, s1) {
                Err(InstanceError::BadSource)
            } else {
                match first_assignment(t, 0, 'k') {
                    None => Err(InstanceError::MissingCapacity),
                    Some((k0, k1)) => if !is_u32_text(t, k0, k1) {
                        Err(InstanceError::BadCapacity)
                    } else {
                        Ok((edges, digits_value(t, s0, s1) as u32, digits_value(t, k0, k1) as u32))
                    },
                }
            },
        }
    }
}

/// Exec form of `edge_at`.
fn match_edge_at(t: &Vec<char>, i: usize) -> (r: Option<(usize, usize, usize, usize, usize)>)
    requires
        i < t@.len(),
    ensures
        r is Some <==> edge_at(t@, i as int) is Some,
        r matches Some(m) ==> edge_at(t@, i as int) == Some(
            (m.0 as int, m.1 as int, m.2 as int, m.3 as int, m.4 as int),
        ),
{
    let n = t.len();
    if t[i] != '[' {
        return None;
    }
    proof {
        lemma_skip_spaces(t@, i + 1);
    }
    let a0 = skip_spaces_at(t, i + 1);
    proof {
        lemma_skip_digits(t@, a0 as int);
    }
    let a1 = skip_digits_at(t, a0);
    proof {
        lemma_skip_spaces(t@, a1 as int);
    }
    let p = skip_spaces_at(t, a1);
    if p >= t.len() || t[p] != ';' {
        return None;
    }
    proof {
        lemma_skip_spaces(t@, p + 1);
    }
    let b0 = skip_spaces_at(t, p + 1);
    proof {
        lemma_skip_digits(t@, b0 as int);
    }
    let b1 = skip_digits_at(t, b0);
    proof {
        lemma_skip_spaces(t@, b1 as int);
    }
    let q = skip_spaces_at(t, b1);
    if q >= t.len() || t[q] != ']' {
        return None;
    }
    Some((a0, a1, b0, b1, q + 1))
}

/// All edge matches of the text, leftmost first, without overlap.
fn find_edges(t: &Vec<char>) -> (ms: Vec<(usize, usize, usize, usize, usize)>)
    ensures
        ms@.map_values(|m: (usize, usize, usize, usize, usize)| (m.0 as int, m.1 as int, m.2 as int, m.3 as int, m.4 as int))
            == edge_matches(t@, 0),
{
    let mut ms: Vec<(usize, usize, usize, usize, usize)> = Vec::new();
    let mut i: usize = 0;
    while i < t.len()
        invariant
            i <= t@.len(),
            ms@.map_values(|m: (usize, usize, usize, usize, usize)| (m.0 as int, m.1 as int, m.2 as int, m.3 as int, m.4 as int))
                + edge_matches(t@, i as int) == edge_matches(t@, 0),
        decreases t@.len() - i,
    {
        let ghost old_ms = ms@;
        match match_edge_at(t, i) {
            Some(m) => {
                proof {
                    lemma_edge_at(t@, i as int);
                }
                ms.push(m);
                assert(ms@.map_values(|m: (usize, usize, usize, usize, usize)| (m.0 as int, m.1 as int, m.2 as int, m.3 as int, m.4 as int))
                    =~= old_ms.map_values(|m: (usize, usize, usize, usize, usize)| (m.0 as int, m.1 as int, m.2 as int, m.3 as int, m.4 as int))
                        + seq![(m.0 as int, m.1 as int, m.2 as int, m.3 as int, m.4 as int)]);
                i = m.4;
            },
            None => {
                i = i + 1;
            },
        }
    }
    ms
}

/// Exec form of `assignment_at`.
fn match_assignment_at(t: &Vec<char>, i: usize, key: char) -> (r: Option<(usize, usize)>)
    requires
        i < t@.len(),
    ensures
        r is Some <==> assignment_at(t@, i as int, key) is Some,
        r matches Some(m) ==> assignment_at(t@, i as int, key) == Some((m.0 as int, m.1 as int)),
        r matches Some(m) ==> m.0 < m.1 <= t@.len() && forall|j: int| m.0 <= j < m.1 ==> is_digit(#[trigger] t@[j]),
{
    let n = t.len();
    if t[i] != key {
        return None;
    }
    proof {
        lemma_skip_spaces(t@, i + 1);
    }
    let p = skip_spaces_at(t, i + 1);
    if p >= t.len() || t[p] != '=' {
        return None;
    }
    proof {
        lemma_skip_spaces(t@, p + 1);
    }
    let d0 = skip_spaces_at(t, p + 1);
    proof {
        lemma_skip_digits(t@, d0 as int);
    }
    let d1 = skip_digits_at(t, d0);
    if d0 < d1 {
        Some((d0, d1))
    } else {
        None
    }
}

/// Exec form of `first_assignment` from the start of the text.
fn find_assignment(t: &Vec<char>, key: char) -> (r: Option<(usize, usize)>)
    ensures
        r is Some <==> first_assignment(t@, 0, key) is Some,
        r matches Some(m) ==> first_assignment(t@, 0, key) == Some((m.0 as int, m.1 as int)),
        r matches Some(m) ==> m.0 < m.1 <= t@.len() && forall|j: int| m.0 <= j < m.1 ==> is_digit(#[trigger] t@[j]),
{
    let mut i: usize = 0;
    while i < t.len()
        invariant
            i <= t@.len(),
            first_assignment(t@, 0, key) == first_assignment(t@, i as int, key),
        decreases t@.len() - i,
    {
        let r = match_assignment_at(t, i, key);
        if r.is_some() {
            return r;
        }
        i = i + 1;
    }
    None
}

/// Reads an instance from the text of an instance file: every `[a;b]`
/// names an edge, in order; the first `s=<n>` names the source and the
/// first `k=<n>` the capacity.  The graph has one edge per match and just
/// enough nodes for the largest endpoint.
pub fn parse_instance(contents: &str) -> (r: Result<Instance, InstanceError>)
    ensures
        match instance_of(contents@) {
            Ok((edges, s, k)) => r matches Ok(inst) && graph_edge_list(inst.spec_graph()) == edges
                && graph_node_count(inst.spec_graph()) == node_bound(edges) && inst.spec_source() == s
                && inst.spec_capacity() == k
                && forall|v: u32| #[trigger] graph_edges_at(inst.spec_graph(), v) == insertion_walk(edges, v),
            Err(e) => r == Err::<Instance, InstanceError>(e),
        },
{
    let t = chars_of(contents);
    let ms = find_edges(&t);
    let ghost sms = edge_matches(t@, 0);
    proof {
        lemma_edge_matches(t@, 0);
        assert forall|q: int| 0 <= q < ms@.len() implies (#[trigger] sms[q]) == (ms@[q].0 as int, ms@[q].1 as int, ms@[q].2 as int, ms@[q].3 as int, ms@[q].4 as int) by {
            assert(sms[q] == ms@.map_values(|m: (usize, usize, usize, usize, usize)| (m.0 as int, m.1 as int, m.2 as int, m.3 as int, m.4 as int))[q]);
        }
    }
    let mut edges: Vec<(u32, u32)> = Vec::new();
    let mut j: usize = 0;
    while j < ms.len()
        invariant
            0 <= j <= ms@.len(),
            ms@.len() == sms.len(),
            sms == edge_matches(t@, 0),
            t@ == contents@,
            forall|q: int| 0 <= q < ms@.len() ==> (#[trigger] sms[q]) == (ms@[q].0 as int, ms@[q].1 as int, ms@[q].2 as int, ms@[q].3 as int, ms@[q].4 as int),
            forall|q: int| 0 <= q < sms.len() ==> match_in_text(t@, #[trigger] sms[q]),
            edge_numbers_ok(t@, sms.take(j as int)),
            edges@ == edge_values(t@, sms.take(j as int)),
        decreases ms@.len() - j,
    {
        let m = ms[j];
        assert(match_in_text(t@, sms[j as int]));
        let a = parse_u32_at(&t, m.0, m.1);
        let b = parse_u32_at(&t, m.2, m.3);
        match (a, b) {
            (Some(a), Some(b)) => {
                edges.push((a, b));
                proof {
                    assert(sms.take(j + 1) =~= sms.take(j as int).push(sms[j as int]));
                    assert(edge_values(t@, sms.take(j + 1)) =~= edge_values(t@, sms.take(j as int)).push((a, b)));
                }
            },
            _ => {
                proof {
                    assert(!edge_numbers_ok(t@, sms));
                    assert(contents@ == t@);
                    assert(instance_of(contents@) == Err::<(Seq<(u32, u32)>, u32, u32), InstanceError>(InstanceError::BadEdgeNumber));
                }
                return Err(InstanceError::BadEdgeNumber);
            },
        }
        j = j + 1;
    }
    proof {
        assert(sms.take(sms.len() as int) =~= sms);
    }
    proof {
        assert(contents@ == t@);
        assert(edge_numbers_ok(t@, sms));
    }
    if edges.len() > 0xffff_ffff {
        return Err(InstanceError::GraphTooLarge);
    }
    let mut q: usize = 0;
    while q < edges.len()
        invariant
            q <= edges@.len() <= u32::MAX,
            t@ == contents@,
            edge_numbers_ok(t@, sms),
            sms == edge_matches(t@, 0),
            edges@ == edge_values(t@, sms),
            forall|p: int| 0 <= p < q ==> #[trigger] edges@[p].0 < u32::MAX && edges@[p].1 < u32::MAX,
        decreases edges@.len() - q,
    {
        if edges[q].0 == 0xffff_ffff || edges[q].1 == 0xffff_ffff {
            assert(!edges_fit(edges@));
            return Err(InstanceError::GraphTooLarge);
        }
        q = q + 1;
    }
    let g = graph_from_edges(&edges);
    let s = match find_assignment(&t, 's') {
        None => {
            return Err(InstanceError::MissingSource);
        },
        Some((s0, s1)) => match parse_u32_at(&t, s0, s1) {
            None => {
                return Err(InstanceError::BadSource);
            },
            Some(v) => v,
        },
    };
    let k = match find_assignment(&t, 'k') {
        None => {
            return Err(InstanceError::MissingCapacity);
        },
        Some((k0, k1)) => match parse_u32_at(&t, k0, k1) {
            None => {
                return Err(InstanceError::BadCapacity);
            },
            Some(v) => v,
        },
    };
    Ok(Instance::new(g, k, s))
}

/// A match whose spans lie in the text, with digits in both number spans.
pub open spec fn match_in_text(t: Seq<char>, m: (int, int, int, int, int)) -> bool {
    &&& 0 <= m.0 <= m.1 <= m.2 <= m.3 <= m.4 <= t.len()
    &&& forall|j: int| m.0 <= j < m.1 ==> is_digit(#[trigger] t[j])
    &&& forall|j: int| m.2 <= j < m.3 ==> is_digit(#[trigger] t[j])
}

pub proof fn lemma_edge_matches(t: Seq<char>, i: int)
    ensures
        forall|q: int| 0 <= q < edge_matches(t, i).len() ==> match_in_text(t, #[trigger] edge_matches(t, i)[q]),
        forall|q: int| 0 <= q < edge_matches(t, i).len() ==> i < (#[trigger] edge_matches(t, i)[q]).0,
    decreases t.len() - i,
{
    if i < 0 || i >= t.len() {
        assert(edge_matches(t, i).len() == 0);
    } else {
        match edge_at(t, i) {
            Some(m) => {
                lemma_edge_at(t, i);
                lemma_edge_matches(t, m.4);
                let rest = edge_matches(t, m.4);
                assert(edge_matches(t, i) == seq![m] + rest);
                assert forall|q: int| 0 <= q < edge_matches(t, i).len() implies match_in_text(t, #[trigger] edge_matches(t, i)[q]) && i < edge_matches(t, i)[q].0 by {
                    if q > 0 {
                        assert(edge_matches(t, i)[q] == rest[q - 1]);
                    }
                }
            },
            None => {
                lemma_edge_matches(t, i + 1);
                assert(edge_matches(t, i) == edge_matches(t, i + 1));
            },
        }
    }
}

/// Edges with small endpoints, as `u32` pairs.
pub open spec fn as_u32_edges(edges: Seq<(nat, nat)>) -> Seq<(u32, u32)> {
    edges.map_values(|e: (nat, nat)| (e.0 as u32, e.1 as u32))
}

/// `node_bound` is above every endpoint.
pub proof fn lemma_node_bound_above(edges: Seq<(u32, u32)>)
    ensures
        forall|q: int| 0 <= q < edges.len() ==> (#[trigger] edges[q]).0 < node_bound(edges) && edges[q].1 < node_bound(edges),
    decreases edges.len(),
{
    if edges.len() > 0 {
        lemma_node_bound_above(edges.drop_last());
        assert forall|q: int| 0 <= q < edges.len() implies (#[trigger] edges[q]).0 < node_bound(edges) && edges[q].1 < node_bound(edges) by {
            if q < edges.len() - 1 {
                assert(edges[q] == edges.drop_last()[q]);
            }
        }
    }
}

/// `node_bound` is no more than a bound of all endpoints.
pub proof fn lemma_node_bound_below(edges: Seq<(u32, u32)>, n: nat)
    requires
        forall|q: int| 0 <= q < edges.len() ==> (#[trigger] edges[q]).0 < n && edges[q].1 < n,
    ensures
        node_bound(edges) <= n,
    decreases edges.len(),
{
    if edges.len() > 0 {
        assert forall|q: int| 0 <= q < edges.drop_last().len() implies (#[trigger] edges.drop_last()[q]).0 < n && edges.drop_last()[q].1 < n by {
            assert(edges.drop_last()[q] == edges[q]);
        }
        lemma_node_bound_below(edges.drop_last(), n);
    }
}

/// Creates the complete graph with `n` vertices, `0..n`: an edge for every
/// pair `i < j`, row by row.
pub fn complete_graph(n: u32) -> (g: InstanceGraph)
    requires
        n * (n - 1) <= 2 * u32::MAX,
    ensures
        graph_edge_list(g) == as_u32_edges(clique_edges(n as nat)),
        graph_node_count(g) == n,
        forall|v: u32| #[trigger] graph_edges_at(g, v) == insertion_walk(graph_edge_list(g), v),
{
    let mut raw_edges: Vec<(u32, u32)> = Vec::new();
    let mut i: u32 = 0;
    while i < n
        invariant
            i <= n,
            raw_edges@ == as_u32_edges(clique_rows(n as nat, i as nat)),
        decreases n - i,
    {
        let ghost before = clique_rows(n as nat, i as nat);
        let mut j: u32 = i + 1;
        while j < n
            invariant
                i < n,
                i + 1 <= j <= n,
                raw_edges@ == as_u32_edges(before + clique_row(n as nat, i as nat).take((j - i - 1) as int)),
            decreases n - j,
        {
            raw_edges.push((i, j));
            assert(before + clique_row(n as nat, i as nat).take((j + 1 - i - 1) as int)
                =~= (before + clique_row(n as nat, i as nat).take((j - i - 1) as int)).push((i as nat, j as nat)));
            assert(raw_edges@ =~= as_u32_edges(before + clique_row(n as nat, i as nat).take((j + 1 - i - 1) as int)));
            j = j + 1;
        }
        assert(clique_row(n as nat, i as nat).take((n - i - 1) as int) =~= clique_row(n as nat, i as nat));
        i = i + 1;
    }
    proof {
        lemma_clique_edges(n as nat);
        let ce = clique_edges(n as nat);
        assert(raw_edges@.len() == ce.len());
        assert forall|q: int| 0 <= q < raw_edges@.len() implies (#[trigger] raw_edges@[q]).0 < n && raw_edges@[q].1 < n by {
            assert(raw_edges@[q] == (ce[q].0 as u32, ce[q].1 as u32));
        }
        lemma_node_bound_below(raw_edges@, n as nat);
        lemma_node_bound_above(raw_edges@);
        if n >= 2 {
            assert(ce.contains(((n - 2) as nat, (n - 1) as nat)));
            let q = choose|q: int| 0 <= q < ce.len() && ce[q] == ((n - 2) as nat, (n - 1) as nat);
            assert(raw_edges@[q].1 == n - 1);
        } else {
            assert(ce.len() == 0) by (nonlinear_arith)
                requires
                    2 * ce.len() == n * (n - 1),
                    n < 2,
            ;
        }
    }
    let mut g = graph_from_edges(&raw_edges);
    while graph_nodes(&g) < n as usize
        invariant
            graph_edge_list(g) == raw_edges@,
            graph_node_count(g) <= n,
            forall|v: u32| #[trigger] graph_edges_at(g, v) == insertion_walk(raw_edges@, v),
        decreases n - graph_node_count(g),
    {
        graph_add_node(&mut g);
    }
    g
}

} // verus!
