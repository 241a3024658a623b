//! The linear program (and its integer version) of an instance, written in
//! the LP file format: cut variables `x_a_b` on both directions of every
//! edge, flow variables `f_a_b` on them and vertex variables `f_v`.
use vstd::prelude::*;
use crate::graph::{InstanceGraph, graph_edge_list, graph_node_count, graph_edges_at, graph_edges, graph_nodes,
    graph_edge_endpoints, graph_incident_edges, is_hop_distance_map, graph_hop_distances, lemma_hop_distance_unique};
use crate::text::{dec, push_dec};
use crate::instance::Instance;
use std::collections::HashMap;
use vstd::string::*;

verus! {

/// `x_a_b`, the cut variable of the edge direction `a -> b`.
pub open spec fn xv(a: nat, b: nat) -> Seq<char> {
    "x_"@ + dec(a) + "_"@ + dec(b)
}

/// `f_a_b`, the flow variable of the edge direction `a -> b`.
pub open spec fn fe(a: nat, b: nat) -> Seq<char> {
    "f_"@ + dec(a) + "_"@ + dec(b)
}

/// `f_v`, the variable of vertex `v`.
pub open spec fn fv(v: nat) -> Seq<char> {
    "f_"@ + dec(v)
}

/// `" + "` before every term but the first of a sum.
pub open spec fn plus_before(k: int) -> Seq<char> {
    if k > 0 { " + "@ } else { Seq::<char>::empty() }
}

/// The objective: both cut variables of each of the first `k` edges.
pub open spec fn objective_terms(edges: Seq<(u32, u32)>, k: int) -> Seq<char>
    decreases k,
{
    if k <= 0 {
        Seq::<char>::empty()
    } else {
        let (a, b) = edges[k - 1];
        objective_terms(edges, k - 1) + plus_before(k - 1) + xv(a as nat, b as nat) + " + "@ + xv(b as nat, a as nat)
    }
}

/// One line `x_a_b = 0` for each of the first `k` forced edges.
pub open spec fn forced_lines(forced: Seq<(usize, usize)>, k: int) -> Seq<char>
    decreases k,
{
    if k <= 0 {
        Seq::<char>::empty()
    } else {
        let (a, b) = forced[k - 1];
        forced_lines(forced, k - 1) + xv(a as nat, b as nat) + " = 0\n"@
    }
}

/// `x - f_p + f_q >= 0` for the cut variable `x`.
pub open spec fn cut_line(x: Seq<char>, p: nat, q: nat) -> Seq<char> {
    x + " - "@ + fv(p) + " + "@ + fv(q) + " >= 0\n"@
}

/// `f + m x <= m`: no flow over a cut edge direction beyond `m`.
pub open spec fn bound_line(f: Seq<char>, m: nat, x: Seq<char>) -> Seq<char> {
    f + " + "@ + dec(m) + " "@ + x + " <= "@ + dec(m) + "\n"@
}

/// The lines that define the cut variables of edge `(a, b)`, and, when a
/// pair of bounds `(ma, mb)` is given, the lines that bound its flow: by `ma`
/// from `a` to `b` and by `mb` from `b` to `a`.
pub open spec fn edge_cut_lines(a: nat, b: nat, bound: Option<(nat, nat)>) -> Seq<char> {
    cut_line(xv(a, b), a, b) + cut_line(xv(a, b), b, a) + cut_line(xv(b, a), a, b) + cut_line(xv(b, a), b, a)
        + match bound {
        Some((ma, mb)) => bound_line(fe(a, b), ma, xv(a, b)) + bound_line(fe(b, a), mb, xv(b, a)),
        None => Seq::<char>::empty(),
    }
}

/// The cut lines of the first `k` edges; `bounds`, when given, holds the
/// flow bounds of each edge, one per direction.
pub open spec fn cut_lines(edges: Seq<(u32, u32)>, bounds: Option<Seq<(u32, u32)>>, k: int) -> Seq<char>
    decreases k,
{
    if k <= 0 {
        Seq::<char>::empty()
    } else {
        let (a, b) = edges[k - 1];
        let bound = match bounds {
            Some(bs) => Some((bs[k - 1].0 as nat, bs[k - 1].1 as nat)),
            None => None,
        };
        cut_lines(edges, bounds, k - 1) + edge_cut_lines(a as nat, b as nat, bound)
    }
}

/// The neighbour that an edge of `graph_edges_at(g, v)` leads to.
pub open spec fn step_end(e: (u32, u32, u32), v: u32) -> u32 {
    if e.1 == v { e.2 } else { e.1 }
}

/// The outgoing flow of `s` over the first `k` edges at `s`.
pub open spec fn source_terms(at: Seq<(u32, u32, u32)>, s: u32, k: int) -> Seq<char>
    decreases k,
{
    if k <= 0 {
        Seq::<char>::empty()
    } else {
        source_terms(at, s, k - 1) + plus_before(k - 1) + fe(s as nat, step_end(at[k - 1], s) as nat)
    }
}

/// The flow balance terms of `v` over the first `k` edges at `v`.
pub open spec fn balance_terms(at: Seq<(u32, u32, u32)>, v: u32, k: int) -> Seq<char>
    decreases k,
{
    if k <= 0 {
        Seq::<char>::empty()
    } else {
        let o = step_end(at[k - 1], v) as nat;
        balance_terms(at, v, k - 1) + plus_before(k - 1) + fe(o, v as nat) + " - "@ + fe(v as nat, o)
    }
}

/// The balance lines of the first `k` vertices other than `s`.
pub open spec fn balance_lines(g: InstanceGraph, s: u32, k: int) -> Seq<char>
    decreases k,
{
    if k <= 0 {
        Seq::<char>::empty()
    } else {
        let v = (k - 1) as u32;
        let line = if v == s {
            Seq::<char>::empty()
        } else {
            let at = graph_edges_at(g, v);
            balance_terms(at, v, at.len() as int) + " - "@ + fv(v as nat) + " = 0\n"@
        };
        balance_lines(g, s, k - 1) + line
    }
}

/// The sum of the first `k` vertex variables.
pub open spec fn vertex_terms(k: int) -> Seq<char>
    decreases k,
{
    if k <= 0 {
        Seq::<char>::empty()
    } else {
        vertex_terms(k - 1) + plus_before(k - 1) + fv((k - 1) as nat)
    }
}

/// The inflow terms of `v` over the first `k` edges at `v`.
pub open spec fn inflow_terms(at: Seq<(u32, u32, u32)>, v: u32, k: int) -> Seq<char>
    decreases k,
{
    if k <= 0 {
        Seq::<char>::empty()
    } else {
        inflow_terms(at, v, k - 1) + " - "@ + fe(step_end(at[k - 1], v) as nat, v as nat)
    }
}

/// The absorption lines of the first `k` vertices other than `s`: vertex
/// `v` absorbs at most `coefs[v]` times its own variable.
pub open spec fn absorption_lines(g: InstanceGraph, s: u32, coefs: Seq<u32>, k: int) -> Seq<char>
    decreases k,
{
    if k <= 0 {
        Seq::<char>::empty()
    } else {
        let v = (k - 1) as u32;
        let line = if v == s {
            Seq::<char>::empty()
        } else {
            let at = graph_edges_at(g, v);
            dec(coefs[k - 1] as nat) + " "@ + fv(v as nat) + inflow_terms(at, v, at.len() as int) + " >= 0\n"@
        };
        absorption_lines(g, s, coefs, k - 1) + line
    }
}

/// The bounds of the first `k` vertex variables.
pub open spec fn vertex_bounds(k: int) -> Seq<char>
    decreases k,
{
    if k <= 0 {
        Seq::<char>::empty()
    } else {
        vertex_bounds(k - 1) + "0 <= "@ + fv((k - 1) as nat) + " <= 1\n"@
    }
}

/// The bounds of the variables of the first `k` edges.
pub open spec fn edge_bounds(edges: Seq<(u32, u32)>, k: int) -> Seq<char>
    decreases k,
{
    if k <= 0 {
        Seq::<char>::empty()
    } else {
        let (a, b) = edges[k - 1];
        edge_bounds(edges, k - 1) + fe(a as nat, b as nat) + " >= 0\n"@ + fe(b as nat, a as nat) + " >= 0\n"@
            + "0 <= "@ + xv(a as nat, b as nat) + " <= 1\n"@ + "0 <= "@ + xv(b as nat, a as nat) + " <= 1\n"@
    }
}

/// The first `k` vertex variables, each followed by a space.
pub open spec fn general_vertices(k: int) -> Seq<char>
    decreases k,
{
    if k <= 0 {
        Seq::<char>::empty()
    } else {
        general_vertices(k - 1) + fv((k - 1) as nat) + " "@
    }
}

/// The cut variables of the first `k` edges, each followed by a space.
pub open spec fn general_edges(edges: Seq<(u32, u32)>, k: int) -> Seq<char>
    decreases k,
{
    if k <= 0 {
        Seq::<char>::empty()
    } else {
        let (a, b) = edges[k - 1];
        general_edges(edges, k - 1) + xv(a as nat, b as nat) + " "@ + xv(b as nat, a as nat) + " "@
    }
}

/// The `Generals` section, which makes every variable an integer.
pub open spec fn generals_section(g: InstanceGraph) -> Seq<char> {
    let n = graph_node_count(g);
    let edges = graph_edge_list(g);
    "Generals\n"@ + general_vertices(n as int) + general_edges(edges, edges.len() as int) + "\n"@
}

/// The whole program text.  `c` is the capacity and `s` the source;
/// `forced` are the edges whose cut value is forced to 0; `bounds`, when
/// given, the flow bounds of each edge; `coefs` the absorption coefficient
/// of each vertex; `ilp` asks for the integer program.
pub open spec fn lp_text(
    g: InstanceGraph,
    s: u32,
    c: u32,
    forced: Seq<(usize, usize)>,
    bounds: Option<Seq<(u32, u32)>>,
    coefs: Seq<u32>,
    ilp: bool,
) -> Seq<char> {
    let n = graph_node_count(g);
    let edges = graph_edge_list(g);
    let at_s = graph_edges_at(g, s);
    "Minimize\n"@ + objective_terms(edges, edges.len() as int) + "\n"@
        + "Subject to\n"@
        + forced_lines(forced, forced.len() as int)
        + cut_lines(edges, bounds, edges.len() as int)
        + source_terms(at_s, s, at_s.len() as int) + " = "@ + dec((c - 1) as nat) + "\n"@
        + fv(s as nat) + " = 1\n"@
        + balance_lines(g, s, n as int)
        + vertex_terms(n as int) + " = "@ + dec(c as nat) + "\n"@
        + absorption_lines(g, s, coefs, n as int)
        + "Bounds\n"@ + vertex_bounds(n as int) + edge_bounds(edges, edges.len() as int)
        + (if ilp { generals_section(g) } else { Seq::<char>::empty() })
        + "End\n"@
}

/// The endpoints of edge `i`, which exists.
pub(crate) fn edge_at_index(g: &InstanceGraph, i: usize) -> (e: (u32, u32))
    requires
        i < graph_edge_list(*g).len(),
        i < u32::MAX,
    ensures
        e == graph_edge_list(*g)[i as int],
        e.0 < graph_node_count(*g),
        e.1 < graph_node_count(*g),
{
    match graph_edge_endpoints(g, i) {
        Some(e) => e,
        None => (0, 0),
    }
}

fn push_xv(out: &mut String, a: u64, b: u64)
    ensures
        final(out)@ == old(out)@ + xv(a as nat, b as nat),
{
    let ghost start = out@;
    out.append("x_");
    push_dec(out, a);
    out.append("_");
    push_dec(out, b);
    assert(out@ =~= start + xv(a as nat, b as nat));
}

fn push_fe(out: &mut String, a: u64, b: u64)
    ensures
        final(out)@ == old(out)@ + fe(a as nat, b as nat),
{
    let ghost start = out@;
    out.append("f_");
    push_dec(out, a);
    out.append("_");
    push_dec(out, b);
    assert(out@ =~= start + fe(a as nat, b as nat));
}

fn push_fv(out: &mut String, v: u64)
    ensures
        final(out)@ == old(out)@ + fv(v as nat),
{
    let ghost start = out@;
    out.append("f_");
    push_dec(out, v);
    assert(out@ =~= start + fv(v as nat));
}

fn push_plus_before(out: &mut String, k: usize)
    ensures
        final(out)@ == old(out)@ + plus_before(k as int),
{
    if k > 0 {
        out.append(" + ");
    } else {
        assert(out@ =~= out@ + plus_before(k as int));
    }
}

fn push_objective(out: &mut String, g: &InstanceGraph)
    ensures
        final(out)@ == old(out)@ + objective_terms(graph_edge_list(*g), graph_edge_list(*g).len() as int),
{
    let ghost start = out@;
    let ghost edges = graph_edge_list(*g);
    let m = graph_edges(g);
    let mut i: usize = 0;
    while i < m
        invariant
            i <= m == edges.len() <= u32::MAX,
            edges == graph_edge_list(*g),
            out@ == start + objective_terms(edges, i as int),
        decreases m - i,
    {
        let (a, b) = edge_at_index(g, i);
        push_plus_before(out, i);
        push_xv(out, a as u64, b as u64);
        out.append(" + ");
        push_xv(out, b as u64, a as u64);
        assert(out@ =~= start + objective_terms(edges, i + 1));
        i = i + 1;
    }
}

fn push_forced(out: &mut String, forced: &Vec<(usize, usize)>)
    ensures
        final(out)@ == old(out)@ + forced_lines(forced@, forced@.len() as int),
{
    let ghost start = out@;
    let mut i: usize = 0;
    while i < forced.len()
        invariant
            i <= forced@.len(),
            out@ == start + forced_lines(forced@, i as int),
        decreases forced@.len() - i,
    {
        let (a, b) = forced[i];
        push_xv(out, a as u64, b as u64);
        out.append(" = 0\n");
        assert(out@ =~= start + forced_lines(forced@, i + 1));
        i = i + 1;
    }
}

fn push_cut_line(out: &mut String, a: u64, b: u64, p: u64, q: u64)
    ensures
        final(out)@ == old(out)@ + cut_line(xv(a as nat, b as nat), p as nat, q as nat),
{
    let ghost start = out@;
    push_xv(out, a, b);
    out.append(" - ");
    push_fv(out, p);
    out.append(" + ");
    push_fv(out, q);
    out.append(" >= 0\n");
    assert(out@ =~= start + cut_line(xv(a as nat, b as nat), p as nat, q as nat));
}

fn push_bound_line(out: &mut String, a: u64, b: u64, m: u64)
    ensures
        final(out)@ == old(out)@ + bound_line(fe(a as nat, b as nat), m as nat, xv(a as nat, b as nat)),
{
    let ghost start = out@;
    push_fe(out, a, b);
    out.append(" + ");
    push_dec(out, m);
    out.append(" ");
    push_xv(out, a, b);
    out.append(" <= ");
    push_dec(out, m);
    out.append("\n");
    assert(out@ =~= start + bound_line(fe(a as nat, b as nat), m as nat, xv(a as nat, b as nat)));
}

fn push_edge_cut_lines(out: &mut String, a: u64, b: u64, bound: Option<(u64, u64)>)
    ensures
        final(out)@ == old(out)@ + edge_cut_lines(a as nat, b as nat, match bound {
            Some((ma, mb)) => Some((ma as nat, mb as nat)),
            None => None,
        }),
{
    let ghost start = out@;
    push_cut_line(out, a, b, a, b);
    push_cut_line(out, a, b, b, a);
    push_cut_line(out, b, a, a, b);
    push_cut_line(out, b, a, b, a);
    match bound {
        Some((ma, mb)) => {
            push_bound_line(out, a, b, ma);
            push_bound_line(out, b, a, mb);
        },
        None => {},
    }
    assert(out@ =~= start + edge_cut_lines(a as nat, b as nat, match bound {
        Some((ma, mb)) => Some((ma as nat, mb as nat)),
        None => None,
    }));
}

fn push_cut_lines(out: &mut String, g: &InstanceGraph, bounds: &Option<Vec<(u32, u32)>>)
    requires
        bounds matches Some(bs) ==> bs@.len() == graph_edge_list(*g).len(),
    ensures
        final(out)@ == old(out)@ + cut_lines(graph_edge_list(*g), match bounds {
            Some(bs) => Some(bs@),
            None => None,
        }, graph_edge_list(*g).len() as int),
{
    let ghost start = out@;
    let ghost edges = graph_edge_list(*g);
    let ghost sb = match bounds {
        Some(bs) => Some(bs@),
        None => None,
    };
    let m = graph_edges(g);
    let mut i: usize = 0;
    while i < m
        invariant
            i <= m == edges.len() <= u32::MAX,
            edges == graph_edge_list(*g),
            bounds matches Some(bs) ==> bs@.len() == edges.len(),
            sb == match bounds {
                Some(bs) => Some(bs@),
                None => None::<Seq<(u32, u32)>>,
            },
            out@ == start + cut_lines(edges, sb, i as int),
        decreases m - i,
    {
        let (a, b) = edge_at_index(g, i);
        let bound: Option<(u64, u64)> = match bounds {
            Some(bs) => Some((bs[i].0 as u64, bs[i].1 as u64)),
            None => None,
        };
        let ghost sbound: Option<(nat, nat)> = match bound {
            Some((ma, mb)) => Some((ma as nat, mb as nat)),
            None => None,
        };
        let ghost before = out@;
        push_edge_cut_lines(out, a as u64, b as u64, bound);
        proof {
            assert(sbound == match sb {
                Some(bs) => Some((bs[i as int].0 as nat, bs[i as int].1 as nat)),
                None => None::<(nat, nat)>,
            });
            assert(cut_lines(edges, sb, i + 1) == cut_lines(edges, sb, i as int) + edge_cut_lines(a as nat, b as nat, sbound));
            assert(out@ == before + edge_cut_lines(a as nat, b as nat, sbound));
        }
        assert(out@ =~= start + cut_lines(edges, sb, i + 1));
        i = i + 1;
    }
}

fn push_source_terms(out: &mut String, g: &InstanceGraph, s: u32)
    ensures
        final(out)@ == old(out)@ + source_terms(graph_edges_at(*g, s), s, graph_edges_at(*g, s).len() as int),
{
    let ghost start = out@;
    let at = graph_incident_edges(g, s);
    let mut i: usize = 0;
    while i < at.len()
        invariant
            i <= at@.len(),
            at@ == graph_edges_at(*g, s),
            out@ == start + source_terms(at@, s, i as int),
        decreases at@.len() - i,
    {
        let (_, from, to) = at[i];
        push_plus_before(out, i);
        if from == s {
            push_fe(out, s as u64, to as u64);
        } else {
            push_fe(out, s as u64, from as u64);
        }
        assert(out@ =~= start + source_terms(at@, s, i + 1));
        i = i + 1;
    }
}

fn push_balance_line(out: &mut String, g: &InstanceGraph, v: u32)
    ensures
        final(out)@ == old(out)@ + balance_terms(graph_edges_at(*g, v), v, graph_edges_at(*g, v).len() as int)
            + " - "@ + fv(v as nat) + " = 0\n"@,
{
    let ghost start = out@;
    let at = graph_incident_edges(g, v);
    let mut i: usize = 0;
    while i < at.len()
        invariant
            i <= at@.len(),
            at@ == graph_edges_at(*g, v),
            out@ == start + balance_terms(at@, v, i as int),
        decreases at@.len() - i,
    {
        let (_, from, to) = at[i];
        let o = if from == v { to } else { from };
        push_plus_before(out, i);
        push_fe(out, o as u64, v as u64);
        out.append(" - ");
        push_fe(out, v as u64, o as u64);
        assert(out@ =~= start + balance_terms(at@, v, i + 1));
        i = i + 1;
    }
    out.append(" - ");
    push_fv(out, v as u64);
    out.append(" = 0\n");
    assert(out@ =~= start + balance_terms(at@, v, at@.len() as int) + " - "@ + fv(v as nat) + " = 0\n"@);
}

fn push_balance_lines(out: &mut String, g: &InstanceGraph, s: u32)
    ensures
        final(out)@ == old(out)@ + balance_lines(*g, s, graph_node_count(*g) as int),
{
    let ghost start = out@;
    let n = graph_nodes(g);
    let mut v: usize = 0;
    while v < n
        invariant
            v <= n == graph_node_count(*g) <= u32::MAX,
            out@ == start + balance_lines(*g, s, v as int),
        decreases n - v,
    {
        if v as u32 != s {
            push_balance_line(out, g, v as u32);
        }
        assert(out@ =~= start + balance_lines(*g, s, v + 1));
        v = v + 1;
    }
}

fn push_vertex_terms(out: &mut String, n: usize)
    ensures
        final(out)@ == old(out)@ + vertex_terms(n as int),
{
    let ghost start = out@;
    let mut v: usize = 0;
    while v < n
        invariant
            v <= n,
            out@ == start + vertex_terms(v as int),
        decreases n - v,
    {
        push_plus_before(out, v);
        push_fv(out, v as u64);
        assert(out@ =~= start + vertex_terms(v + 1));
        v = v + 1;
    }
}

fn push_absorption_line(out: &mut String, g: &InstanceGraph, v: u32, coef: u32)
    ensures
        final(out)@ == old(out)@ + dec(coef as nat) + " "@ + fv(v as nat)
            + inflow_terms(graph_edges_at(*g, v), v, graph_edges_at(*g, v).len() as int) + " >= 0\n"@,
{
    let ghost start = out@;
    push_dec(out, coef as u64);
    out.append(" ");
    push_fv(out, v as u64);
    let ghost head = out@;
    let at = graph_incident_edges(g, v);
    let mut i: usize = 0;
    while i < at.len()
        invariant
            i <= at@.len(),
            at@ == graph_edges_at(*g, v),
            out@ == head + inflow_terms(at@, v, i as int),
        decreases at@.len() - i,
    {
        let (_, from, to) = at[i];
        let o = if from == v { to } else { from };
        out.append(" - ");
        push_fe(out, o as u64, v as u64);
        assert(out@ =~= head + inflow_terms(at@, v, i + 1));
        i = i + 1;
    }
    out.append(" >= 0\n");
    assert(out@ =~= start + dec(coef as nat) + " "@ + fv(v as nat) + inflow_terms(at@, v, at@.len() as int) + " >= 0\n"@);
}

fn push_absorption_lines(out: &mut String, g: &InstanceGraph, s: u32, coefs: &Vec<u32>)
    requires
        coefs@.len() == graph_node_count(*g),
    ensures
        final(out)@ == old(out)@ + absorption_lines(*g, s, coefs@, graph_node_count(*g) as int),
{
    let ghost start = out@;
    let n = graph_nodes(g);
    let mut v: usize = 0;
    while v < n
        invariant
            v <= n == graph_node_count(*g) <= u32::MAX,
            coefs@.len() == n,
            out@ == start + absorption_lines(*g, s, coefs@, v as int),
        decreases n - v,
    {
        if v as u32 != s {
            push_absorption_line(out, g, v as u32, coefs[v]);
        }
        assert(out@ =~= start + absorption_lines(*g, s, coefs@, v + 1));
        v = v + 1;
    }
}

fn push_vertex_bounds(out: &mut String, n: usize)
    ensures
        final(out)@ == old(out)@ + vertex_bounds(n as int),
{
    let ghost start = out@;
    let mut v: usize = 0;
    while v < n
        invariant
            v <= n,
            out@ == start + vertex_bounds(v as int),
        decreases n - v,
    {
        out.append("0 <= ");
        push_fv(out, v as u64);
        out.append(" <= 1\n");
        assert(out@ =~= start + vertex_bounds(v + 1));
        v = v + 1;
    }
}

fn push_edge_bounds(out: &mut String, g: &InstanceGraph)
    ensures
        final(out)@ == old(out)@ + edge_bounds(graph_edge_list(*g), graph_edge_list(*g).len() as int),
{
    let ghost start = out@;
    let ghost edges = graph_edge_list(*g);
    let m = graph_edges(g);
    let mut i: usize = 0;
    while i < m
        invariant
            i <= m == edges.len() <= u32::MAX,
            edges == graph_edge_list(*g),
            out@ == start + edge_bounds(edges, i as int),
        decreases m - i,
    {
        let (a, b) = edge_at_index(g, i);
        push_fe(out, a as u64, b as u64);
        out.append(" >= 0\n");
        push_fe(out, b as u64, a as u64);
        out.append(" >= 0\n");
        out.append("0 <= ");
        push_xv(out, a as u64, b as u64);
        out.append(" <= 1\n");
        out.append("0 <= ");
        push_xv(out, b as u64, a as u64);
        out.append(" <= 1\n");
        assert(out@ =~= start + edge_bounds(edges, i + 1));
        i = i + 1;
    }
}

fn push_generals(out: &mut String, g: &InstanceGraph)
    ensures
        final(out)@ == old(out)@ + generals_section(*g),
{
    let ghost start = out@;
    let ghost edges = graph_edge_list(*g);
    out.append("Generals\n");
    let ghost head = out@;
    let n = graph_nodes(g);
    let mut v: usize = 0;
    while v < n
        invariant
            v <= n == graph_node_count(*g),
            out@ == head + general_vertices(v as int),
        decreases n - v,
    {
        push_fv(out, v as u64);
        out.append(" ");
        assert(out@ =~= head + general_vertices(v + 1));
        v = v + 1;
    }
    let ghost mid = out@;
    let m = graph_edges(g);
    let mut i: usize = 0;
    while i < m
        invariant
            i <= m == edges.len() <= u32::MAX,
            edges == graph_edge_list(*g),
            out@ == mid + general_edges(edges, i as int),
        decreases m - i,
    {
        let (a, b) = edge_at_index(g, i);
        push_xv(out, a as u64, b as u64);
        out.append(" ");
        push_xv(out, b as u64, a as u64);
        out.append(" ");
        assert(out@ =~= mid + general_edges(edges, i + 1));
        i = i + 1;
    }
    out.append("\n");
    assert(out@ =~= start + generals_section(*g));
}

/// Writes the whole program text; see `lp_text`.
pub fn write_lp_text(
    g: &InstanceGraph,
    s: u32,
    c: u32,
    forced: &Vec<(usize, usize)>,
    bounds: &Option<Vec<(u32, u32)>>,
    coefs: &Vec<u32>,
    ilp: bool,
) -> (text: String)
    requires
        c >= 1,
        bounds matches Some(bs) ==> bs@.len() == graph_edge_list(*g).len(),
        coefs@.len() == graph_node_count(*g),
    ensures
        text@ == lp_text(*g, s, c, forced@, match bounds {
            Some(bs) => Some(bs@),
            None => None,
        }, coefs@, ilp),
{
    let mut out = String::new();
    out.append("Minimize\n");
    push_objective(&mut out, g);
    out.append("\n");
    out.append("Subject to\n");
    push_forced(&mut out, forced);
    push_cut_lines(&mut out, g, bounds);
    push_source_terms(&mut out, g, s);
    out.append(" = ");
    push_dec(&mut out, (c - 1) as u64);
    out.append("\n");
    push_fv(&mut out, s as u64);
    out.append(" = 1\n");
    push_balance_lines(&mut out, g, s);
    let n = graph_nodes(g);
    push_vertex_terms(&mut out, n);
    out.append(" = ");
    push_dec(&mut out, c as u64);
    out.append("\n");
    push_absorption_lines(&mut out, g, s, coefs);
    out.append("Bounds\n");
    push_vertex_bounds(&mut out, n);
    push_edge_bounds(&mut out, g);
    let ghost before_generals = out@;
    if ilp {
        push_generals(&mut out, g);
    } else {
        assert(out@ =~= before_generals + Seq::<char>::empty());
    }
    out.append("End\n");
    assert(out@ =~= lp_text(*g, s, c, forced@, match bounds {
        Some(bs) => Some(bs@),
        None => None,
    }, coefs@, ilp));
    out
}

/// A set of directed edges `(from, to)` whose cut value the program forces
/// to 0.  It keeps the order in which the pairs were first inserted.
pub struct EdgeSet {
    pairs: Vec<(usize, usize)>,
}

impl View for EdgeSet {
    type V = Set<(usize, usize)>;

    open spec fn view(&self) -> Set<(usize, usize)> {
        self.order().to_set()
    }
}

impl EdgeSet {
    #[verifier::type_invariant]
    closed spec fn no_repeats(&self) -> bool {
        self.pairs@.no_duplicates()
    }

    /// The pairs in the order of their first insertion.
    pub closed spec fn order(&self) -> Seq<(usize, usize)> {
        self.pairs@
    }

    pub fn new() -> (es: Self)
        ensures
            es@ == Set::<(usize, usize)>::empty(),
            es.order() == Seq::<(usize, usize)>::empty(),
    {
        let es = EdgeSet { pairs: Vec::new() };
        assert(es.pairs@.to_set() =~= Set::<(usize, usize)>::empty());
        es
    }

    pub fn contains(&self, e: (usize, usize)) -> (r: bool)
        ensures
            r == self@.contains(e),
    {
        let mut i: usize = 0;
        while i < self.pairs.len()
            invariant
                i <= self.pairs@.len(),
                forall|j: int| 0 <= j < i ==> self.pairs@[j] != e,
            decreases self.pairs@.len() - i,
        {
            if self.pairs[i].0 == e.0 && self.pairs[i].1 == e.1 {
                assert(self.pairs@.contains(e));
                return true;
            }
            i = i + 1;
        }
        assert(!self.pairs@.contains(e));
        false
    }

    /// Adds `e`; a pair already present keeps its place.
    pub fn insert(&mut self, e: (usize, usize))
        ensures
            final(self)@ == old(self)@.insert(e),
            final(self).order() == (if old(self)@.contains(e) { old(self).order() } else { old(self).order().push(e) }),
    {
        proof {
            use_type_invariant(&*self);
        }
        if !self.contains(e) {
            let ghost before = self.pairs@;
            let mut pairs: Vec<(usize, usize)> = Vec::new();
            std::mem::swap(&mut pairs, &mut self.pairs);
            pairs.push(e);
            self.pairs = pairs;
            proof {
                assert forall|x: (usize, usize)| before.push(e).contains(x) <==> x == e || before.contains(x) by {
                    vstd::seq_lib::lemma_seq_contains_after_push(before, e, x);
                }
                assert(before.push(e).to_set() =~= before.to_set().insert(e));
                assert(before.push(e).no_duplicates());
            }
        } else {
            assert(self.pairs@.to_set() =~= self.pairs@.to_set().insert(e));
        }
    }

    pub fn len(&self) -> (n: usize)
        ensures
            n == self@.len(),
    {
        proof {
            use_type_invariant(self);
            self.pairs@.unique_seq_to_set();
        }
        self.pairs.len()
    }

    /// The pairs, in the order of their first insertion.
    pub fn pairs(&self) -> (v: &Vec<(usize, usize)>)
        ensures
            v@ == self.order(),
            v@.no_duplicates(),
            v@.to_set() == self@,
    {
        proof {
            use_type_invariant(self);
        }
        &self.pairs
    }
}

/// Why no program was written.
#[derive(Debug, Clone, Copy, PartialEq, Eq)]
pub enum LpError {
    /// The source is not a vertex of the graph.
    SourceNotInGraph,
    /// Some vertex cannot be reached from the source.
    Unreachable,
    /// The capacity is 0, or smaller than the distance of some vertex from
    /// the source.
    CapacityTooSmall,
}

/// The flow bounds of each edge `(a, b)`: from `a` to `b` the capacity
/// less the distance of `b`, and from `b` to `a` the capacity less the
/// distance of `a`.
pub open spec fn distance_bounds(edges: Seq<(u32, u32)>, d: Map<u32, u32>, c: u32) -> Seq<(u32, u32)> {
    Seq::new(edges.len(), |i: int| ((c - d[edges[i].1]) as u32, (c - d[edges[i].0]) as u32))
}

/// The absorption coefficient of each vertex: the capacity less its
/// distance from the source.
pub open spec fn distance_coefs(n: nat, d: Map<u32, u32>, c: u32) -> Seq<u32> {
    Seq::new(n, |v: int| (c - d[v as u32]) as u32)
}

/// Every vertex has a distance.
pub open spec fn all_reached(n: nat, d: Map<u32, u32>) -> bool {
    forall|v: u32| v < n ==> #[trigger] d.contains_key(v)
}

/// No distance exceeds the capacity.
pub open spec fn within_capacity(n: nat, d: Map<u32, u32>, c: u32) -> bool {
    forall|v: u32| v < n ==> #[trigger] d[v] <= c
}

/// What `create_lp` gives for the distances `d` from the source.
pub open spec fn lp_outcome(
    g: InstanceGraph,
    s: u32,
    c: u32,
    forced: Seq<(usize, usize)>,
    d: Map<u32, u32>,
    ilp: bool,
) -> Result<Seq<char>, LpError> {
    let n = graph_node_count(g);
    if !all_reached(n, d) {
        Err(LpError::Unreachable)
    } else if c == 0 || !within_capacity(n, d, c) {
        Err(LpError::CapacityTooSmall)
    } else {
        Ok(lp_text(g, s, c, forced, Some(distance_bounds(graph_edge_list(g), d, c)), distance_coefs(n, d, c), ilp))
    }
}

/// A result of `create_lp` that matches an outcome.
pub open spec fn lp_result_is(r: Result<String, LpError>, o: Result<Seq<char>, LpError>) -> bool {
    match r {
        Ok(t) => o == Ok::<Seq<char>, LpError>(t@),
        Err(e) => o == Err::<Seq<char>, LpError>(e),
    }
}

/// The program of an instance for the given distances from the source:
/// the flow over each direction of an edge is bounded by the capacity less
/// the distance of the vertex it leads to, and each vertex absorbs at most the capacity less
/// its distance.  Refused when a vertex has no distance, or the capacity
/// is 0 or below a distance.
#[verifier::loop_isolation(false)]
pub fn lp_with_distances(ilp: bool, inst: &Instance, edges: &EdgeSet, dist: &HashMap<u32, u32>) -> (r: Result<String, LpError>)
    ensures
        lp_result_is(r, lp_outcome(inst.spec_graph(), inst.spec_source(), inst.spec_capacity(), edges.order(), dist@, ilp)),
{
    broadcast use vstd::std_specs::hash::group_hash_axioms;
    let g = inst.graph();
    let s = inst.source();
    let c = inst.capacity();
    let n = graph_nodes(g);
    let ghost d = dist@;
    let mut v: usize = 0;
    while v < n
        invariant
            v <= n == graph_node_count(*g) <= u32::MAX,
            d == dist@,
            forall|u: u32| u < v ==> #[trigger] d.contains_key(u),
        decreases n - v,
    {
        if !dist.contains_key(&(v as u32)) {
            assert(!all_reached(n as nat, d));
            return Err(LpError::Unreachable);
        }
        v = v + 1;
    }
    assert(all_reached(n as nat, d));
    if c == 0 {
        return Err(LpError::CapacityTooSmall);
    }
    let mut coefs: Vec<u32> = Vec::new();
    let mut v: usize = 0;
    while v < n
        invariant
            v <= n == graph_node_count(*g) <= u32::MAX,
            d == dist@,
            all_reached(n as nat, d),
            coefs@.len() == v,
            forall|u: u32| u < v ==> #[trigger] d[u] <= c,
            forall|u: int| 0 <= u < v ==> #[trigger] coefs@[u] == (c - d[u as u32]) as u32,
        decreases n - v,
    {
        let dv = *dist.get(&(v as u32)).unwrap();
        if dv > c {
            assert(!within_capacity(n as nat, d, c));
            return Err(LpError::CapacityTooSmall);
        }
        coefs.push(c - dv);
        v = v + 1;
    }
    assert(within_capacity(n as nat, d, c));
    assert(coefs@ =~= distance_coefs(n as nat, d, c));
    let ghost list = graph_edge_list(*g);
    let m = graph_edges(g);
    let mut bounds: Vec<(u32, u32)> = Vec::new();
    let mut i: usize = 0;
    while i < m
        invariant
            i <= m == list.len() <= u32::MAX,
            list == graph_edge_list(*g),
            n == graph_node_count(*g),
            d == dist@,
            all_reached(n as nat, d),
            within_capacity(n as nat, d, c),
            bounds@.len() == i,
            forall|j: int| 0 <= j < i ==> #[trigger] bounds@[j] == ((c - d[list[j].1]) as u32, (c - d[list[j].0]) as u32),
        decreases m - i,
    {
        let (a, b) = edge_at_index(g, i);
        let da = *dist.get(&a).unwrap();
        let db = *dist.get(&b).unwrap();
        bounds.push((c - db, c - da));
        i = i + 1;
    }
    assert(bounds@ =~= distance_bounds(list, d, c));
    let text = write_lp_text(g, s, c, edges.pairs(), &Some(bounds), &coefs, ilp);
    Ok(text)
}

/// Creates the linear program, or the integer one when `ilp` holds, of an
/// instance, and forces the cut value of every edge of `edges` to 0.  The
/// distances come from the source by `dijkstra`; the program is then the
/// one of `lp_with_distances`, for the one map of hop distances there is.
pub fn create_lp(ilp: bool, inst: &Instance, edges: &EdgeSet) -> (r: Result<String, LpError>)
    ensures
        inst.spec_source() >= graph_node_count(inst.spec_graph()) ==> r == Err::<String, LpError>(LpError::SourceNotInGraph),
        inst.spec_source() < graph_node_count(inst.spec_graph()) ==> exists|d: Map<u32, u32>|
            is_hop_distance_map(graph_node_count(inst.spec_graph()), graph_edge_list(inst.spec_graph()), inst.spec_source(), d),
        inst.spec_source() < graph_node_count(inst.spec_graph()) ==> forall|d: Map<u32, u32>|
            is_hop_distance_map(graph_node_count(inst.spec_graph()), graph_edge_list(inst.spec_graph()), inst.spec_source(), d)
            ==> lp_result_is(r, lp_outcome(inst.spec_graph(), inst.spec_source(), inst.spec_capacity(), edges.order(), d, ilp)),
{
    let g = inst.graph();
    let s = inst.source();
    let n = graph_nodes(g);
    if s as usize >= n {
        return Err(LpError::SourceNotInGraph);
    }
    let dist = graph_hop_distances(g, s);
    let r = lp_with_distances(ilp, inst, edges, &dist);
    proof {
        let nn = graph_node_count(*g);
        let es = graph_edge_list(*g);
        assert forall|d: Map<u32, u32>| is_hop_distance_map(nn, es, s, d) implies
            lp_result_is(r, lp_outcome(*g, s, inst.spec_capacity(), edges.order(), d, ilp)) by {
            lemma_hop_distance_unique(nn, es, s, d, dist@);
        }
    }
    r
}

/// The absorption coefficient `k - 1` of every vertex of the plain program.
pub open spec fn uniform_coefs(n: nat, k: u32) -> Seq<u32> {
    Seq::new(n, |v: int| (k - 1) as u32)
}

/// In the plain program every vertex absorbs at most the capacity less one:
/// one unit of flow stays at each vertex, the rest it may pass on.
pub proof fn lemma_basic_coefficients(n: nat, k: u32)
    requires
        k >= 1,
    ensures
        uniform_coefs(n, k).len() == n,
        forall|v: int| 0 <= v < n ==> #[trigger] uniform_coefs(n, k)[v] + 1 == k,
{
}

/// The absorption coefficients of the plain program are those of the
/// program for distances when every vertex is at distance 1 from the
/// source.
pub proof fn lemma_basic_is_unit_distance(n: nat, d: Map<u32, u32>, k: u32)
    requires
        forall|v: u32| v < n ==> #[trigger] d[v] == 1,
    ensures
        distance_coefs(n, d, k) == uniform_coefs(n, k),
{
    assert forall|v: int| 0 <= v < n implies #[trigger] distance_coefs(n, d, k)[v] == uniform_coefs(n, k)[v] by {
        assert(d[v as u32] == 1);
    }
    assert(distance_coefs(n, d, k) =~= uniform_coefs(n, k));
}

/// Creates the plain linear program (the integer one when `ilp` holds) of
/// choosing `k` connected vertices with the source among them: no forced
/// edges, no flow bounds, and every vertex absorbs at most `k - 1`.  A
/// capacity of 0 is refused.
pub fn create_basic_lp(ilp: bool, inst: &Instance) -> (r: Result<String, LpError>)
    ensures
        inst.spec_capacity() == 0 ==> r == Err::<String, LpError>(LpError::CapacityTooSmall),
        inst.spec_capacity() > 0 ==> (r matches Ok(t) && t@ == lp_text(inst.spec_graph(), inst.spec_source(),
            inst.spec_capacity(), Seq::<(usize, usize)>::empty(), None, uniform_coefs(graph_node_count(inst.spec_graph()),
            inst.spec_capacity()), ilp)),
{
    let g = inst.graph();
    let k = inst.capacity();
    if k == 0 {
        return Err(LpError::CapacityTooSmall);
    }
    let n = graph_nodes(g);
    let mut coefs: Vec<u32> = Vec::new();
    let mut v: usize = 0;
    while v < n
        invariant
            v <= n,
            k >= 1,
            coefs@.len() == v,
            forall|u: int| 0 <= u < v ==> #[trigger] coefs@[u] == (k - 1) as u32,
        decreases n - v,
    {
        coefs.push(k - 1);
        v = v + 1;
    }
    assert(coefs@ =~= uniform_coefs(n as nat, k));
    let forced: Vec<(usize, usize)> = Vec::new();
    let text = write_lp_text(g, inst.source(), k, &forced, &None, &coefs, ilp);
    assert(forced@ =~= Seq::<(usize, usize)>::empty());
    Ok(text)
}

/// The integer program is the linear program with the `Generals` section,
/// which makes every variable an integer, just before the closing `End`.
pub proof fn lemma_integer_program(
    g: InstanceGraph,
    s: u32,
    c: u32,
    forced: Seq<(usize, usize)>,
    bounds: Option<Seq<(u32, u32)>>,
    coefs: Seq<u32>,
)
    ensures
        ({
            let lp = lp_text(g, s, c, forced, bounds, coefs, false);
            let body = lp.subrange(0, lp.len() - "End\n"@.len());
            &&& lp == body + "End\n"@
            &&& lp_text(g, s, c, forced, bounds, coefs, true) == body + generals_section(g) + "End\n"@
        }),
{
    let lp = lp_text(g, s, c, forced, bounds, coefs, false);
    let end = "End\n"@;
    let body = lp.subrange(0, lp.len() - end.len());
    assert(lp =~= body + end);
    assert(lp_text(g, s, c, forced, bounds, coefs, true) =~= body + generals_section(g) + end);
}

} // verus!
