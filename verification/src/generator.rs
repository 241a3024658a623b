//! Predefined instances written in the instance file format: comets,
//! cliques, stars and trees.
use vstd::prelude::*;
use vstd::string::*;
use vstd::arithmetic::power::pow;
use crate::text::{dec, push_dec};

verus! {

/// The first line of an instance file: `s=<source> k=<capacity>`.
pub open spec fn header(s: nat, k: nat) -> Seq<char> {
    "s="@ + dec(s) + " k="@ + dec(k) + "\n"@
}

/// The line `[a;b]` of an edge.
pub open spec fn edge_line(e: (nat, nat)) -> Seq<char> {
    "["@ + dec(e.0) + ";"@ + dec(e.1) + "]\n"@
}

/// The lines of all edges, in order.
pub open spec fn edge_lines(edges: Seq<(nat, nat)>) -> Seq<char>
    decreases edges.len(),
{
    if edges.len() == 0 {
        Seq::empty()
    } else {
        edge_lines(edges.drop_last()) + edge_line(edges.last())
    }
}

/// An instance file with source `s`, capacity `k` and the given edges.
pub open spec fn instance_text(s: nat, k: nat, edges: Seq<(nat, nat)>) -> Seq<char> {
    header(s, k) + edge_lines(edges)
}

/// A comet: the path `0 - 1 - ... - (path_len - 1)`, the edge from 0 to
/// `path_len`, and a star of `star_size` leaves around `path_len`.
pub open spec fn comet_edges(path_len: nat, star_size: nat) -> Seq<(nat, nat)> {
    Seq::new(if path_len >= 1 { (path_len - 1) as nat } else { 0 }, |i: int| (i as nat, (i + 1) as nat))
        + seq![(0nat, path_len)]
        + Seq::new(star_size, |i: int| (path_len, (path_len + i + 1) as nat))
}

/// The edges from `i` to every vertex above it, up to `n - 1`.
pub open spec fn clique_row(n: nat, i: nat) -> Seq<(nat, nat)> {
    Seq::new(if n > i + 1 { (n - i - 1) as nat } else { 0 }, |d: int| (i, (i + 1 + d) as nat))
}

/// The rows of the first `r` vertices of the clique on `n` vertices.
pub open spec fn clique_rows(n: nat, r: nat) -> Seq<(nat, nat)>
    decreases r,
{
    if r == 0 {
        Seq::empty()
    } else {
        clique_rows(n, (r - 1) as nat) + clique_row(n, (r - 1) as nat)
    }
}

/// The complete graph on the vertices `0..n`: every pair `i < j`, by rows.
pub open spec fn clique_edges(n: nat) -> Seq<(nat, nat)> {
    clique_rows(n, n)
}

/// A star: vertex 0 joined to each of `1..=n`.
pub open spec fn star_edges(n: nat) -> Seq<(nat, nat)> {
    Seq::new(n, |i: int| (0nat, (i + 1) as nat))
}

/// Level `i` of a tree of the given width: each vertex `j` of
/// `width^(i-1) .. width^i` joined to its parent `j / width`.
pub open spec fn tree_level(width: nat, i: nat) -> Seq<(nat, nat)> {
    let lo = pow(width as int, (i - 1) as nat);
    let hi = pow(width as int, i);
    Seq::new(if hi > lo { (hi - lo) as nat } else { 0 }, |d: int| ((lo + d) as nat, ((lo + d) / (width as int)) as nat))
}

/// Levels `1 .. r` of a tree.
pub open spec fn tree_levels(width: nat, r: nat) -> Seq<(nat, nat)>
    decreases r,
{
    if r <= 1 {
        Seq::empty()
    } else {
        tree_levels(width, (r - 1) as nat) + tree_level(width, (r - 1) as nat)
    }
}

/// A tree of the given width and height: levels `1 .. height`.
pub open spec fn tree_edges(width: nat, height: nat) -> Seq<(nat, nat)> {
    tree_levels(width, height)
}

fn push_header(out: &mut String, s: u64, k: u64)
    ensures
        final(out)@ == old(out)@ + header(s as nat, k as nat),
{
    let ghost start = out@;
    out.append("s=");
    push_dec(out, s);
    out.append(" k=");
    push_dec(out, k);
    out.append("\n");
    assert(out@ =~= start + header(s as nat, k as nat));
}

fn push_edge_line(out: &mut String, a: u64, b: u64)
    ensures
        final(out)@ == old(out)@ + edge_line((a as nat, b as nat)),
{
    let ghost start = out@;
    out.append("[");
    push_dec(out, a);
    out.append(";");
    push_dec(out, b);
    out.append("]\n");
    assert(out@ =~= start + edge_line((a as nat, b as nat)));
}

proof fn lemma_edge_lines_push(edges: Seq<(nat, nat)>, e: (nat, nat))
    ensures
        edge_lines(edges.push(e)) == edge_lines(edges) + edge_line(e),
{
    assert(edges.push(e).drop_last() =~= edges);
}

/// The text of a comet instance.
pub fn comet(path_len: u64, star_size: u64, k: u64, s: u64) -> (text: String)
    requires
        path_len + star_size <= u64::MAX,
    ensures
        text@ == instance_text(s as nat, k as nat, comet_edges(path_len as nat, star_size as nat)),
{
    let mut out = String::new();
    push_header(&mut out, s, k);
    let ghost head = out@;
    let ghost mut list: Seq<(nat, nat)> = Seq::empty();
    let mut i: u64 = 1;
    while i < path_len
        invariant
            1 <= i,
            i <= path_len || path_len == 0,
            path_len == 0 ==> i == 1,
            list =~= Seq::new((i - 1) as nat, |q: int| (q as nat, (q + 1) as nat)),
            out@ == head + edge_lines(list),
        decreases path_len - i,
    {
        push_edge_line(&mut out, i - 1, i);
        proof {
            lemma_edge_lines_push(list, ((i - 1) as nat, i as nat));
            list = list.push(((i - 1) as nat, i as nat));
        }
        i = i + 1;
    }
    assert(list =~= Seq::new(if path_len >= 1 { (path_len - 1) as nat } else { 0 }, |q: int| (q as nat, (q + 1) as nat)));
    push_edge_line(&mut out, 0, path_len);
    proof {
        lemma_edge_lines_push(list, (0nat, path_len as nat));
        list = list.push((0nat, path_len as nat));
    }
    let ghost mid = list;
    let mut i: u64 = 0;
    while i < star_size
        invariant
            i <= star_size,
            path_len + star_size <= u64::MAX,
            list =~= mid + Seq::new(i as nat, |q: int| (path_len as nat, (path_len + q + 1) as nat)),
            out@ == head + edge_lines(list),
        decreases star_size - i,
    {
        push_edge_line(&mut out, path_len, path_len + i + 1);
        proof {
            lemma_edge_lines_push(list, (path_len as nat, (path_len + i + 1) as nat));
            list = list.push((path_len as nat, (path_len + i + 1) as nat));
        }
        i = i + 1;
    }
    assert(list =~= comet_edges(path_len as nat, star_size as nat));
    out
}

/// The text of a clique instance.
pub fn clique(n: u64, k: u64, s: u64) -> (text: String)
    ensures
        text@ == instance_text(s as nat, k as nat, clique_edges(n as nat)),
{
    let mut out = String::new();
    push_header(&mut out, s, k);
    let ghost head = out@;
    let ghost mut list: Seq<(nat, nat)> = Seq::empty();
    let mut i: u64 = 0;
    while i < n
        invariant
            i <= n,
            list == clique_rows(n as nat, i as nat),
            out@ == head + edge_lines(list),
        decreases n - i,
    {
        let ghost before = list;
        let mut j: u64 = i + 1;
        while j < n
            invariant
                i < n,
                i + 1 <= j <= n,
                list =~= before + clique_row(n as nat, i as nat).take((j - i - 1) as int),
                out@ == head + edge_lines(list),
            decreases n - j,
        {
            push_edge_line(&mut out, i, j);
            proof {
                lemma_edge_lines_push(list, (i as nat, j as nat));
                list = list.push((i as nat, j as nat));
            }
            j = j + 1;
        }
        assert(clique_row(n as nat, i as nat).take((n - i - 1) as int) =~= clique_row(n as nat, i as nat));
        i = i + 1;
    }
    out
}

/// The text of a star instance.
pub fn star(n: u64, k: u64, s: u64) -> (text: String)
    requires
        n < u64::MAX,
    ensures
        text@ == instance_text(s as nat, k as nat, star_edges(n as nat)),
{
    let mut out = String::new();
    push_header(&mut out, s, k);
    let ghost head = out@;
    let ghost mut list: Seq<(nat, nat)> = Seq::empty();
    let mut i: u64 = 1;
    while i < n + 1
        invariant
            1 <= i <= n + 1,
            n < u64::MAX,
            list =~= Seq::new((i - 1) as nat, |q: int| (0nat, (q + 1) as nat)),
            out@ == head + edge_lines(list),
        decreases n + 1 - i,
    {
        push_edge_line(&mut out, 0, i);
        proof {
            lemma_edge_lines_push(list, (0nat, i as nat));
            list = list.push((0nat, i as nat));
        }
        i = i + 1;
    }
    out
}

/// A tree of width at most 1 has no edges.
proof fn lemma_thin_tree(width: nat, r: nat)
    requires
        width <= 1,
    ensures
        tree_levels(width, r) == Seq::<(nat, nat)>::empty(),
    decreases r,
{
    reveal(pow);
    if r > 1 {
        lemma_thin_tree(width, (r - 1) as nat);
        let i = (r - 1) as nat;
        let lo = pow(width as int, (i - 1) as nat);
        let hi = pow(width as int, i);
        vstd::arithmetic::power::lemma_pow0(width as int);
        if width == 1 {
            vstd::arithmetic::power::lemma_pow1(1);
            assert(lo == 1 && hi == 1) by {
                lemma_pow_one((i - 1) as nat);
                lemma_pow_one(i);
            }
        } else {
            assert(hi <= lo) by {
                if i == 1 {
                    assert(lo == 1);
                    assert(hi == 0 * pow(0, 0));
                } else {
                    assert(hi == 0 * pow(0, (i - 1) as nat));
                    assert(lo == 0 * pow(0, (i - 2) as nat));
                }
            }
        }
        assert(tree_level(width, i) =~= Seq::<(nat, nat)>::empty());
        assert(tree_levels(width, r) =~= Seq::<(nat, nat)>::empty());
    }
}

proof fn lemma_pow_one(e: nat)
    ensures
        pow(1, e) == 1,
    decreases e,
{
    reveal(pow);
    if e > 0 {
        lemma_pow_one((e - 1) as nat);
    }
}

/// The text of a tree instance.
pub fn tree(width: u64, height: u64, k: u64, s: u64) -> (text: String)
    requires
        width >= 2 && height >= 2 ==> pow(width as int, (height - 1) as nat) <= u64::MAX,
    ensures
        text@ == instance_text(s as nat, k as nat, tree_edges(width as nat, height as nat)),
{
    let mut out = String::new();
    push_header(&mut out, s, k);
    if width <= 1 || height <= 1 {
        proof {
            if width <= 1 {
                lemma_thin_tree(width as nat, height as nat);
            } else {
                assert(tree_levels(width as nat, height as nat) == Seq::<(nat, nat)>::empty());
            }
            assert(edge_lines(Seq::<(nat, nat)>::empty()) =~= Seq::<char>::empty());
            assert(out@ =~= instance_text(s as nat, k as nat, tree_edges(width as nat, height as nat)));
        }
        return out;
    }
    let ghost head = out@;
    let ghost mut list: Seq<(nat, nat)> = Seq::empty();
    let mut lo: u64 = 1;
    let mut i: u64 = 1;
    proof {
        vstd::arithmetic::power::lemma_pow0(width as int);
        assert(edge_lines(list) =~= Seq::<char>::empty());
        assert(out@ =~= head + edge_lines(list));
    }
    while i < height
        invariant
            2 <= width,
            2 <= height,
            1 <= i <= height,
            pow(width as int, (height - 1) as nat) <= u64::MAX,
            lo == pow(width as int, (i - 1) as nat),
            list == tree_levels(width as nat, i as nat),
            out@ == head + edge_lines(list),
        decreases height - i,
    {
        proof {
            reveal(pow);
            vstd::arithmetic::power::lemma_pow_increases(width as nat, i as nat, (height - 1) as nat);
            assert(pow(width as int, i as nat) == width * pow(width as int, (i - 1) as nat));
            vstd::arithmetic::power::lemma_pow_positive(width as int, (i - 1) as nat);
        }
        let hi: u64 = lo * width;
        proof {
            assert(lo <= hi) by (nonlinear_arith)
                requires
                    hi == lo * width,
                    width >= 2,
                    lo >= 1,
            ;
        }
        let ghost before = list;
        let mut j: u64 = lo;
        while j < hi
            invariant
                2 <= width,
                lo <= j <= hi,
                lo == pow(width as int, (i - 1) as nat),
                hi == pow(width as int, i as nat),
                list =~= before + tree_level(width as nat, i as nat).take((j - lo) as int),
                out@ == head + edge_lines(list),
            decreases hi - j,
        {
            push_edge_line(&mut out, j, j / width);
            proof {
                lemma_edge_lines_push(list, (j as nat, (j / width) as nat));
                list = list.push((j as nat, (j / width) as nat));
            }
            j = j + 1;
        }
        assert(tree_level(width as nat, i as nat).take((hi - lo) as int) =~= tree_level(width as nat, i as nat));
        lo = hi;
        i = i + 1;
    }
    out
}

/// The first `r` rows of the clique on `n` vertices hold
/// `r * (2n - r - 1) / 2` edges.
pub proof fn lemma_clique_rows_len(n: nat, r: nat)
    requires
        r <= n,
    ensures
        2 * clique_rows(n, r).len() == r * (2 * n - r - 1),
    decreases r,
{
    if r > 0 {
        lemma_clique_rows_len(n, (r - 1) as nat);
        let a = clique_rows(n, (r - 1) as nat).len();
        assert(clique_row(n, (r - 1) as nat).len() == n - r);
        assert(clique_rows(n, r).len() == a + (n - r));
        assert(2 * (a + (n - r)) == r * (2 * n - r - 1)) by (nonlinear_arith)
            requires
                2 * a == (r - 1) * (2 * n - (r - 1) - 1),
                r <= n,
        ;
    } else {
        assert(r * (2 * n - r - 1) == 0) by (nonlinear_arith)
            requires
                r == 0,
        ;
    }
}

/// Every edge of the first `r` rows of the clique joins `i < j < n`, and
/// every such pair with `i < r` is an edge.
pub proof fn lemma_clique_rows_pairs(n: nat, r: nat)
    requires
        r <= n,
    ensures
        forall|q: int| 0 <= q < clique_rows(n, r).len() ==> (#[trigger] clique_rows(n, r)[q]).0 < clique_rows(n, r)[q].1 < n
            && clique_rows(n, r)[q].0 < r,
        forall|i: nat, j: nat| i < j < n && i < r ==> clique_rows(n, r).contains((i, j)),
    decreases r,
{
    if r > 0 {
        let r1 = (r - 1) as nat;
        lemma_clique_rows_pairs(n, r1);
        let prev = clique_rows(n, r1);
        let row = clique_row(n, r1);
        assert(clique_rows(n, r) == prev + row);
        assert forall|q: int| 0 <= q < clique_rows(n, r).len() implies (#[trigger] clique_rows(n, r)[q]).0 < clique_rows(n, r)[q].1 < n
            && clique_rows(n, r)[q].0 < r by {
            if q >= prev.len() {
                assert(clique_rows(n, r)[q] == row[q - prev.len()]);
            } else {
                assert(clique_rows(n, r)[q] == prev[q]);
            }
        }
        assert forall|i: nat, j: nat| i < j < n && i < r implies clique_rows(n, r).contains((i, j)) by {
            if i < r1 {
                assert(prev.contains((i, j)));
                let q = choose|q: int| 0 <= q < prev.len() && prev[q] == (i, j);
                assert(clique_rows(n, r)[q] == (i, j));
            } else {
                let d = j - i - 1;
                assert(row[d] == (i, j));
                assert(clique_rows(n, r)[prev.len() + d] == (i, j));
            }
        }
    }
}

/// The complete graph on `n` vertices has `n * (n - 1) / 2` edges, one
/// for each pair `i < j < n`.
pub proof fn lemma_clique_edges(n: nat)
    ensures
        2 * clique_edges(n).len() == n * (n - 1),
        forall|q: int| 0 <= q < clique_edges(n).len() ==> (#[trigger] clique_edges(n)[q]).0 < clique_edges(n)[q].1 < n,
        forall|i: nat, j: nat| i < j < n ==> clique_edges(n).contains((i, j)),
{
    lemma_clique_rows_len(n, n);
    lemma_clique_rows_pairs(n, n);
    assert(n * (2 * n - n - 1) == n * (n - 1)) by (nonlinear_arith);
}

} // verus!
