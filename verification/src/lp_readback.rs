//! A written program reads back its forced edges: the lines `x_a_b = 0`
//! are the only text of a program that the reader of forced edges takes.
use vstd::prelude::*;
use vstd::string::*;
use crate::text::dec;
use crate::grammar::{is_digit, skip_digits, lemma_skip_digits, digits_value, is_usize_text};
use crate::graph::InstanceGraph;
use crate::lp::{xv, fe, fv, plus_before, objective_terms, forced_lines, cut_line, bound_line, edge_cut_lines,
    cut_lines, source_terms, balance_terms, balance_lines, vertex_terms, inflow_terms, absorption_lines,
    vertex_bounds, edge_bounds, general_vertices, general_edges, generals_section, lp_text, step_end};
use crate::scan::{Pattern, entry_at, entries, forced_numbers_ok, forced_pairs};
use crate::roundtrip::{lemma_dec, lemma_dec_value, lemma_skip_digits_over};

verus! {

/// No character of `s` is `c`.
spec fn lacks(s: Seq<char>, c: char) -> bool {
    forall|i: int| 0 <= i < s.len() ==> s[i] != c
}

/// Every `=` of `s` comes after a character of `s` that is not a space.
spec fn eq_guarded(s: Seq<char>) -> bool {
    forall|i: int| 0 <= i < s.len() && #[trigger] s[i] == '=' ==> i > 0 && s[i - 1] != ' '
}

proof fn lemma_cat(a: Seq<char>, b: Seq<char>)
    ensures
        lacks(a, 'x') && lacks(b, 'x') ==> lacks(a + b, 'x'),
        lacks(a, '=') && lacks(b, '=') ==> lacks(a + b, '='),
        eq_guarded(a) && eq_guarded(b) ==> eq_guarded(a + b),
        lacks(a, '=') ==> eq_guarded(a),
        b.len() > 0 ==> (a + b).last() == b.last(),
{
    if eq_guarded(a) && eq_guarded(b) {
        assert forall|i: int| 0 <= i < (a + b).len() && #[trigger] (a + b)[i] == '=' implies i > 0 && (a + b)[i - 1] != ' ' by {
            if i >= a.len() {
                assert(b[i - a.len()] == '=');
            } else {
                assert(a[i] == '=');
            }
        }
    }
    if lacks(a, 'x') && lacks(b, 'x') {
        assert forall|i: int| 0 <= i < (a + b).len() implies (a + b)[i] != 'x' by {
            if i >= a.len() {
                assert((a + b)[i] == b[i - a.len()]);
            }
        }
    }
    if lacks(a, '=') && lacks(b, '=') {
        assert forall|i: int| 0 <= i < (a + b).len() implies (a + b)[i] != '=' by {
            if i >= a.len() {
                assert((a + b)[i] == b[i - a.len()]);
            }
        }
    }
}

/// Digits are neither `x`, `=`, a space nor a line end.
proof fn lemma_dec_plain(n: nat)
    ensures
        lacks(dec(n), 'x'),
        lacks(dec(n), '='),
        forall|j: int| 0 <= j < dec(n).len() ==> is_digit(#[trigger] dec(n)[j]),
        dec(n).len() >= 1,
{
    lemma_dec(n);
}

proof fn lemma_literals()
    ensures
        "x_"@ == seq!['x', '_'],
        "f_"@ == seq!['f', '_'],
        "_"@ == seq!['_'],
        " = 0\n"@ == seq![' ', '=', ' ', '0', '\n'],
        lacks(" + "@, 'x') && lacks(" + "@, '='),
        lacks(" - "@, 'x') && lacks(" - "@, '='),
        lacks(" "@, 'x') && lacks(" "@, '='),
        lacks("\n"@, 'x') && lacks("\n"@, '='),
        lacks(" = "@, 'x'),
        lacks(" = 1\n"@, 'x'),
        lacks(" = 0\n"@, 'x'),
        lacks(" >= 0\n"@, 'x') && eq_guarded(" >= 0\n"@),
        lacks(" <= "@, 'x') && eq_guarded(" <= "@),
        lacks(" <= 1\n"@, 'x') && eq_guarded(" <= 1\n"@),
        lacks("0 <= "@, 'x') && eq_guarded("0 <= "@),
        lacks("Minimize\n"@, '='),
        lacks("Subject to\n"@, '='),
        "Subject to\n"@.last() == '\n',
        lacks("Bounds\n"@, 'x'),
        lacks("Generals\n"@, '='),
        lacks("End\n"@, '='),
        "End\n"@.last() == '\n',
        "\n"@.last() == '\n',
        " >= 0\n"@.last() == '\n',
        " >= 0\n"@.len() == 6,
        "\n"@.len() == 1,
        "End\n"@.len() == 4,
        "Subject to\n"@.len() == 11,
{
    reveal_strlit("x_");
    reveal_strlit("f_");
    reveal_strlit("_");
    reveal_strlit(" = 0\n");
    reveal_strlit(" + ");
    reveal_strlit(" - ");
    reveal_strlit(" ");
    reveal_strlit("\n");
    reveal_strlit(" = ");
    reveal_strlit(" = 1\n");
    reveal_strlit(" >= 0\n");
    reveal_strlit(" <= ");
    reveal_strlit(" <= 1\n");
    reveal_strlit("0 <= ");
    reveal_strlit("Minimize\n");
    reveal_strlit("Subject to\n");
    reveal_strlit("Bounds\n");
    reveal_strlit("Generals\n");
    reveal_strlit("End\n");
    assert("x_"@ =~= seq!['x', '_']);
    assert("f_"@ =~= seq!['f', '_']);
    assert("_"@ =~= seq!['_']);
    assert(" = 0\n"@ =~= seq![' ', '=', ' ', '0', '\n']);
}

proof fn lemma_names(a: nat, b: nat)
    ensures
        lacks(xv(a, b), '='),
        lacks(fe(a, b), 'x') && lacks(fe(a, b), '='),
        lacks(fv(a), 'x') && lacks(fv(a), '='),
{
    lemma_literals();
    lemma_dec_plain(a);
    lemma_dec_plain(b);
    lemma_cat("x_"@, dec(a));
    lemma_cat("x_"@ + dec(a), "_"@);
    lemma_cat("x_"@ + dec(a) + "_"@, dec(b));
    lemma_cat("f_"@, dec(a));
    lemma_cat("f_"@ + dec(a), "_"@);
    lemma_cat("f_"@ + dec(a) + "_"@, dec(b));
}

proof fn lemma_plus_before(k: int)
    ensures
        lacks(plus_before(k), 'x') && lacks(plus_before(k), '='),
{
    lemma_literals();
}

proof fn lemma_objective(edges: Seq<(u32, u32)>, k: int)
    ensures
        lacks(objective_terms(edges, k), '='),
    decreases k,
{
    if k > 0 {
        let (a, b) = edges[k - 1];
        lemma_objective(edges, k - 1);
        lemma_plus_before(k - 1);
        lemma_names(a as nat, b as nat);
        lemma_names(b as nat, a as nat);
        lemma_literals();
        let o = objective_terms(edges, k - 1);
        lemma_cat(o, plus_before(k - 1));
        lemma_cat(o + plus_before(k - 1), xv(a as nat, b as nat));
        lemma_cat(o + plus_before(k - 1) + xv(a as nat, b as nat), " + "@);
        lemma_cat(o + plus_before(k - 1) + xv(a as nat, b as nat) + " + "@, xv(b as nat, a as nat));
    }
}

proof fn lemma_cut_line(a: nat, b: nat, p: nat, q: nat)
    ensures
        eq_guarded(cut_line(xv(a, b), p, q)),
        cut_line(xv(a, b), p, q).len() > 0,
        cut_line(xv(a, b), p, q).last() == '\n',
{
    lemma_literals();
    lemma_names(a, b);
    lemma_names(p, p);
    lemma_names(q, q);
    let x = xv(a, b);
    lemma_cat(x, " - "@);
    lemma_cat(x + " - "@, fv(p));
    lemma_cat(x + " - "@ + fv(p), " + "@);
    lemma_cat(x + " - "@ + fv(p) + " + "@, fv(q));
    lemma_cat(x + " - "@ + fv(p) + " + "@ + fv(q), " >= 0\n"@);
}

proof fn lemma_bound_line(a: nat, b: nat, m: nat)
    ensures
        eq_guarded(bound_line(fe(a, b), m, xv(a, b))),
        bound_line(fe(a, b), m, xv(a, b)).len() > 0,
        bound_line(fe(a, b), m, xv(a, b)).last() == '\n',
{
    lemma_literals();
    lemma_names(a, b);
    lemma_dec_plain(m);
    let f = fe(a, b);
    let x = xv(a, b);
    lemma_cat(f, " + "@);
    lemma_cat(f + " + "@, dec(m));
    lemma_cat(f + " + "@ + dec(m), " "@);
    lemma_cat(f + " + "@ + dec(m) + " "@, x);
    lemma_cat(f + " + "@ + dec(m) + " "@ + x, " <= "@);
    lemma_cat(f + " + "@ + dec(m) + " "@ + x + " <= "@, dec(m));
    lemma_cat(f + " + "@ + dec(m) + " "@ + x + " <= "@ + dec(m), "\n"@);
}

proof fn lemma_edge_cut_lines(a: nat, b: nat, bound: Option<(nat, nat)>)
    ensures
        eq_guarded(edge_cut_lines(a, b, bound)),
        edge_cut_lines(a, b, bound).len() > 0,
        edge_cut_lines(a, b, bound).last() == '\n',
{
    lemma_cut_line(a, b, a, b);
    lemma_cut_line(a, b, b, a);
    lemma_cut_line(b, a, a, b);
    lemma_cut_line(b, a, b, a);
    let l1 = cut_line(xv(a, b), a, b);
    let l2 = cut_line(xv(a, b), b, a);
    let l3 = cut_line(xv(b, a), a, b);
    let l4 = cut_line(xv(b, a), b, a);
    lemma_cat(l1, l2);
    lemma_cat(l1 + l2, l3);
    lemma_cat(l1 + l2 + l3, l4);
    let four = l1 + l2 + l3 + l4;
    match bound {
        Some((ma, mb)) => {
            lemma_bound_line(a, b, ma);
            lemma_bound_line(b, a, mb);
            let b1 = bound_line(fe(a, b), ma, xv(a, b));
            let b2 = bound_line(fe(b, a), mb, xv(b, a));
            lemma_cat(b1, b2);
            lemma_cat(four, b1 + b2);
        },
        None => {
            assert(four + Seq::<char>::empty() =~= four);
        },
    }
}

proof fn lemma_cut_lines(edges: Seq<(u32, u32)>, bounds: Option<Seq<(u32, u32)>>, k: int)
    ensures
        eq_guarded(cut_lines(edges, bounds, k)),
        k > 0 ==> cut_lines(edges, bounds, k).len() > 0 && cut_lines(edges, bounds, k).last() == '\n',
        k <= 0 ==> cut_lines(edges, bounds, k).len() == 0,
    decreases k,
{
    if k > 0 {
        let (a, b) = edges[k - 1];
        let bound = match bounds {
            Some(bs) => Some((bs[k - 1].0 as nat, bs[k - 1].1 as nat)),
            None => None,
        };
        lemma_cut_lines(edges, bounds, k - 1);
        lemma_edge_cut_lines(a as nat, b as nat, bound);
        lemma_cat(cut_lines(edges, bounds, k - 1), edge_cut_lines(a as nat, b as nat, bound));
    }
}

proof fn lemma_source_terms(at: Seq<(u32, u32, u32)>, s: u32, k: int)
    ensures
        lacks(source_terms(at, s, k), 'x'),
    decreases k,
{
    if k > 0 {
        lemma_source_terms(at, s, k - 1);
        lemma_plus_before(k - 1);
        let o = step_end(at[k - 1], s) as nat;
        lemma_names(s as nat, o);
        lemma_cat(source_terms(at, s, k - 1), plus_before(k - 1));
        lemma_cat(source_terms(at, s, k - 1) + plus_before(k - 1), fe(s as nat, o));
    }
}

proof fn lemma_balance_terms(at: Seq<(u32, u32, u32)>, v: u32, k: int)
    ensures
        lacks(balance_terms(at, v, k), 'x'),
    decreases k,
{
    if k > 0 {
        lemma_balance_terms(at, v, k - 1);
        lemma_plus_before(k - 1);
        lemma_literals();
        let o = step_end(at[k - 1], v) as nat;
        lemma_names(o, v as nat);
        lemma_names(v as nat, o);
        let p = balance_terms(at, v, k - 1);
        lemma_cat(p, plus_before(k - 1));
        lemma_cat(p + plus_before(k - 1), fe(o, v as nat));
        lemma_cat(p + plus_before(k - 1) + fe(o, v as nat), " - "@);
        lemma_cat(p + plus_before(k - 1) + fe(o, v as nat) + " - "@, fe(v as nat, o));
    }
}

proof fn lemma_balance_lines(g: InstanceGraph, s: u32, k: int)
    ensures
        lacks(balance_lines(g, s, k), 'x'),
    decreases k,
{
    if k > 0 {
        lemma_balance_lines(g, s, k - 1);
        let v = (k - 1) as u32;
        if v != s {
            let at = crate::graph::graph_edges_at(g, v);
            lemma_balance_terms(at, v, at.len() as int);
            lemma_literals();
            lemma_names(v as nat, v as nat);
            let bt = balance_terms(at, v, at.len() as int);
            lemma_cat(bt, " - "@);
            lemma_cat(bt + " - "@, fv(v as nat));
            lemma_cat(bt + " - "@ + fv(v as nat), " = 0\n"@);
            lemma_cat(balance_lines(g, s, k - 1), bt + " - "@ + fv(v as nat) + " = 0\n"@);
        } else {
            assert(balance_lines(g, s, k - 1) + Seq::<char>::empty() =~= balance_lines(g, s, k - 1));
        }
    }
}

proof fn lemma_vertex_terms(k: int)
    ensures
        lacks(vertex_terms(k), 'x'),
    decreases k,
{
    if k > 0 {
        lemma_vertex_terms(k - 1);
        lemma_plus_before(k - 1);
        lemma_names((k - 1) as nat, (k - 1) as nat);
        lemma_cat(vertex_terms(k - 1), plus_before(k - 1));
        lemma_cat(vertex_terms(k - 1) + plus_before(k - 1), fv((k - 1) as nat));
    }
}

proof fn lemma_inflow_terms(at: Seq<(u32, u32, u32)>, v: u32, k: int)
    ensures
        lacks(inflow_terms(at, v, k), 'x'),
    decreases k,
{
    if k > 0 {
        lemma_inflow_terms(at, v, k - 1);
        lemma_literals();
        let o = step_end(at[k - 1], v) as nat;
        lemma_names(o, v as nat);
        lemma_cat(inflow_terms(at, v, k - 1), " - "@);
        lemma_cat(inflow_terms(at, v, k - 1) + " - "@, fe(o, v as nat));
    }
}

proof fn lemma_absorption_lines(g: InstanceGraph, s: u32, coefs: Seq<u32>, k: int)
    ensures
        lacks(absorption_lines(g, s, coefs, k), 'x'),
    decreases k,
{
    if k > 0 {
        lemma_absorption_lines(g, s, coefs, k - 1);
        let v = (k - 1) as u32;
        if v != s {
            let at = crate::graph::graph_edges_at(g, v);
            lemma_inflow_terms(at, v, at.len() as int);
            lemma_literals();
            lemma_names(v as nat, v as nat);
            lemma_dec_plain(coefs[k - 1] as nat);
            let d = dec(coefs[k - 1] as nat);
            let it = inflow_terms(at, v, at.len() as int);
            lemma_cat(d, " "@);
            lemma_cat(d + " "@, fv(v as nat));
            lemma_cat(d + " "@ + fv(v as nat), it);
            lemma_cat(d + " "@ + fv(v as nat) + it, " >= 0\n"@);
            lemma_cat(absorption_lines(g, s, coefs, k - 1), d + " "@ + fv(v as nat) + it + " >= 0\n"@);
        } else {
            assert(absorption_lines(g, s, coefs, k - 1) + Seq::<char>::empty() =~= absorption_lines(g, s, coefs, k - 1));
        }
    }
}

proof fn lemma_vertex_bounds(k: int)
    ensures
        lacks(vertex_bounds(k), 'x'),
    decreases k,
{
    if k > 0 {
        lemma_vertex_bounds(k - 1);
        lemma_literals();
        lemma_names((k - 1) as nat, (k - 1) as nat);
        let f = fv((k - 1) as nat);
        lemma_cat(vertex_bounds(k - 1), "0 <= "@);
        lemma_cat(vertex_bounds(k - 1) + "0 <= "@, f);
        lemma_cat(vertex_bounds(k - 1) + "0 <= "@ + f, " <= 1\n"@);
    }
}

proof fn lemma_edge_bounds(edges: Seq<(u32, u32)>, k: int)
    ensures
        eq_guarded(edge_bounds(edges, k)),
    decreases k,
{
    if k > 0 {
        let (a, b) = edges[k - 1];
        let (a, b) = (a as nat, b as nat);
        lemma_edge_bounds(edges, k - 1);
        lemma_literals();
        lemma_names(a, b);
        lemma_names(b, a);
        let p0 = edge_bounds(edges, k - 1);
        let p1 = p0 + fe(a, b);
        lemma_cat(p0, fe(a, b));
        let p2 = p1 + " >= 0\n"@;
        lemma_cat(p1, " >= 0\n"@);
        let p3 = p2 + fe(b, a);
        lemma_cat(p2, fe(b, a));
        let p4 = p3 + " >= 0\n"@;
        lemma_cat(p3, " >= 0\n"@);
        let p5 = p4 + "0 <= "@;
        lemma_cat(p4, "0 <= "@);
        let p6 = p5 + xv(a, b);
        lemma_cat(p5, xv(a, b));
        let p7 = p6 + " <= 1\n"@;
        lemma_cat(p6, " <= 1\n"@);
        let p8 = p7 + "0 <= "@;
        lemma_cat(p7, "0 <= "@);
        let p9 = p8 + xv(b, a);
        lemma_cat(p8, xv(b, a));
        lemma_cat(p9, " <= 1\n"@);
    }
}

proof fn lemma_general_vertices(k: int)
    ensures
        lacks(general_vertices(k), '='),
    decreases k,
{
    if k > 0 {
        lemma_general_vertices(k - 1);
        lemma_literals();
        lemma_names((k - 1) as nat, (k - 1) as nat);
        lemma_cat(general_vertices(k - 1), fv((k - 1) as nat));
        lemma_cat(general_vertices(k - 1) + fv((k - 1) as nat), " "@);
    }
}

proof fn lemma_general_edges(edges: Seq<(u32, u32)>, k: int)
    ensures
        lacks(general_edges(edges, k), '='),
    decreases k,
{
    if k > 0 {
        let (a, b) = edges[k - 1];
        let (a, b) = (a as nat, b as nat);
        lemma_general_edges(edges, k - 1);
        lemma_literals();
        lemma_names(a, b);
        lemma_names(b, a);
        let p0 = general_edges(edges, k - 1);
        lemma_cat(p0, xv(a, b));
        lemma_cat(p0 + xv(a, b), " "@);
        lemma_cat(p0 + xv(a, b) + " "@, xv(b, a));
        lemma_cat(p0 + xv(a, b) + " "@ + xv(b, a), " "@);
    }
}

proof fn lemma_generals(g: InstanceGraph)
    ensures
        lacks(generals_section(g), '='),
{
    let n = crate::graph::graph_node_count(g);
    let edges = crate::graph::graph_edge_list(g);
    lemma_literals();
    lemma_general_vertices(n as int);
    lemma_general_edges(edges, edges.len() as int);
    let gv = general_vertices(n as int);
    let ge = general_edges(edges, edges.len() as int);
    lemma_cat("Generals\n"@, gv);
    lemma_cat("Generals\n"@ + gv, ge);
    lemma_cat("Generals\n"@ + gv + ge, "\n"@);
}

/// No forced entry starts in `t[i..j]`: the entries from `i` on are those
/// from `j` on.
proof fn lemma_between(t: Seq<char>, i: int, j: int)
    requires
        0 <= i <= j <= t.len(),
        forall|x: int| i <= x < j ==> #[trigger] entry_at(t, x, Pattern::Forced) is None,
    ensures
        entries(t, i, Pattern::Forced) == entries(t, j, Pattern::Forced),
    decreases j - i,
{
    if i < j {
        lemma_between(t, i + 1, j);
        assert(entry_at(t, i, Pattern::Forced) is None);
    }
}

/// The text `s` stands in `t` from `i` on.
spec fn stands_at(t: Seq<char>, i: int, s: Seq<char>) -> bool {
    0 <= i && i + s.len() <= t.len() && t.subrange(i, i + s.len()) == s
}

/// A piece without `x` holds no forced entry.
proof fn lemma_piece_without_x(t: Seq<char>, i: int, s: Seq<char>)
    requires
        stands_at(t, i, s),
        lacks(s, 'x'),
    ensures
        entries(t, i, Pattern::Forced) == entries(t, i + s.len(), Pattern::Forced),
{
    assert forall|x: int| i <= x < i + s.len() implies #[trigger] entry_at(t, x, Pattern::Forced) is None by {
        assert(t[x] == t.subrange(i, i + s.len())[x - i]);
    }
    lemma_between(t, i, i + s.len());
}

/// No forced entry starts at `x` when a line ends at `j - 1` and no `=`
/// of `t[i..j]` comes after a space of it: an entry would end before
/// `j - 1`, and holds ` = `.
proof fn lemma_no_entry_before_line_end(t: Seq<char>, i: int, j: int, x: int)
    requires
        0 <= i <= x < j <= t.len(),
        t[j - 1] == '\n',
        forall|y: int| i <= y < j && #[trigger] t[y] == '=' ==> y > i && t[y - 1] != ' ',
    ensures
        entry_at(t, x, Pattern::Forced) is None,
{
    if entry_at(t, x, Pattern::Forced) is Some {
        lemma_skip_digits(t, x + 2);
        let a1 = skip_digits(t, x + 2);
        lemma_skip_digits(t, a1 + 1);
        let b1 = skip_digits(t, a1 + 1);
        assert(t[b1] == ' ' && t[b1 + 1] == '=');
        if b1 + 1 >= j {
            if j - 1 < a1 && j - 1 >= x + 2 {
                assert(is_digit(t[j - 1]));
            } else if a1 < j - 1 < b1 {
                assert(is_digit(t[j - 1]));
            }
        }
    }
}

/// A piece that ends a line and has no `=` after a space holds no forced
/// entry.
proof fn lemma_guarded_piece(t: Seq<char>, i: int, s: Seq<char>)
    requires
        stands_at(t, i, s),
        eq_guarded(s),
        s.len() > 0 ==> s.last() == '\n',
    ensures
        entries(t, i, Pattern::Forced) == entries(t, i + s.len(), Pattern::Forced),
{
    let j = i + s.len();
    if i < j {
        assert forall|y: int| i <= y < j implies #[trigger] t[y] == s[y - i] by {
            assert(t[y] == t.subrange(i, j)[y - i]);
        }
        assert(t[j - 1] == '\n');
        assert forall|y: int| i <= y < j && #[trigger] t[y] == '=' implies y > i && t[y - 1] != ' ' by {
            assert(s[y - i] == '=');
            assert(t[y - 1] == s[y - 1 - i]);
        }
        assert forall|x: int| i <= x < j implies #[trigger] entry_at(t, x, Pattern::Forced) is None by {
            lemma_no_entry_before_line_end(t, i, j, x);
        }
    }
    lemma_between(t, i, j);
}

/// Where a forced line `x_a_b = 0` stands: its entry.
spec fn forced_line_span(q: int, a: nat, b: nat) -> (int, int, int, int, int, int, int) {
    let la = dec(a).len() as int;
    let lb = dec(b).len() as int;
    let b1 = q + 3 + la + lb;
    (q + 2, q + 2 + la, q + 3 + la, b1, b1, b1, b1 + 4)
}

/// The entries of the first `k` forced lines, which stand from `p` on.
spec fn forced_spans(f: Seq<(usize, usize)>, p: int, k: int) -> Seq<(int, int, int, int, int, int, int)>
    decreases k,
{
    if k <= 0 {
        seq![]
    } else {
        let q = p + forced_lines(f, k - 1).len();
        forced_spans(f, p, k - 1).push(forced_line_span(q, f[k - 1].0 as nat, f[k - 1].1 as nat))
    }
}

/// The numbers of entry `m` are those of the forced edge `e`.
spec fn reads_as(t: Seq<char>, m: (int, int, int, int, int, int, int), e: (usize, usize)) -> bool {
    &&& m.0 < m.1 && m.2 < m.3
    &&& digits_value(t, m.0, m.1) == e.0
    &&& digits_value(t, m.2, m.3) == e.1
}

proof fn lemma_forced_line(t: Seq<char>, q: int, a: nat, b: nat)
    requires
        stands_at(t, q, xv(a, b) + " = 0\n"@),
    ensures
        entries(t, q, Pattern::Forced) == seq![forced_line_span(q, a, b)]
            + entries(t, q + (xv(a, b) + " = 0\n"@).len(), Pattern::Forced),
        forced_line_span(q, a, b).0 < forced_line_span(q, a, b).1,
        forced_line_span(q, a, b).2 < forced_line_span(q, a, b).3,
        digits_value(t, forced_line_span(q, a, b).0, forced_line_span(q, a, b).1) == a,
        digits_value(t, forced_line_span(q, a, b).2, forced_line_span(q, a, b).3) == b,
{
    lemma_literals();
    lemma_dec_plain(a);
    lemma_dec_plain(b);
    let l = xv(a, b) + " = 0\n"@;
    let la = dec(a).len() as int;
    let lb = dec(b).len() as int;
    let e = q + l.len();
    assert(l.len() == 2 + la + 1 + lb + 5);
    assert forall|y: int| q <= y < e implies #[trigger] t[y] == l[y - q] by {
        assert(t[y] == t.subrange(q, e)[y - q]);
    }
    assert(t[q] == 'x');
    assert(t[q + 1] == '_');
    assert(t.subrange(q + 2, q + 2 + la) =~= dec(a)) by {
        assert forall|j: int| 0 <= j < la implies t.subrange(q + 2, q + 2 + la)[j] == dec(a)[j] by {
            assert(t[q + 2 + j] == l[2 + j]);
        }
    }
    assert(t[q + 2 + la] == '_');
    assert(t.subrange(q + 3 + la, q + 3 + la + lb) =~= dec(b)) by {
        assert forall|j: int| 0 <= j < lb implies t.subrange(q + 3 + la, q + 3 + la + lb)[j] == dec(b)[j] by {
            assert(t[q + 3 + la + j] == l[3 + la + j]);
        }
    }
    let b1 = q + 3 + la + lb;
    assert(t[b1] == ' ' && t[b1 + 1] == '=' && t[b1 + 2] == ' ' && t[b1 + 3] == '0' && t[b1 + 4] == '\n');
    assert forall|j: int| q + 2 <= j < q + 2 + la implies is_digit(#[trigger] t[j]) by {
        assert(t[j] == t.subrange(q + 2, q + 2 + la)[j - q - 2]);
    }
    assert forall|j: int| q + 3 + la <= j < b1 implies is_digit(#[trigger] t[j]) by {
        assert(t[j] == t.subrange(q + 3 + la, b1)[j - q - 3 - la]);
    }
    lemma_skip_digits_over(t, q + 2, la);
    lemma_skip_digits_over(t, q + 3 + la, lb);
    assert(entry_at(t, q, Pattern::Forced) == Some(forced_line_span(q, a, b)));
    assert(entry_at(t, b1 + 4, Pattern::Forced) is None);
    assert(entries(t, b1 + 4, Pattern::Forced) == entries(t, e, Pattern::Forced));
    lemma_dec_value(t, q + 2, a);
    lemma_dec_value(t, q + 3 + la, b);
}

proof fn lemma_forced_lines_prefix(f: Seq<(usize, usize)>, k: int)
    requires
        0 < k,
    ensures
        forced_lines(f, k) == forced_lines(f, k - 1) + (xv(f[k - 1].0 as nat, f[k - 1].1 as nat) + " = 0\n"@),
{
    assert(forced_lines(f, k) =~= forced_lines(f, k - 1) + (xv(f[k - 1].0 as nat, f[k - 1].1 as nat) + " = 0\n"@));
}

/// The forced lines, standing from `p` on, hold one entry each, which
/// reads as its forced edge.
proof fn lemma_forced_region(t: Seq<char>, p: int, f: Seq<(usize, usize)>, k: int)
    requires
        0 <= k <= f.len(),
        stands_at(t, p, forced_lines(f, k)),
    ensures
        entries(t, p, Pattern::Forced) == forced_spans(f, p, k) + entries(t, p + forced_lines(f, k).len(), Pattern::Forced),
        forced_spans(f, p, k).len() == k,
        forall|q: int| 0 <= q < k ==> reads_as(t, #[trigger] forced_spans(f, p, k)[q], f[q]),
    decreases k,
{
    if k > 0 {
        let prev = forced_lines(f, k - 1);
        let (a, b) = f[k - 1];
        let line = xv(a as nat, b as nat) + " = 0\n"@;
        lemma_forced_lines_prefix(f, k);
        let q0 = p + prev.len();
        assert(t.subrange(p, q0) =~= prev) by {
            assert forall|j: int| 0 <= j < prev.len() implies t.subrange(p, q0)[j] == prev[j] by {
                assert(t.subrange(p, q0)[j] == t.subrange(p, p + forced_lines(f, k).len())[j]);
            }
        }
        lemma_forced_region(t, p, f, k - 1);
        assert(t.subrange(q0, q0 + line.len()) =~= line) by {
            assert forall|j: int| 0 <= j < line.len() implies t.subrange(q0, q0 + line.len())[j] == line[j] by {
                assert(t.subrange(q0, q0 + line.len())[j] == t.subrange(p, p + forced_lines(f, k).len())[prev.len() + j]);
            }
        }
        lemma_forced_line(t, q0, a as nat, b as nat);
        let sp = forced_spans(f, p, k);
        assert(sp == forced_spans(f, p, k - 1).push(forced_line_span(q0, a as nat, b as nat)));
        assert(entries(t, p, Pattern::Forced) =~= sp + entries(t, p + forced_lines(f, k).len(), Pattern::Forced));
        assert forall|q: int| 0 <= q < k implies reads_as(t, #[trigger] forced_spans(f, p, k)[q], f[q]) by {
            if q < k - 1 {
                assert(sp[q] == forced_spans(f, p, k - 1)[q]);
            }
        }
    }
}

/// Each of the first `k` forced edges `(a, b)`, followed by `(b, a)`.
pub open spec fn both_ways(f: Seq<(usize, usize)>, k: int) -> Seq<(usize, usize)>
    decreases k,
{
    if k <= 0 {
        seq![]
    } else {
        both_ways(f, k - 1) + seq![f[k - 1], (f[k - 1].1, f[k - 1].0)]
    }
}

proof fn lemma_pairs(t: Seq<char>, ms: Seq<(int, int, int, int, int, int, int)>, f: Seq<(usize, usize)>, k: int)
    requires
        0 <= k <= ms.len() == f.len(),
        forall|q: int| 0 <= q < ms.len() ==> reads_as(t, #[trigger] ms[q], f[q]),
    ensures
        forced_pairs(t, ms, k) == both_ways(f, k),
    decreases k,
{
    if k > 0 {
        lemma_pairs(t, ms, f, k - 1);
        assert(reads_as(t, ms[k - 1], f[k - 1]));
    }
}

proof fn lemma_both_ways(f: Seq<(usize, usize)>, k: int)
    requires
        0 <= k <= f.len(),
    ensures
        forall|e: (usize, usize)| #[trigger] both_ways(f, k).contains(e)
            <==> f.take(k).contains(e) || f.take(k).contains((e.1, e.0)),
    decreases k,
{
    if k > 0 {
        lemma_both_ways(f, k - 1);
        let prev = both_ways(f, k - 1);
        let cur = both_ways(f, k);
        let last = f[k - 1];
        assert(f.take(k) =~= f.take(k - 1).push(last));
        assert forall|e: (usize, usize)| #[trigger] cur.contains(e)
            <==> f.take(k).contains(e) || f.take(k).contains((e.1, e.0)) by {
            vstd::seq_lib::lemma_seq_contains_after_push(f.take(k - 1), last, e);
            vstd::seq_lib::lemma_seq_contains_after_push(f.take(k - 1), last, (e.1, e.0));
            if cur.contains(e) {
                let i = choose|i: int| 0 <= i < cur.len() && cur[i] == e;
                if i < prev.len() {
                    assert(prev.contains(e));
                }
            }
            if prev.contains(e) {
                let i = choose|i: int| 0 <= i < prev.len() && prev[i] == e;
                assert(cur[i] == e);
            }
            if e == last {
                assert(cur[prev.len() as int] == e);
            }
            if (e.1, e.0) == last {
                assert(cur[prev.len() as int + 1] == e);
            }
        }
    }
}

/// The lines from `Minimize` to `Subject to`.
spec fn head_lines(g: InstanceGraph) -> Seq<char> {
    let edges = crate::graph::graph_edge_list(g);
    "Minimize\n"@ + objective_terms(edges, edges.len() as int) + "\n"@ + "Subject to\n"@
}

/// The lines from the source's outflow to the vertex bounds.
spec fn middle_lines(g: InstanceGraph, s: u32, c: u32, coefs: Seq<u32>) -> Seq<char> {
    let n = crate::graph::graph_node_count(g);
    let at_s = crate::graph::graph_edges_at(g, s);
    source_terms(at_s, s, at_s.len() as int) + " = "@ + dec((c - 1) as nat) + "\n"@ + fv(s as nat) + " = 1\n"@
        + balance_lines(g, s, n as int) + vertex_terms(n as int) + " = "@ + dec(c as nat) + "\n"@
        + absorption_lines(g, s, coefs, n as int) + "Bounds\n"@ + vertex_bounds(n as int)
}

/// The lines from the edge bounds to the end.
spec fn tail_lines(g: InstanceGraph, ilp: bool) -> Seq<char> {
    let edges = crate::graph::graph_edge_list(g);
    edge_bounds(edges, edges.len() as int) + (if ilp { generals_section(g) } else { Seq::<char>::empty() }) + "End\n"@
}

#[verifier::rlimit(80)]
proof fn lemma_layout(
    g: InstanceGraph,
    s: u32,
    c: u32,
    forced: Seq<(usize, usize)>,
    bounds: Option<Seq<(u32, u32)>>,
    coefs: Seq<u32>,
    ilp: bool,
)
    ensures
        lp_text(g, s, c, forced, bounds, coefs, ilp) == head_lines(g) + forced_lines(forced, forced.len() as int)
            + cut_lines(crate::graph::graph_edge_list(g), bounds, crate::graph::graph_edge_list(g).len() as int)
            + middle_lines(g, s, c, coefs) + tail_lines(g, ilp),
{
    let edges = crate::graph::graph_edge_list(g);
    assert(lp_text(g, s, c, forced, bounds, coefs, ilp) =~= head_lines(g) + forced_lines(forced, forced.len() as int)
        + cut_lines(edges, bounds, edges.len() as int) + middle_lines(g, s, c, coefs) + tail_lines(g, ilp));
}

proof fn lemma_head(g: InstanceGraph)
    ensures
        eq_guarded(head_lines(g)),
        head_lines(g).len() > 0,
        head_lines(g).last() == '\n',
{
    let edges = crate::graph::graph_edge_list(g);
    let obj = objective_terms(edges, edges.len() as int);
    lemma_literals();
    lemma_objective(edges, edges.len() as int);
    lemma_cat("Minimize\n"@, obj);
    lemma_cat("Minimize\n"@ + obj, "\n"@);
    lemma_cat("Minimize\n"@ + obj + "\n"@, "Subject to\n"@);
}

proof fn lemma_middle(g: InstanceGraph, s: u32, c: u32, coefs: Seq<u32>)
    ensures
        lacks(middle_lines(g, s, c, coefs), 'x'),
{
    let n = crate::graph::graph_node_count(g);
    let at_s = crate::graph::graph_edges_at(g, s);
    let src = source_terms(at_s, s, at_s.len() as int);
    let bal = balance_lines(g, s, n as int);
    let vt = vertex_terms(n as int);
    let ab = absorption_lines(g, s, coefs, n as int);
    let vb = vertex_bounds(n as int);
    lemma_literals();
    lemma_source_terms(at_s, s, at_s.len() as int);
    lemma_balance_lines(g, s, n as int);
    lemma_vertex_terms(n as int);
    lemma_absorption_lines(g, s, coefs, n as int);
    lemma_vertex_bounds(n as int);
    lemma_dec_plain((c - 1) as nat);
    lemma_dec_plain(c as nat);
    lemma_names(s as nat, s as nat);
    let m1 = src + " = "@;
    lemma_cat(src, " = "@);
    let m2 = m1 + dec((c - 1) as nat);
    lemma_cat(m1, dec((c - 1) as nat));
    let m3 = m2 + "\n"@;
    lemma_cat(m2, "\n"@);
    let m4 = m3 + fv(s as nat);
    lemma_cat(m3, fv(s as nat));
    let m5 = m4 + " = 1\n"@;
    lemma_cat(m4, " = 1\n"@);
    let m6 = m5 + bal;
    lemma_cat(m5, bal);
    let m7 = m6 + vt;
    lemma_cat(m6, vt);
    let m8 = m7 + " = "@;
    lemma_cat(m7, " = "@);
    let m9 = m8 + dec(c as nat);
    lemma_cat(m8, dec(c as nat));
    let m10 = m9 + "\n"@;
    lemma_cat(m9, "\n"@);
    let m11 = m10 + ab;
    lemma_cat(m10, ab);
    let m12 = m11 + "Bounds\n"@;
    lemma_cat(m11, "Bounds\n"@);
    lemma_cat(m12, vb);
}

proof fn lemma_tail(g: InstanceGraph, ilp: bool)
    ensures
        eq_guarded(tail_lines(g, ilp)),
        tail_lines(g, ilp).len() > 0,
        tail_lines(g, ilp).last() == '\n',
{
    let edges = crate::graph::graph_edge_list(g);
    let eb = edge_bounds(edges, edges.len() as int);
    let gen = if ilp { generals_section(g) } else { Seq::<char>::empty() };
    lemma_literals();
    lemma_edge_bounds(edges, edges.len() as int);
    if ilp {
        lemma_generals(g);
    }
    assert(lacks(gen, '='));
    lemma_cat(gen, "End\n"@);
    lemma_cat(eb, gen + "End\n"@);
    assert(eb + gen + "End\n"@ =~= eb + (gen + "End\n"@));
}

/// A written program reads back its forced edges: the reader of forced
/// edges takes every vertex number of the program, and finds exactly the
/// forced edges, each one way and then the other, in the order in which
/// they were written.  So reading the forced edges of a program into a set
/// adds the forced edges and their reverses, and nothing else.
#[verifier::rlimit(80)]
pub proof fn lemma_forced_edges_read_back(
    g: InstanceGraph,
    s: u32,
    c: u32,
    forced: Seq<(usize, usize)>,
    bounds: Option<Seq<(u32, u32)>>,
    coefs: Seq<u32>,
    ilp: bool,
)
    ensures
        ({
            let t = lp_text(g, s, c, forced, bounds, coefs, ilp);
            let ms = entries(t, 0, Pattern::Forced);
            &&& forced_numbers_ok(t, ms)
            &&& forced_pairs(t, ms, ms.len() as int) == both_ways(forced, forced.len() as int)
            &&& forall|e: (usize, usize)| #[trigger] forced_pairs(t, ms, ms.len() as int).to_set().contains(e)
                <==> forced.contains(e) || forced.contains((e.1, e.0))
        }),
{
    let t = lp_text(g, s, c, forced, bounds, coefs, ilp);
    let edges = crate::graph::graph_edge_list(g);
    let head = head_lines(g);
    let fl = forced_lines(forced, forced.len() as int);
    let cl = cut_lines(edges, bounds, edges.len() as int);
    let mid = middle_lines(g, s, c, coefs);
    let tail = tail_lines(g, ilp);
    lemma_layout(g, s, c, forced, bounds, coefs, ilp);
    lemma_head(g);
    lemma_cut_lines(edges, bounds, edges.len() as int);
    lemma_middle(g, s, c, coefs);
    lemma_tail(g, ilp);

    let p1 = head.len() as int;
    let p2 = p1 + fl.len();
    let p3 = p2 + cl.len();
    let p4 = p3 + mid.len();
    let p5 = p4 + tail.len();
    assert(p5 == t.len());
    assert(t.subrange(0, p1) =~= head);
    assert(t.subrange(p1, p2) =~= fl);
    assert(t.subrange(p2, p3) =~= cl);
    assert(t.subrange(p3, p4) =~= mid);
    assert(t.subrange(p4, p5) =~= tail);

    lemma_guarded_piece(t, 0, head);
    lemma_forced_region(t, p1, forced, forced.len() as int);
    lemma_guarded_piece(t, p2, cl);
    lemma_piece_without_x(t, p3, mid);
    lemma_guarded_piece(t, p4, tail);
    assert(entries(t, p5, Pattern::Forced) == Seq::<(int, int, int, int, int, int, int)>::empty());
    let ms = entries(t, 0, Pattern::Forced);
    let sp = forced_spans(forced, p1, forced.len() as int);
    assert(ms =~= sp);
    assert forall|j: int| 0 <= j < ms.len() implies is_usize_text(t, #[trigger] ms[j].0, ms[j].1) && is_usize_text(t, ms[j].2, ms[j].3) by {
        assert(reads_as(t, sp[j], forced[j]));
    }
    lemma_pairs(t, ms, forced, ms.len() as int);
    lemma_both_ways(forced, forced.len() as int);
    assert(forced.take(forced.len() as int) =~= forced);
}

/// A name `<letter>_<a>` or `<letter>_<a>_<b>` reads back as its numbers.
proof fn lemma_name_parts(t: Seq<char>, c: char, a: nat, b: Option<nat>)
    requires
        t == (match b {
            Some(b) => seq![c, '_'] + dec(a) + seq!['_'] + dec(b),
            None => seq![c, '_'] + dec(a),
        }),
    ensures
        t[0] == c && t[1] == '_',
        skip_digits(t, 2) == 2 + dec(a).len() as int,
        digits_value(t, 2, 2 + dec(a).len() as int) == a,
        b is None ==> t.len() == 2 + dec(a).len() as int,
        b matches Some(bv) ==> t.len() > 3 + dec(a).len() as int && t[2 + dec(a).len() as int] == '_'
            && skip_digits(t, 3 + dec(a).len() as int) == t.len() && digits_value(t, 3 + dec(a).len() as int, t.len() as int) == bv,
{
    let la = dec(a).len() as int;
    lemma_dec(a);
    assert forall|j: int| 2 <= j < 2 + la implies #[trigger] t[j] == dec(a)[j - 2] by {}
    assert(t.subrange(2, 2 + la) =~= dec(a));
    lemma_dec_value(t, 2, a);
    match b {
        Some(bv) => {
            let lb = dec(bv).len() as int;
            lemma_dec(bv);
            assert(t.len() == 3 + la + lb);
            assert(t[2 + la] == '_');
            assert forall|j: int| 3 + la <= j < 3 + la + lb implies #[trigger] t[j] == dec(bv)[j - 3 - la] by {}
            assert(t.subrange(3 + la, 3 + la + lb) =~= dec(bv));
            lemma_dec_value(t, 3 + la, bv);
            lemma_skip_digits_over(t, 2, la);
            lemma_skip_digits_over(t, 3 + la, lb);
        },
        None => {
            lemma_skip_digits_over(t, 2, la);
        },
    }
}

/// The variable names of a program read back as the vertices they name:
/// after `x_` or `f_` come the decimal digits of the first vertex, and for
/// an edge a `_` and the digits of the second vertex, up to the end of the
/// name.
pub proof fn lemma_variable_names_read_back(a: nat, b: nat)
    ensures
        ({
            let x = xv(a, b);
            let la = dec(a).len() as int;
            &&& x[0] == 'x' && x[1] == '_'
            &&& skip_digits(x, 2) == 2 + la && digits_value(x, 2, 2 + la) == a
            &&& x[2 + la] == '_' && skip_digits(x, 3 + la) == x.len() && digits_value(x, 3 + la, x.len() as int) == b
        }),
        ({
            let f = fe(a, b);
            let la = dec(a).len() as int;
            &&& f[0] == 'f' && f[1] == '_'
            &&& skip_digits(f, 2) == 2 + la && digits_value(f, 2, 2 + la) == a
            &&& f[2 + la] == '_' && skip_digits(f, 3 + la) == f.len() && digits_value(f, 3 + la, f.len() as int) == b
        }),
        ({
            let f = fv(a);
            &&& f[0] == 'f' && f[1] == '_'
            &&& skip_digits(f, 2) == f.len() && digits_value(f, 2, f.len() as int) == a
        }),
{
    lemma_literals();
    assert(xv(a, b) =~= seq!['x', '_'] + dec(a) + seq!['_'] + dec(b));
    assert(fe(a, b) =~= seq!['f', '_'] + dec(a) + seq!['_'] + dec(b));
    assert(fv(a) =~= seq!['f', '_'] + dec(a));
    lemma_name_parts(xv(a, b), 'x', a, Some(b));
    lemma_name_parts(fe(a, b), 'f', a, Some(b));
    lemma_name_parts(fv(a), 'f', a, None);
}

/// Distinct vertices and edge directions have distinct variables, and no
/// vertex variable is the flow variable of an edge direction.
pub proof fn lemma_variable_names_distinct(a: nat, b: nat, c: nat, d: nat)
    ensures
        (xv(a, b) == xv(c, d)) == (a == c && b == d),
        (fe(a, b) == fe(c, d)) == (a == c && b == d),
        (fv(a) == fv(c)) == (a == c),
        fv(a) != fe(c, d),
{
    lemma_variable_names_read_back(a, b);
    lemma_variable_names_read_back(c, d);
    if xv(a, b) == xv(c, d) {
        assert(dec(a).len() == dec(c).len());
    }
    if fe(a, b) == fe(c, d) {
        assert(dec(a).len() == dec(c).len());
    }
    if fv(a) == fe(c, d) {
        lemma_dec_plain(c);
        lemma_dec_plain(d);
        assert(fe(c, d).len() > 3 + dec(c).len());
        assert(skip_digits(fv(a), 2) == fv(a).len());
        assert(false);
    }
}

} // verus!
