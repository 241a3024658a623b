//! An instance file written by the generator reads back as the instance it
//! was written from.
use vstd::prelude::*;
use vstd::string::*;
use crate::text::{dec, digit_char};
use crate::grammar::{is_digit, is_space, skip_spaces, skip_digits, digits_value, digit_value, is_u32_text};
use crate::instance::{edge_at, edge_matches, assignment_at, first_assignment, instance_of, edge_values,
    edge_numbers_ok, edges_fit, as_u32_edges};
use crate::generator::{header, edge_line, edge_lines, instance_text, clique_edges, lemma_clique_edges};

verus! {

proof fn lemma_digit_char(d: nat)
    requires
        d < 10,
    ensures
        is_digit(digit_char(d)),
        !is_space(digit_char(d)),
        digit_value(digit_char(d)) == d,
        digit_char(d) != '[' && digit_char(d) != 'k' && digit_char(d) != 's',
{
}

/// The decimal notation of `x` is a non-empty run of digits worth `x`.
pub(crate) proof fn lemma_dec(x: nat)
    ensures
        dec(x).len() >= 1,
        forall|j: int| 0 <= j < dec(x).len() ==> is_digit(#[trigger] dec(x)[j]) && !is_space(dec(x)[j])
            && dec(x)[j] != '[' && dec(x)[j] != 'k',
    decreases x,
{
    if x < 10 {
        lemma_digit_char(x);
    } else {
        lemma_dec(x / 10);
        lemma_digit_char(x % 10);
        assert forall|j: int| 0 <= j < dec(x).len() implies is_digit(#[trigger] dec(x)[j]) && !is_space(dec(x)[j])
            && dec(x)[j] != '[' && dec(x)[j] != 'k' by {
            if j < dec(x / 10).len() {
                assert(dec(x)[j] == dec(x / 10)[j]);
            }
        }
    }
}

/// Where the text holds the decimal notation of `x`, its digits are
/// worth `x`.
pub(crate) proof fn lemma_dec_value(t: Seq<char>, a: int, x: nat)
    requires
        0 <= a,
        a + dec(x).len() <= t.len(),
        t.subrange(a, a + dec(x).len()) == dec(x),
    ensures
        digits_value(t, a, a + dec(x).len()) == x,
    decreases x,
{
    let b = a + dec(x).len();
    if x < 10 {
        lemma_digit_char(x);
        assert(t[a] == t.subrange(a, b)[0]);
        assert(digits_value(t, a, a) == 0);
    } else {
        let p = dec(x / 10);
        assert(dec(x) == p + seq![digit_char(x % 10)]);
        assert(t.subrange(a, a + p.len()) =~= p) by {
            assert forall|j: int| 0 <= j < p.len() implies t.subrange(a, a + p.len())[j] == p[j] by {
                assert(t.subrange(a, b)[j] == dec(x)[j]);
            }
        }
        lemma_dec_value(t, a, x / 10);
        assert(t[b - 1] == t.subrange(a, b)[b - 1 - a]);
        lemma_digit_char(x % 10);
    }
}

/// A run of `len` digits followed by a non-digit is skipped whole.
pub(crate) proof fn lemma_skip_digits_over(t: Seq<char>, i: int, len: int)
    requires
        0 <= i,
        0 <= len,
        i + len <= t.len(),
        forall|j: int| i <= j < i + len ==> is_digit(#[trigger] t[j]),
        i + len < t.len() ==> !is_digit(t[i + len]),
    ensures
        skip_digits(t, i) == i + len,
    decreases len,
{
    if len > 0 {
        lemma_skip_digits_over(t, i + 1, len - 1);
    }
}

/// No edge starts where there is no `[`.
proof fn lemma_no_bracket(t: Seq<char>, i: int, j: int)
    requires
        0 <= i <= j <= t.len(),
        forall|x: int| i <= x < j ==> t[x] != '[',
    ensures
        edge_matches(t, i) == edge_matches(t, j),
    decreases j - i,
{
    if i < j {
        lemma_no_bracket(t, i + 1, j);
        assert(edge_at(t, i) is None);
    }
}

/// No assignment of `key` starts where there is no `key`.
proof fn lemma_no_key(t: Seq<char>, key: char, i: int, j: int)
    requires
        0 <= i <= j <= t.len(),
        forall|x: int| i <= x < j ==> t[x] != key,
    ensures
        first_assignment(t, i, key) == first_assignment(t, j, key),
    decreases j - i,
{
    if i < j {
        lemma_no_key(t, key, i + 1, j);
        assert(assignment_at(t, i, key) is None);
    }
}

proof fn lemma_literals()
    ensures
        "s="@ == seq!['s', '='],
        " k="@ == seq![' ', 'k', '='],
        "\n"@ == seq!['\n'],
        "["@ == seq!['['],
        ";"@ == seq![';'],
        "]\n"@ == seq![']', '\n'],
{
    reveal_strlit("s=");
    reveal_strlit(" k=");
    reveal_strlit("\n");
    reveal_strlit("[");
    reveal_strlit(";");
    reveal_strlit("]\n");
    assert("s="@ =~= seq!['s', '=']);
    assert(" k="@ =~= seq![' ', 'k', '=']);
    assert("\n"@ =~= seq!['\n']);
    assert("["@ =~= seq!['[']);
    assert(";"@ =~= seq![';']);
    assert("]\n"@ =~= seq![']', '\n']);
}

/// The lines of a list of edges: the first line, then the others.
proof fn lemma_edge_lines_first(edges: Seq<(nat, nat)>)
    requires
        edges.len() > 0,
    ensures
        edge_lines(edges) == edge_line(edges[0]) + edge_lines(edges.drop_first()),
    decreases edges.len(),
{
    if edges.len() == 1 {
        assert(edges.drop_last().len() == 0);
        assert(edges.drop_first().len() == 0);
        assert(edge_lines(edges.drop_last()) == Seq::<char>::empty());
        assert(edge_lines(edges.drop_first()) == Seq::<char>::empty());
        assert(edges.last() == edges[0]);
        assert(edge_lines(edges) == edge_lines(edges.drop_last()) + edge_line(edges.last()));
        assert(edge_lines(edges) =~= edge_line(edges[0]) + edge_lines(edges.drop_first()));
    } else {
        let dl = edges.drop_last();
        let df = edges.drop_first();
        lemma_edge_lines_first(dl);
        assert(dl.drop_first() =~= df.drop_last());
        assert(df.last() == edges.last());
        assert(dl[0] == edges[0]);
        assert(edge_lines(edges) == edge_lines(dl) + edge_line(edges.last()));
        assert(edge_lines(dl) == edge_line(edges[0]) + edge_lines(dl.drop_first()));
        assert(edge_lines(df) == edge_lines(df.drop_last()) + edge_line(df.last()));
        assert(edge_lines(edges) =~= edge_line(edges[0]) + edge_lines(edges.drop_first()));
    }
}

/// An edge line at `p` matches as an edge with the endpoints of `e`,
/// and nothing matches at its closing newline.
proof fn lemma_line_at(t: Seq<char>, p: int, e: (nat, nat))
    requires
        0 <= p,
        p + edge_line(e).len() <= t.len(),
        t.subrange(p, p + edge_line(e).len()) == edge_line(e),
    ensures
        ({
            let a0 = p + 1;
            let a1 = a0 + dec(e.0).len();
            let b0 = a1 + 1;
            let b1 = b0 + dec(e.1).len();
            &&& edge_at(t, p) == Some((a0, a1, b0, b1, b1 + 1))
            &&& edge_at(t, b1 + 1) is None
            &&& b1 + 2 == p + edge_line(e).len()
            &&& a0 < a1 && digits_value(t, a0, a1) == e.0
            &&& b0 < b1 && digits_value(t, b0, b1) == e.1
        }),
{
    lemma_literals();
    let line = edge_line(e);
    let da = dec(e.0);
    let db = dec(e.1);
    lemma_dec(e.0);
    lemma_dec(e.1);
    assert(line =~= seq!['['] + da + seq![';'] + db + seq![']', '\n']);
    let len = line.len() as int;
    assert forall|j: int| 0 <= j < len implies #[trigger] t[p + j] == line[j] by {
        assert(t.subrange(p, p + len)[j] == t[p + j]);
    }
    let a0 = p + 1;
    let a1 = a0 + da.len();
    let b0 = a1 + 1;
    let b1 = b0 + db.len();
    assert(t[p + 0] == line[0]);
    assert(t[p] == '[');
    assert forall|j: int| a0 <= j < a1 implies is_digit(#[trigger] t[j]) && t[j] == da[j - a0] by {
        assert(t[p + (j - p)] == line[j - p]);
        assert(line[j - p] == da[j - a0]);
    }
    assert(t[p + (a1 - p)] == line[a1 - p]);
    assert(t[a1] == ';');
    assert forall|j: int| b0 <= j < b1 implies is_digit(#[trigger] t[j]) && t[j] == db[j - b0] by {
        assert(t[p + (j - p)] == line[j - p]);
        assert(line[j - p] == db[j - b0]);
    }
    assert(t[p + (b1 - p)] == line[b1 - p]);
    assert(t[b1] == ']');
    assert(t[p + (b1 + 1 - p)] == line[b1 + 1 - p]);
    assert(t[b1 + 1] == '\n');
    assert(t[a0] == da[0]);
    assert(t[b0] == db[0]);
    assert(skip_spaces(t, a0) == a0);
    lemma_skip_digits_over(t, a0, da.len() as int);
    assert(skip_spaces(t, a1) == a1);
    assert(skip_spaces(t, b0) == b0);
    lemma_skip_digits_over(t, b0, db.len() as int);
    assert(skip_spaces(t, b1) == b1);
    assert(edge_at(t, p) == Some((a0, a1, b0, b1, b1 + 1)));
    assert(edge_at(t, b1 + 1) is None);
    assert(t.subrange(a0, a1) =~= da);
    assert(t.subrange(b0, b1) =~= db);
    lemma_dec_value(t, a0, e.0);
    lemma_dec_value(t, b0, e.1);
}

/// The edge lines at the end of a text match one by one, and each match
/// holds the endpoints of its edge.
proof fn lemma_lines_match(t: Seq<char>, p: int, rest: Seq<(nat, nat)>)
    requires
        0 <= p <= t.len(),
        t.subrange(p, t.len() as int) == edge_lines(rest),
    ensures
        edge_matches(t, p).len() == rest.len(),
        forall|q: int| 0 <= q < rest.len() ==> {
            let m = #[trigger] edge_matches(t, p)[q];
            &&& m.0 < m.1 && digits_value(t, m.0, m.1) == rest[q].0
            &&& m.2 < m.3 && digits_value(t, m.2, m.3) == rest[q].1
        },
    decreases rest.len(),
{
    if rest.len() == 0 {
        assert(edge_lines(rest).len() == 0);
        assert(p == t.len());
    } else {
        let e = rest[0];
        lemma_edge_lines_first(rest);
        let line = edge_line(e);
        let others = edge_lines(rest.drop_first());
        let len = line.len() as int;
        let sub = t.subrange(p, t.len() as int);
        assert(sub == line + others);
        assert(t.subrange(p, p + len) =~= line) by {
            assert forall|j: int| 0 <= j < len implies t.subrange(p, p + len)[j] == line[j] by {
                assert(sub[j] == (line + others)[j]);
            }
        }
        let next = p + len;
        assert(t.subrange(next, t.len() as int) =~= others) by {
            assert forall|j: int| 0 <= j < t.len() - next implies t.subrange(next, t.len() as int)[j] == others[j] by {
                assert(sub[len + j] == (line + others)[len + j]);
            }
        }
        lemma_line_at(t, p, e);
        lemma_lines_match(t, next, rest.drop_first());
        let b1 = next - 2;
        assert(edge_matches(t, b1 + 1) == edge_matches(t, next));
        let ms = edge_matches(t, p);
        assert(ms == seq![edge_at(t, p)->0] + edge_matches(t, b1 + 1));
        assert forall|q: int| 0 <= q < rest.len() implies {
            let m = #[trigger] edge_matches(t, p)[q];
            &&& m.0 < m.1 && digits_value(t, m.0, m.1) == rest[q].0
            &&& m.2 < m.3 && digits_value(t, m.2, m.3) == rest[q].1
        } by {
            if q > 0 {
                assert(ms[q] == edge_matches(t, next)[q - 1]);
                assert(rest[q] == rest.drop_first()[q - 1]);
            }
        }
    }
}

/// The header's source and capacity are found where they were written.
proof fn lemma_header(t: Seq<char>, s: nat, k: nat)
    requires
        header(s, k).len() <= t.len(),
        t.subrange(0, header(s, k).len() as int) == header(s, k),
    ensures
        ({
            let s1: int = 2 + dec(s).len() as int;
            let k0: int = s1 + 3;
            let k1: int = k0 + dec(k).len();
            &&& forall|x: int| 0 <= x < header(s, k).len() ==> t[x] != '['
            &&& first_assignment(t, 0, 's') == Some((2int, s1))
            &&& first_assignment(t, 0, 'k') == Some((k0, k1))
            &&& digits_value(t, 2, s1) == s
            &&& digits_value(t, k0, k1) == k
        }),
{
    lemma_literals();
    let ds = dec(s);
    let dk = dec(k);
    lemma_dec(s);
    lemma_dec(k);
    let h = header(s, k);
    assert(h =~= seq!['s', '='] + ds + seq![' ', 'k', '='] + dk + seq!['\n']);
    let len = h.len() as int;
    assert forall|j: int| 0 <= j < len implies #[trigger] t[j] == h[j] by {
        assert(t.subrange(0, len)[j] == t[j]);
    }
    let s1: int = 2 + ds.len() as int;
    let k0: int = s1 + 3;
    let k1: int = k0 + dk.len();
    assert(len == k1 + 1);
    assert(t[0] == h[0] && t[1] == h[1]);
    assert(t[0] == 's' && t[1] == '=');
    assert forall|j: int| 2 <= j < s1 implies is_digit(#[trigger] t[j]) && t[j] == ds[j - 2] && t[j] != '[' && t[j] != 'k' by {
        assert(t[j] == h[j]);
        assert(h[j] == ds[j - 2]);
    }
    assert(t[s1] == h[s1] && t[s1 + 1] == h[s1 + 1] && t[s1 + 2] == h[s1 + 2]);
    assert(t[s1] == ' ' && t[s1 + 1] == 'k' && t[s1 + 2] == '=');
    assert forall|j: int| k0 <= j < k1 implies is_digit(#[trigger] t[j]) && t[j] == dk[j - k0] && t[j] != '[' by {
        assert(t[j] == h[j]);
        assert(h[j] == dk[j - k0]);
    }
    assert(t[k1] == h[k1]);
    assert(t[k1] == '\n');
    assert forall|x: int| 0 <= x < len implies t[x] != '[' by {
        if 2 <= x < s1 {
        } else if k0 <= x < k1 {
        } else {
            assert(t[x] == h[x]);
        }
    }
    assert(t[2] == ds[0]);
    assert(t[k0] == dk[0]);
    assert(skip_spaces(t, 1) == 1);
    assert(skip_spaces(t, 2) == 2);
    lemma_skip_digits_over(t, 2, ds.len() as int);
    assert(assignment_at(t, 0, 's') == Some((2int, s1)));
    assert(first_assignment(t, 0, 's') == Some((2int, s1)));
    lemma_no_key(t, 'k', 0, s1 + 1);
    assert(skip_spaces(t, s1 + 2) == s1 + 2);
    assert(skip_spaces(t, k0) == k0);
    lemma_skip_digits_over(t, k0, dk.len() as int);
    assert(assignment_at(t, s1 + 1, 'k') == Some((k0, k1)));
    assert(first_assignment(t, s1 + 1, 'k') == Some((k0, k1)));
    assert(t.subrange(2, s1) =~= ds);
    assert(t.subrange(k0, k1) =~= dk);
    lemma_dec_value(t, 2, s);
    lemma_dec_value(t, k0, k);
}

/// An instance file written from a source, a capacity and a list of edges
/// (all of them numbers that the reader takes) reads back as exactly that
/// source, capacity and list of edges.
pub proof fn lemma_instance_text_reads_back(s: nat, k: nat, edges: Seq<(nat, nat)>)
    requires
        s <= u32::MAX,
        k <= u32::MAX,
        edges.len() <= u32::MAX,
        forall|q: int| 0 <= q < edges.len() ==> (#[trigger] edges[q]).0 < u32::MAX && edges[q].1 < u32::MAX,
    ensures
        instance_of(instance_text(s, k, edges)) == Ok::<(Seq<(u32, u32)>, u32, u32), crate::instance::InstanceError>(
            (as_u32_edges(edges), s as u32, k as u32)),
{
    let t = instance_text(s, k, edges);
    let h = header(s, k);
    let hl = h.len() as int;
    assert(t.subrange(0, hl) =~= h);
    assert(t.subrange(hl, t.len() as int) =~= edge_lines(edges));
    lemma_header(t, s, k);
    lemma_no_bracket(t, 0, hl);
    lemma_lines_match(t, hl, edges);
    let ms = edge_matches(t, 0);
    assert(ms == edge_matches(t, hl));
    assert(edge_numbers_ok(t, ms)) by {
        assert forall|j: int| 0 <= j < ms.len() implies is_u32_text(t, #[trigger] ms[j].0, ms[j].1) && is_u32_text(t, ms[j].2, ms[j].3) by {
            assert(edges[j] == edges[j]);
        }
    }
    assert(edge_values(t, ms) =~= as_u32_edges(edges)) by {
        assert forall|j: int| 0 <= j < ms.len() implies edge_values(t, ms)[j] == as_u32_edges(edges)[j] by {
            assert(ms[j] == edge_matches(t, hl)[j]);
        }
    }
    assert(edges_fit(as_u32_edges(edges))) by {
        assert forall|j: int| 0 <= j < edges.len() implies #[trigger] as_u32_edges(edges)[j].0 < u32::MAX && as_u32_edges(edges)[j].1 < u32::MAX by {
            assert(edges[j] == edges[j]);
        }
    }
}

/// The clique file on `n` vertices reads back as the edges of the complete
/// graph on `n` vertices (those of `complete_graph(n)`), with its source
/// and capacity.
pub proof fn lemma_clique_file_reads_back(n: nat, k: nat, s: nat)
    requires
        s <= u32::MAX,
        k <= u32::MAX,
        n <= u32::MAX,
        n * (n - 1) <= 2 * u32::MAX,
    ensures
        instance_of(instance_text(s, k, clique_edges(n))) == Ok::<(Seq<(u32, u32)>, u32, u32), crate::instance::InstanceError>(
            (as_u32_edges(clique_edges(n)), s as u32, k as u32)),
{
    lemma_clique_edges(n);
    let e = clique_edges(n);
    assert(e.len() <= u32::MAX) by (nonlinear_arith)
        requires
            2 * e.len() == n * (n - 1),
            n * (n - 1) <= 2 * u32::MAX,
    ;
    lemma_instance_text_reads_back(s, k, e);
}

} // verus!
