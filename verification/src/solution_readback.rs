//! A solution file reads back as the entries it was written from: every
//! line `x_a_b <value>`, `f_a_b <value>` or `f_v <value>` is read as its
//! vertex numbers and its value, and nothing else is read.
use vstd::prelude::*;
use crate::text::dec;
use crate::grammar::{is_digit, is_space, skip_digits, digits_value, is_u32_text};
use crate::scan::{Pattern, opening, is_value_char, skip_value, value_after, entry_at, entries, edge_ids_ok,
    node_ids_ok, edge_entry_values, node_entry_values};
use crate::roundtrip::{lemma_dec, lemma_dec_value, lemma_skip_digits_over};

verus! {

/// A value of a solution line: a non-empty run of value characters.
pub open spec fn is_value_text(v: Seq<char>) -> bool {
    v.len() > 0 && forall|j: int| 0 <= j < v.len() ==> is_value_char(#[trigger] v[j])
}

/// A line of a solution file, given as its kind, its first vertex, its
/// second vertex (not written for a vertex entry) and its value.
pub open spec fn solution_line(l: (Pattern, u32, u32, Seq<char>)) -> Seq<char> {
    if l.0 == Pattern::FlowNode {
        seq!['f', '_'] + dec(l.1 as nat) + seq![' '] + l.3 + seq!['\n']
    } else {
        seq![opening(l.0), '_'] + dec(l.1 as nat) + seq!['_'] + dec(l.2 as nat) + seq![' '] + l.3 + seq!['\n']
    }
}

/// The first `k` lines of a solution file.
pub open spec fn solution_text(ls: Seq<(Pattern, u32, u32, Seq<char>)>, k: int) -> Seq<char>
    decreases k,
{
    if k <= 0 {
        seq![]
    } else {
        solution_text(ls, k - 1) + solution_line(ls[k - 1])
    }
}

/// A line of one of the three kinds of a solution, with a value.
pub open spec fn is_solution_line(l: (Pattern, u32, u32, Seq<char>)) -> bool {
    l.0 != Pattern::Forced && is_value_text(l.3)
}

/// The edge entries of kind `p` among the first `k` lines, in order.
pub open spec fn edge_lines_of(ls: Seq<(Pattern, u32, u32, Seq<char>)>, p: Pattern, k: int) -> Seq<(u32, u32, Seq<char>)>
    decreases k,
{
    if k <= 0 {
        seq![]
    } else if ls[k - 1].0 == p {
        edge_lines_of(ls, p, k - 1).push((ls[k - 1].1, ls[k - 1].2, ls[k - 1].3))
    } else {
        edge_lines_of(ls, p, k - 1)
    }
}

/// The vertex entries among the first `k` lines, in order.
pub open spec fn node_lines_of(ls: Seq<(Pattern, u32, u32, Seq<char>)>, k: int) -> Seq<(u32, Seq<char>)>
    decreases k,
{
    if k <= 0 {
        seq![]
    } else if ls[k - 1].0 == Pattern::FlowNode {
        node_lines_of(ls, k - 1).push((ls[k - 1].1, ls[k - 1].3))
    } else {
        node_lines_of(ls, k - 1)
    }
}

/// The text `s` stands in `t` from `i` on.
spec fn stands_at(t: Seq<char>, i: int, s: Seq<char>) -> bool {
    0 <= i && i + s.len() <= t.len() && t.subrange(i, i + s.len()) == s
}

/// Where the entry of line `l` stands when the line starts at `q`.
spec fn line_span(l: (Pattern, u32, u32, Seq<char>), q: int) -> (int, int, int, int, int, int, int) {
    let la = dec(l.1 as nat).len() as int;
    let lb = dec(l.2 as nat).len() as int;
    let lv = l.3.len() as int;
    if l.0 == Pattern::FlowNode {
        let a1 = q + 2 + la;
        (q + 2, a1, a1, a1, a1 + 1, a1 + 1 + lv, a1 + 1 + lv)
    } else {
        let b1 = q + 3 + la + lb;
        (q + 2, q + 2 + la, q + 3 + la, b1, b1 + 1, b1 + 1 + lv, b1 + 1 + lv)
    }
}

/// Entry `m` reads as the edge entry `e`.
spec fn reads_edge(t: Seq<char>, m: (int, int, int, int, int, int, int), e: (u32, u32, Seq<char>)) -> bool {
    &&& 0 <= m.0 < m.1 && m.2 < m.3 && m.4 <= m.5 <= t.len()
    &&& digits_value(t, m.0, m.1) == e.0
    &&& digits_value(t, m.2, m.3) == e.1
    &&& t.subrange(m.4, m.5) == e.2
}

/// Entry `m` reads as the vertex entry `e`.
spec fn reads_node(t: Seq<char>, m: (int, int, int, int, int, int, int), e: (u32, Seq<char>)) -> bool {
    &&& 0 <= m.0 < m.1 && m.4 <= m.5 <= t.len()
    &&& digits_value(t, m.0, m.1) == e.0
    &&& t.subrange(m.4, m.5) == e.1
}

/// A run of `len` value characters followed by another character is
/// skipped whole.
proof fn lemma_skip_value_over(t: Seq<char>, i: int, len: int)
    requires
        0 <= i,
        0 <= len,
        i + len <= t.len(),
        forall|j: int| i <= j < i + len ==> is_value_char(#[trigger] t[j]),
        i + len < t.len() ==> !is_value_char(t[i + len]),
    ensures
        skip_value(t, i) == i + len,
    decreases len,
{
    if len > 0 {
        lemma_skip_value_over(t, i + 1, len - 1);
    }
}

/// No entry of kind `p` starts in `t[i..j]`: the entries from `i` on are
/// those from `j` on.
proof fn lemma_between(t: Seq<char>, p: Pattern, i: int, j: int)
    requires
        0 <= i <= j <= t.len(),
        forall|x: int| i <= x < j ==> #[trigger] entry_at(t, x, p) is None,
    ensures
        entries(t, i, p) == entries(t, j, p),
    decreases j - i,
{
    if i < j {
        lemma_between(t, p, i + 1, j);
        assert(entry_at(t, i, p) is None);
    }
}

/// What a solution line holds, position by position.
proof fn lemma_line_chars(t: Seq<char>, q: int, l: (Pattern, u32, u32, Seq<char>))
    requires
        stands_at(t, q, solution_line(l)),
        is_solution_line(l),
    ensures
        ({
            let m = line_span(l, q);
            let e = q + solution_line(l).len();
            &&& e == m.6 + 1
            &&& t[q] == opening(l.0) && t[q + 1] == '_'
            &&& forall|x: int| m.0 <= x < m.1 ==> is_digit(#[trigger] t[x])
            &&& forall|x: int| m.2 <= x < m.3 ==> is_digit(#[trigger] t[x])
            &&& forall|x: int| m.4 <= x < m.5 ==> is_value_char(#[trigger] t[x])
            &&& (l.0 != Pattern::FlowNode ==> t[m.1] == '_')
            &&& t[m.4 - 1] == ' '
            &&& t[m.6] == '\n'
            &&& m.0 < m.1 && m.2 <= m.3 && (l.0 != Pattern::FlowNode ==> m.2 < m.3)
            &&& t.subrange(m.0, m.1) == dec(l.1 as nat)
            &&& (l.0 != Pattern::FlowNode ==> t.subrange(m.2, m.3) == dec(l.2 as nat))
            &&& t.subrange(m.4, m.5) == l.3
            &&& forall|x: int| q < x < e ==> #[trigger] t[x] != 'x' && t[x] != 'f'
        }),
{
    lemma_dec(l.1 as nat);
    lemma_dec(l.2 as nat);
    let s = solution_line(l);
    let m = line_span(l, q);
    let e = q + s.len();
    let da = dec(l.1 as nat);
    let db = dec(l.2 as nat);
    let v = l.3;
    assert forall|y: int| q <= y < e implies #[trigger] t[y] == s[y - q] by {
        assert(t[y] == t.subrange(q, e)[y - q]);
    }
    if l.0 == Pattern::FlowNode {
        assert(s =~= seq!['f', '_'] + da + seq![' '] + v + seq!['\n']);
        assert(s.len() == 2 + da.len() + 1 + v.len() + 1);
        assert forall|x: int| m.0 <= x < m.1 implies #[trigger] t[x] == da[x - m.0] by {
            assert(s[x - q] == da[x - q - 2]);
        }
        assert forall|x: int| m.4 <= x < m.5 implies #[trigger] t[x] == v[x - m.4] by {
            assert(s[x - q] == v[x - m.4]);
        }
        assert(t.subrange(m.0, m.1) =~= da);
        assert(t.subrange(m.4, m.5) =~= v);
        assert forall|x: int| q < x < e implies #[trigger] t[x] != 'x' && t[x] != 'f' by {
            if m.0 <= x < m.1 {
                assert(is_digit(da[x - m.0]));
            } else if m.4 <= x < m.5 {
                assert(is_value_char(v[x - m.4]));
            }
        }
    } else {
        assert(s.len() == 2 + da.len() + 1 + db.len() + 1 + v.len() + 1);
        assert forall|x: int| m.0 <= x < m.1 implies #[trigger] t[x] == da[x - m.0] by {
            assert(s[x - q] == da[x - q - 2]);
        }
        assert forall|x: int| m.2 <= x < m.3 implies #[trigger] t[x] == db[x - m.2] by {
            assert(s[x - q] == db[x - m.2]);
        }
        assert forall|x: int| m.4 <= x < m.5 implies #[trigger] t[x] == v[x - m.4] by {
            assert(s[x - q] == v[x - m.4]);
        }
        assert(t[m.1] == s[m.1 - q]);
        assert(t.subrange(m.0, m.1) =~= da);
        assert(t.subrange(m.2, m.3) =~= db);
        assert(t.subrange(m.4, m.5) =~= v);
        assert forall|x: int| q < x < e implies #[trigger] t[x] != 'x' && t[x] != 'f' by {
            if m.0 <= x < m.1 {
                assert(is_digit(da[x - m.0]));
            } else if m.2 <= x < m.3 {
                assert(is_digit(db[x - m.2]));
            } else if m.4 <= x < m.5 {
                assert(is_value_char(v[x - m.4]));
            }
        }
    }
    assert(t[m.4 - 1] == s[m.4 - 1 - q]);
    assert(t[m.6] == s[m.6 - q]);
}

/// A solution line holds one entry of its own kind, which reads as the
/// line's numbers and value, and no entry of another kind.
proof fn lemma_line(t: Seq<char>, q: int, l: (Pattern, u32, u32, Seq<char>), p: Pattern)
    requires
        stands_at(t, q, solution_line(l)),
        is_solution_line(l),
        p != Pattern::Forced,
    ensures
        l.0 == p ==> entries(t, q, p) == seq![line_span(l, q)] + entries(t, q + solution_line(l).len(), p),
        l.0 != p ==> entries(t, q, p) == entries(t, q + solution_line(l).len(), p),
        l.0 == p && p != Pattern::FlowNode ==> reads_edge(t, line_span(l, q), (l.1, l.2, l.3)),
        l.0 == p && p == Pattern::FlowNode ==> reads_node(t, line_span(l, q), (l.1, l.3)),
{
    lemma_line_chars(t, q, l);
    let m = line_span(l, q);
    let e = q + solution_line(l).len();
    lemma_skip_digits_over(t, m.0, m.1 - m.0);
    if l.0 != Pattern::FlowNode {
        lemma_skip_digits_over(t, m.2, m.3 - m.2);
    }
    lemma_skip_value_over(t, m.4, m.5 - m.4);
    assert(is_space(t[m.4 - 1]));
    assert forall|x: int| q < x < e implies #[trigger] entry_at(t, x, p) is None by {
        assert(t[x] != 'x' && t[x] != 'f');
    }
    if l.0 == p {
        assert(value_after(t, m.4 - 1) == Some((m.4, m.5)));
        assert(entry_at(t, q, p) == Some(m));
        assert(entry_at(t, m.6, p) is None);
        lemma_between(t, p, m.6, e);
        lemma_dec_value(t, m.0, l.1 as nat);
        if p != Pattern::FlowNode {
            lemma_dec_value(t, m.2, l.2 as nat);
        }
    } else {
        if l.0 == Pattern::FlowNode && p == Pattern::FlowEdge {
            assert(t[m.1] == ' ');
        } else if l.0 == Pattern::FlowEdge && p == Pattern::FlowNode {
            assert(!is_space(t[m.1]));
        }
        assert(entry_at(t, q, p) is None);
        lemma_between(t, p, q, e);
    }
}

/// The entries of kind `p` in the first `k` lines, which stand from `pos`
/// on.
spec fn spans_of(ls: Seq<(Pattern, u32, u32, Seq<char>)>, p: Pattern, pos: int, k: int) -> Seq<(int, int, int, int, int, int, int)>
    decreases k,
{
    if k <= 0 {
        seq![]
    } else if ls[k - 1].0 == p {
        spans_of(ls, p, pos, k - 1).push(line_span(ls[k - 1], pos + solution_text(ls, k - 1).len()))
    } else {
        spans_of(ls, p, pos, k - 1)
    }
}

proof fn lemma_lines(t: Seq<char>, pos: int, ls: Seq<(Pattern, u32, u32, Seq<char>)>, p: Pattern, k: int)
    requires
        0 <= k <= ls.len(),
        forall|q: int| 0 <= q < ls.len() ==> is_solution_line(#[trigger] ls[q]),
        stands_at(t, pos, solution_text(ls, k)),
        p != Pattern::Forced,
    ensures
        entries(t, pos, p) == spans_of(ls, p, pos, k) + entries(t, pos + solution_text(ls, k).len(), p),
        p != Pattern::FlowNode ==> spans_of(ls, p, pos, k).len() == edge_lines_of(ls, p, k).len(),
        p != Pattern::FlowNode ==> forall|j: int| 0 <= j < spans_of(ls, p, pos, k).len()
            ==> reads_edge(t, #[trigger] spans_of(ls, p, pos, k)[j], edge_lines_of(ls, p, k)[j]),
        p == Pattern::FlowNode ==> spans_of(ls, p, pos, k).len() == node_lines_of(ls, k).len(),
        p == Pattern::FlowNode ==> forall|j: int| 0 <= j < spans_of(ls, p, pos, k).len()
            ==> reads_node(t, #[trigger] spans_of(ls, p, pos, k)[j], node_lines_of(ls, k)[j]),
    decreases k,
{
    if k > 0 {
        let prev = solution_text(ls, k - 1);
        let line = solution_line(ls[k - 1]);
        let whole = solution_text(ls, k);
        assert(whole == prev + line);
        let q0 = pos + prev.len();
        assert(t.subrange(pos, q0) =~= prev) by {
            assert forall|j: int| 0 <= j < prev.len() implies t.subrange(pos, q0)[j] == prev[j] by {
                assert(t.subrange(pos, q0)[j] == t.subrange(pos, pos + whole.len())[j]);
            }
        }
        assert(t.subrange(q0, q0 + line.len()) =~= line) by {
            assert forall|j: int| 0 <= j < line.len() implies t.subrange(q0, q0 + line.len())[j] == line[j] by {
                assert(t.subrange(q0, q0 + line.len())[j] == t.subrange(pos, pos + whole.len())[prev.len() + j]);
            }
        }
        lemma_lines(t, pos, ls, p, k - 1);
        lemma_line(t, q0, ls[k - 1], p);
        let sp0 = spans_of(ls, p, pos, k - 1);
        let sp = spans_of(ls, p, pos, k);
        if ls[k - 1].0 == p {
            assert(sp == sp0.push(line_span(ls[k - 1], q0)));
            assert(entries(t, pos, p) =~= sp + entries(t, pos + whole.len(), p));
            if p != Pattern::FlowNode {
                let el = edge_lines_of(ls, p, k);
                assert(el == edge_lines_of(ls, p, k - 1).push((ls[k - 1].1, ls[k - 1].2, ls[k - 1].3)));
                assert forall|j: int| 0 <= j < sp.len() implies reads_edge(t, #[trigger] sp[j], el[j]) by {
                    if j < sp0.len() {
                        assert(sp[j] == sp0[j]);
                        assert(el[j] == edge_lines_of(ls, p, k - 1)[j]);
                    }
                }
            } else {
                let nl = node_lines_of(ls, k);
                assert(nl == node_lines_of(ls, k - 1).push((ls[k - 1].1, ls[k - 1].3)));
                assert forall|j: int| 0 <= j < sp.len() implies reads_node(t, #[trigger] sp[j], nl[j]) by {
                    if j < sp0.len() {
                        assert(sp[j] == sp0[j]);
                        assert(nl[j] == node_lines_of(ls, k - 1)[j]);
                    }
                }
            }
        } else {
            assert(sp == sp0);
            assert(entries(t, pos, p) == sp + entries(t, pos + whole.len(), p));
        }
    } else {
        assert(spans_of(ls, p, pos, k) + entries(t, pos, p) =~= entries(t, pos, p));
    }
}

/// The entries of kind `p` of a whole solution file.
proof fn lemma_kind(ls: Seq<(Pattern, u32, u32, Seq<char>)>, p: Pattern)
    requires
        forall|q: int| 0 <= q < ls.len() ==> is_solution_line(#[trigger] ls[q]),
        p != Pattern::Forced,
    ensures
        ({
            let t = solution_text(ls, ls.len() as int);
            let ms = entries(t, 0, p);
            &&& p != Pattern::FlowNode ==> edge_ids_ok(t, ms) && edge_entry_values(t, ms) == edge_lines_of(ls, p, ls.len() as int)
            &&& p == Pattern::FlowNode ==> node_ids_ok(t, ms) && node_entry_values(t, ms) == node_lines_of(ls, ls.len() as int)
        }),
{
    let k = ls.len() as int;
    let t = solution_text(ls, k);
    assert(t.subrange(0, t.len() as int) =~= t);
    lemma_lines(t, 0, ls, p, k);
    assert(entries(t, t.len() as int, p) == Seq::<(int, int, int, int, int, int, int)>::empty());
    let ms = entries(t, 0, p);
    let sp = spans_of(ls, p, 0, k);
    assert(ms =~= sp);
    if p != Pattern::FlowNode {
        let el = edge_lines_of(ls, p, k);
        assert forall|j: int| 0 <= j < ms.len() implies is_u32_text(t, #[trigger] ms[j].0, ms[j].1) && is_u32_text(t, ms[j].2, ms[j].3) by {
            assert(reads_edge(t, sp[j], el[j]));
        }
        assert forall|j: int| 0 <= j < ms.len() implies #[trigger] edge_entry_values(t, ms)[j] == el[j] by {
            assert(reads_edge(t, sp[j], el[j]));
        }
        assert(edge_entry_values(t, ms) =~= el);
    } else {
        let nl = node_lines_of(ls, k);
        assert forall|j: int| 0 <= j < ms.len() implies is_u32_text(t, #[trigger] ms[j].0, ms[j].1) by {
            assert(reads_node(t, sp[j], nl[j]));
        }
        assert forall|j: int| 0 <= j < ms.len() implies #[trigger] node_entry_values(t, ms)[j] == nl[j] by {
            assert(reads_node(t, sp[j], nl[j]));
        }
        assert(node_entry_values(t, ms) =~= nl);
    }
}

/// A solution file reads back as the lines it was written from: whatever
/// the vertex numbers (any `u32`) and the values, and in whatever order the
/// lines of the three kinds come, the reader of solution entries accepts
/// every vertex number and finds the `x_a_b` lines as cut entries `(a, b,
/// value)`, the `f_a_b` lines as flow entries `(a, b, value)` and the `f_v`
/// lines as vertex entries `(v, value)`, each in the order of the file,
/// and nothing else.
pub proof fn lemma_solution_reads_back(ls: Seq<(Pattern, u32, u32, Seq<char>)>)
    requires
        forall|q: int| 0 <= q < ls.len() ==> is_solution_line(#[trigger] ls[q]),
    ensures
        ({
            let t = solution_text(ls, ls.len() as int);
            let cs = entries(t, 0, Pattern::Cut);
            let fs = entries(t, 0, Pattern::FlowEdge);
            let ns = entries(t, 0, Pattern::FlowNode);
            &&& edge_ids_ok(t, cs) && edge_ids_ok(t, fs) && node_ids_ok(t, ns)
            &&& edge_entry_values(t, cs) == edge_lines_of(ls, Pattern::Cut, ls.len() as int)
            &&& edge_entry_values(t, fs) == edge_lines_of(ls, Pattern::FlowEdge, ls.len() as int)
            &&& node_entry_values(t, ns) == node_lines_of(ls, ls.len() as int)
        }),
{
    lemma_kind(ls, Pattern::Cut);
    lemma_kind(ls, Pattern::FlowEdge);
    lemma_kind(ls, Pattern::FlowNode);
}

} // verus!
