//! The entries of linear-program solution files and of enhancement files:
//! `x_a_b <value>`, `f_a_b <value>`, `f_v <value>` and `x_a_b = 0`.
use vstd::prelude::*;
use crate::grammar::{is_digit, is_space, skip_digits, lemma_skip_digits, skip_digits_at, space_char, digits_value,
    is_usize_text, is_u32_text, parse_usize_at, parse_u32_at, chars_of, chars_between};
use crate::lp::EdgeSet;

verus! {

/// A character of a number in a solution: a digit, `.`, `e`, `-` or `+`.
pub open spec fn is_value_char(c: char) -> bool {
    is_digit(c) || c == '.' || c == 'e' || c == '-' || c == '+'
}

/// The position just past the run of value characters that starts at `i`.
pub open spec fn skip_value(t: Seq<char>, i: int) -> int
    decreases t.len() - i,
{
    if 0 <= i < t.len() && is_value_char(t[i]) {
        skip_value(t, i + 1)
    } else {
        i
    }
}

pub proof fn lemma_skip_value(t: Seq<char>, i: int)
    requires
        0 <= i,
    ensures
        i <= skip_value(t, i),
        i <= t.len() ==> skip_value(t, i) <= t.len(),
        forall|j: int| i <= j < skip_value(t, i) ==> is_value_char(#[trigger] t[j]),
    decreases t.len() - i,
{
    if 0 <= i < t.len() && is_value_char(t[i]) {
        lemma_skip_value(t, i + 1);
    }
}

/// The kinds of entries.
#[derive(Debug, Clone, Copy, PartialEq, Eq, Structural)]
pub enum Pattern {
    /// `x_a_b = 0`: the cut of edge direction `a -> b` forced to 0.
    Forced,
    /// `x_a_b<space><value>`: the cut value of edge direction `a -> b`.
    Cut,
    /// `f_a_b<space><value>`: the flow over edge direction `a -> b`.
    FlowEdge,
    /// `f_v<space><value>`: the flow value of vertex `v`.
    FlowNode,
}

/// The two characters that open an entry of kind `p`.
pub open spec fn opening(p: Pattern) -> char {
    match p {
        Pattern::Forced => 'x',
        Pattern::Cut => 'x',
        Pattern::FlowEdge => 'f',
        Pattern::FlowNode => 'f',
    }
}

/// `t[i..]` starts with ` = 0`.
pub open spec fn is_eq_zero_at(t: Seq<char>, i: int) -> bool {
    0 <= i && i + 4 <= t.len() && t[i] == ' ' && t[i + 1] == '=' && t[i + 2] == ' ' && t[i + 3] == '0'
}

/// A space and a run of at least one value character from `i` on; the
/// value's span.
pub open spec fn value_after(t: Seq<char>, i: int) -> Option<(int, int)> {
    if 0 <= i < t.len() && is_space(t[i]) && skip_value(t, i + 1) > i + 1 {
        Some((i + 1, skip_value(t, i + 1)))
    } else {
        None
    }
}

/// Where an entry of kind `p` matches at `i`: the spans of the first
/// number, of the second number (empty for a vertex), of the value (empty
/// for a forced edge), and the position just past the match.
pub open spec fn entry_at(t: Seq<char>, i: int, p: Pattern) -> Option<(int, int, int, int, int, int, int)> {
    if 0 <= i && i + 1 < t.len() && t[i] == opening(p) && t[i + 1] == '_' && skip_digits(t, i + 2) > i + 2 {
        let a0 = i + 2;
        let a1 = skip_digits(t, a0);
        if p == Pattern::FlowNode {
            match value_after(t, a1) {
                Some((v0, v1)) => Some((a0, a1, a1, a1, v0, v1, v1)),
                None => None,
            }
        } else if a1 < t.len() && t[a1] == '_' && skip_digits(t, a1 + 1) > a1 + 1 {
            let b0 = a1 + 1;
            let b1 = skip_digits(t, b0);
            if p == Pattern::Forced {
                if is_eq_zero_at(t, b1) {
                    Some((a0, a1, b0, b1, b1, b1, b1 + 4))
                } else {
                    None
                }
            } else {
                match value_after(t, b1) {
                    Some((v0, v1)) => Some((a0, a1, b0, b1, v0, v1, v1)),
                    None => None,
                }
            }
        } else {
            None
        }
    } else {
        None
    }
}

/// A match whose spans lie in order in the text, with digits in both
/// number spans and value characters in the value span.
pub open spec fn entry_in_text(t: Seq<char>, i: int, m: (int, int, int, int, int, int, int)) -> bool {
    &&& i < m.0 <= m.1 <= m.2 <= m.3 <= m.4 <= m.5 <= m.6 <= t.len()
    &&& forall|j: int| m.0 <= j < m.1 ==> is_digit(#[trigger] t[j])
    &&& forall|j: int| m.2 <= j < m.3 ==> is_digit(#[trigger] t[j])
    &&& forall|j: int| m.4 <= j < m.5 ==> is_value_char(#[trigger] t[j])
}

pub proof fn lemma_entry_at(t: Seq<char>, i: int, p: Pattern)
    requires
        0 <= i,
        entry_at(t, i, p) is Some,
    ensures
        entry_in_text(t, i, entry_at(t, i, p)->0),
{
    lemma_skip_digits(t, i + 2);
    let a1 = skip_digits(t, i + 2);
    lemma_skip_digits(t, a1 + 1);
    lemma_skip_value(t, a1 + 1);
    let b1 = skip_digits(t, a1 + 1);
    lemma_skip_value(t, b1 + 1);
}

/// All entries of kind `p` from position `i` on, leftmost first, without
/// overlap.
pub open spec fn entries(t: Seq<char>, i: int, p: Pattern) -> Seq<(int, int, int, int, int, int, int)>
    decreases t.len() - i,
{
    if i < 0 || i >= t.len() {
        seq![]
    } else {
        match entry_at(t, i, p) {
            Some(m) => {
                proof {
                    lemma_entry_at(t, i, p);
                }
                seq![m] + entries(t, m.6, p)
            },
            None => entries(t, i + 1, p),
        }
    }
}

pub proof fn lemma_entries(t: Seq<char>, i: int, p: Pattern)
    ensures
        forall|q: int| 0 <= q < entries(t, i, p).len() ==> entry_in_text(t, i, #[trigger] entries(t, i, p)[q]),
    decreases t.len() - i,
{
    if i < 0 || i >= t.len() {
        assert(entries(t, i, p).len() == 0);
    } else {
        match entry_at(t, i, p) {
            Some(m) => {
                lemma_entry_at(t, i, p);
                lemma_entries(t, m.6, p);
                let rest = entries(t, m.6, p);
                assert(entries(t, i, p) == seq![m] + rest);
                assert forall|q: int| 0 <= q < entries(t, i, p).len() implies entry_in_text(t, i, #[trigger] entries(t, i, p)[q]) by {
                    if q > 0 {
                        assert(entries(t, i, p)[q] == rest[q - 1]);
                    }
                }
            },
            None => {
                lemma_entries(t, i + 1, p);
                assert(entries(t, i, p) == entries(t, i + 1, p));
            },
        }
    }
}

fn value_char(c: char) -> (r: bool)
    ensures
        r == is_value_char(c),
{
    let u = c as u32;
    (48 <= u && u <= 57) || c == '.' || c == 'e' || c == '-' || c == '+'
}

fn skip_value_at(t: &Vec<char>, i: usize) -> (r: usize)
    requires
        i <= t@.len(),
    ensures
        r == skip_value(t@, i as int),
{
    let mut j = i;
    while j < t.len() && value_char(t[j])
        invariant
            i <= j <= t@.len(),
            skip_value(t@, i as int) == skip_value(t@, j as int),
        decreases t@.len() - j,
    {
        j = j + 1;
    }
    j
}

fn match_value_after(t: &Vec<char>, i: usize) -> (r: Option<(usize, usize)>)
    requires
        i <= t@.len(),
    ensures
        r is Some <==> value_after(t@, i as int) is Some,
        r matches Some(v) ==> value_after(t@, i as int) == Some((v.0 as int, v.1 as int)),
{
    let n = t.len();
    if i < n && space_char(t[i]) {
        let v1 = skip_value_at(t, i + 1);
        if v1 > i + 1 {
            return Some((i + 1, v1));
        }
    }
    None
}

fn opening_char(p: Pattern) -> (c: char)
    ensures
        c == opening(p),
{
    match p {
        Pattern::Forced => 'x',
        Pattern::Cut => 'x',
        Pattern::FlowEdge => 'f',
        Pattern::FlowNode => 'f',
    }
}

fn match_entry_at(t: &Vec<char>, i: usize, p: Pattern) -> (r: Option<(usize, usize, usize, usize, usize, usize, usize)>)
    requires
        i < t@.len(),
    ensures
        r is Some <==> entry_at(t@, i as int, p) is Some,
        r matches Some(m) ==> entry_at(t@, i as int, p) == Some(
            (m.0 as int, m.1 as int, m.2 as int, m.3 as int, m.4 as int, m.5 as int, m.6 as int),
        ),
{
    let n = t.len();
    if !(i + 1 < n && t[i] == opening_char(p) && t[i + 1] == '_') {
        return None;
    }
    proof {
        lemma_skip_digits(t@, i + 2);
    }
    let a0 = i + 2;
    let a1 = skip_digits_at(t, a0);
    if a1 <= a0 {
        return None;
    }
    if p == Pattern::FlowNode {
        return match match_value_after(t, a1) {
            Some((v0, v1)) => Some((a0, a1, a1, a1, v0, v1, v1)),
            None => None,
        };
    }
    if !(a1 < n && t[a1] == '_') {
        return None;
    }
    proof {
        lemma_skip_digits(t@, a1 + 1);
    }
    let b0 = a1 + 1;
    let b1 = skip_digits_at(t, b0);
    if b1 <= b0 {
        return None;
    }
    if p == Pattern::Forced {
        if b1 <= n && n - b1 >= 4 && t[b1] == ' ' && t[b1 + 1] == '=' && t[b1 + 2] == ' ' && t[b1 + 3] == '0' {
            return Some((a0, a1, b0, b1, b1, b1, b1 + 4));
        }
        return None;
    }
    match match_value_after(t, b1) {
        Some((v0, v1)) => Some((a0, a1, b0, b1, v0, v1, v1)),
        None => None,
    }
}

/// The spans of a match, as integers.
pub open spec fn spans(m: (usize, usize, usize, usize, usize, usize, usize)) -> (int, int, int, int, int, int, int) {
    (m.0 as int, m.1 as int, m.2 as int, m.3 as int, m.4 as int, m.5 as int, m.6 as int)
}

/// All entries of kind `p` in the text.
pub fn find_entries(t: &Vec<char>, p: Pattern) -> (ms: Vec<(usize, usize, usize, usize, usize, usize, usize)>)
    ensures
        ms@.map_values(|m: (usize, usize, usize, usize, usize, usize, usize)| spans(m)) == entries(t@, 0, p),
        forall|q: int| 0 <= q < ms@.len() ==> entry_in_text(t@, 0, spans(#[trigger] ms@[q])),
{
    let mut ms: Vec<(usize, usize, usize, usize, usize, usize, usize)> = Vec::new();
    let mut i: usize = 0;
    while i < t.len()
        invariant
            i <= t@.len(),
            ms@.map_values(|m: (usize, usize, usize, usize, usize, usize, usize)| spans(m)) + entries(t@, i as int, p)
                == entries(t@, 0, p),
        decreases t@.len() - i,
    {
        let ghost old_ms = ms@;
        match match_entry_at(t, i, p) {
            Some(m) => {
                proof {
                    lemma_entry_at(t@, i as int, p);
                }
                ms.push(m);
                assert(ms@.map_values(|m: (usize, usize, usize, usize, usize, usize, usize)| spans(m))
                    =~= old_ms.map_values(|m: (usize, usize, usize, usize, usize, usize, usize)| spans(m)) + seq![spans(m)]);
                i = m.6;
            },
            None => {
                i = i + 1;
            },
        }
    }
    proof {
        lemma_entries(t@, 0, p);
        assert forall|q: int| 0 <= q < ms@.len() implies entry_in_text(t@, 0, spans(#[trigger] ms@[q])) by {
            assert(spans(ms@[q]) == ms@.map_values(|m: (usize, usize, usize, usize, usize, usize, usize)| spans(m))[q]);
        }
    }
    ms
}

/// A number in an entry did not fit its type.
#[derive(Debug, Clone, Copy, PartialEq, Eq)]
pub enum EntryError {
    /// A vertex number is out of range.
    BadVertexNumber,
}

/// Both vertex numbers of every forced entry are `usize` texts.
pub open spec fn forced_numbers_ok(t: Seq<char>, ms: Seq<(int, int, int, int, int, int, int)>) -> bool {
    forall|j: int| 0 <= j < ms.len() ==> is_usize_text(t, #[trigger] ms[j].0, ms[j].1) && is_usize_text(t, ms[j].2, ms[j].3)
}

/// For each of the first `k` forced entries `x_a_b = 0`: `(a, b)` and then
/// `(b, a)`.
pub open spec fn forced_pairs(t: Seq<char>, ms: Seq<(int, int, int, int, int, int, int)>, k: int) -> Seq<(usize, usize)>
    decreases k,
{
    if k <= 0 {
        seq![]
    } else {
        let m = ms[k - 1];
        let a = digits_value(t, m.0, m.1) as usize;
        let b = digits_value(t, m.2, m.3) as usize;
        forced_pairs(t, ms, k - 1) + seq![(a, b), (b, a)]
    }
}

/// `order` after inserting each pair of `ps` in turn, where a pair that is
/// already present keeps its place.
pub open spec fn insert_all(order: Seq<(usize, usize)>, ps: Seq<(usize, usize)>) -> Seq<(usize, usize)>
    decreases ps.len(),
{
    if ps.len() == 0 {
        order
    } else {
        let before = insert_all(order, ps.drop_last());
        if before.contains(ps.last()) {
            before
        } else {
            before.push(ps.last())
        }
    }
}

/// Reads the forced edges of an enhancement text: every `x_a_b = 0` adds
/// `(a, b)` and `(b, a)` to `edges`.  A vertex number that does not fit in
/// a `usize` is refused, and `edges` is then left as it was.
pub fn update_edges(contents: &str, edges: &mut EdgeSet) -> (r: Result<(), EntryError>)
    ensures
        ({
            let ms = entries(contents@, 0, Pattern::Forced);
            let ps = forced_pairs(contents@, ms, ms.len() as int);
            &&& r is Ok <==> forced_numbers_ok(contents@, ms)
            &&& r is Ok ==> final(edges)@ == old(edges)@ + ps.to_set()
            &&& r is Ok ==> final(edges).order() == insert_all(old(edges).order(), ps)
            &&& r is Err ==> final(edges)@ == old(edges)@ && final(edges).order() == old(edges).order()
        }),
{
    let t = chars_of(contents);
    let ms = find_entries(&t, Pattern::Forced);
    let ghost sms = entries(t@, 0, Pattern::Forced);
    let mut pairs: Vec<(usize, usize)> = Vec::new();
    let mut j: usize = 0;
    while j < ms.len()
        invariant
            j <= ms@.len() == sms.len(),
            t@ == contents@,
            sms == ms@.map_values(|m: (usize, usize, usize, usize, usize, usize, usize)| spans(m)),
            sms == entries(t@, 0, Pattern::Forced),
            forall|q: int| 0 <= q < ms@.len() ==> entry_in_text(t@, 0, spans(#[trigger] ms@[q])),
            forced_numbers_ok(t@, sms.take(j as int)),
            pairs@ == forced_pairs(t@, sms, j as int),
            edges@ == old(edges)@,
            edges.order() == old(edges).order(),
        decreases ms@.len() - j,
    {
        let m = ms[j];
        assert(spans(m) == sms[j as int]);
        assert(entry_in_text(t@, 0, spans(m)));
        let a = parse_usize_at(&t, m.0, m.1);
        let b = parse_usize_at(&t, m.2, m.3);
        match (a, b) {
            (Some(a), Some(b)) => {
                pairs.push((a, b));
                pairs.push((b, a));
                assert(sms.take(j + 1) =~= sms.take(j as int).push(sms[j as int]));
                assert(pairs@ =~= forced_pairs(t@, sms, j + 1));
            },
            _ => {
                assert(!forced_numbers_ok(t@, sms));
                assert(!forced_numbers_ok(contents@, entries(contents@, 0, Pattern::Forced)));
                return Err(EntryError::BadVertexNumber);
            },
        }
        j = j + 1;
    }
    assert(sms.take(sms.len() as int) =~= sms);
    let ghost start_set = edges@;
    let ghost start_order = edges.order();
    let mut k: usize = 0;
    while k < pairs.len()
        invariant
            k <= pairs@.len(),
            edges@ == start_set + pairs@.take(k as int).to_set(),
            edges.order() == insert_all(start_order, pairs@.take(k as int)),
        decreases pairs@.len() - k,
    {
        edges.insert(pairs[k]);
        proof {
            let pk = pairs@.take(k + 1);
            assert(pk.drop_last() =~= pairs@.take(k as int));
            assert(pk.last() == pairs@[k as int]);
            assert(pk.to_set() =~= pairs@.take(k as int).to_set().insert(pairs@[k as int])) by {
                assert forall|x: (usize, usize)| pk.contains(x) <==> pairs@.take(k as int).contains(x) || x == pairs@[k as int] by {
                    vstd::seq_lib::lemma_seq_contains_after_push(pairs@.take(k as int), pairs@[k as int], x);
                    assert(pk =~= pairs@.take(k as int).push(pairs@[k as int]));
                }
            }
        }
        k = k + 1;
    }
    assert(pairs@.take(pairs@.len() as int) =~= pairs@);
    Ok(())
}

/// Both vertex numbers of every entry are `u32` texts.
pub open spec fn edge_ids_ok(t: Seq<char>, ms: Seq<(int, int, int, int, int, int, int)>) -> bool {
    forall|j: int| 0 <= j < ms.len() ==> is_u32_text(t, #[trigger] ms[j].0, ms[j].1) && is_u32_text(t, ms[j].2, ms[j].3)
}

/// The vertex number of every entry is a `u32` text.
pub open spec fn node_ids_ok(t: Seq<char>, ms: Seq<(int, int, int, int, int, int, int)>) -> bool {
    forall|j: int| 0 <= j < ms.len() ==> is_u32_text(t, #[trigger] ms[j].0, ms[j].1)
}

/// What each edge entry says: its two vertices and the text of its value.
pub open spec fn edge_entry_values(t: Seq<char>, ms: Seq<(int, int, int, int, int, int, int)>) -> Seq<(u32, u32, Seq<char>)> {
    ms.map_values(|m: (int, int, int, int, int, int, int)|
        (digits_value(t, m.0, m.1) as u32, digits_value(t, m.2, m.3) as u32, t.subrange(m.4, m.5)))
}

/// What each vertex entry says: its vertex and the text of its value.
pub open spec fn node_entry_values(t: Seq<char>, ms: Seq<(int, int, int, int, int, int, int)>) -> Seq<(u32, Seq<char>)> {
    ms.map_values(|m: (int, int, int, int, int, int, int)| (digits_value(t, m.0, m.1) as u32, t.subrange(m.4, m.5)))
}

/// An edge entry with the characters of its value.
pub open spec fn edge_entry_view(e: (u32, u32, Vec<char>)) -> (u32, u32, Seq<char>) {
    (e.0, e.1, e.2@)
}

/// A vertex entry with the characters of its value.
pub open spec fn node_entry_view(e: (u32, Vec<char>)) -> (u32, Seq<char>) {
    (e.0, e.1@)
}

/// The entries of a solution text, each with the text of its value.
pub struct SolutionEntries {
    /// `x_a_b <value>`: cut values of edge directions.
    pub cuts: Vec<(u32, u32, Vec<char>)>,
    /// `f_a_b <value>`: flows over edge directions.
    pub flows: Vec<(u32, u32, Vec<char>)>,
    /// `f_v <value>`: flow values of vertices.
    pub nodes: Vec<(u32, Vec<char>)>,
}

fn edge_entries_of(t: &Vec<char>, ms: &Vec<(usize, usize, usize, usize, usize, usize, usize)>) -> (r: Option<Vec<(u32, u32, Vec<char>)>>)
    requires
        forall|q: int| 0 <= q < ms@.len() ==> entry_in_text(t@, 0, spans(#[trigger] ms@[q])),
    ensures
        ({
            let sms = ms@.map_values(|m: (usize, usize, usize, usize, usize, usize, usize)| spans(m));
            &&& r is Some <==> edge_ids_ok(t@, sms)
            &&& r matches Some(v) ==> v@.map_values(|e: (u32, u32, Vec<char>)| edge_entry_view(e)) == edge_entry_values(t@, sms)
        }),
{
    let ghost sms = ms@.map_values(|m: (usize, usize, usize, usize, usize, usize, usize)| spans(m));
    let mut out: Vec<(u32, u32, Vec<char>)> = Vec::new();
    let mut j: usize = 0;
    while j < ms.len()
        invariant
            j <= ms@.len() == sms.len(),
            sms == ms@.map_values(|m: (usize, usize, usize, usize, usize, usize, usize)| spans(m)),
            forall|q: int| 0 <= q < ms@.len() ==> entry_in_text(t@, 0, spans(#[trigger] ms@[q])),
            edge_ids_ok(t@, sms.take(j as int)),
            out@.len() == j,
            out@.map_values(|e: (u32, u32, Vec<char>)| edge_entry_view(e)) == edge_entry_values(t@, sms.take(j as int)),
        decreases ms@.len() - j,
    {
        let m = ms[j];
        assert(spans(m) == sms[j as int]);
        assert(entry_in_text(t@, 0, spans(m)));
        let a = parse_u32_at(t, m.0, m.1);
        let b = parse_u32_at(t, m.2, m.3);
        match (a, b) {
            (Some(a), Some(b)) => {
                let v = chars_between(t, m.4, m.5);
                let ghost before = out@;
                out.push((a, b, v));
                proof {
                    assert(sms.take(j + 1) =~= sms.take(j as int).push(sms[j as int]));
                    let lhs = out@.map_values(|e: (u32, u32, Vec<char>)| edge_entry_view(e));
                    let rhs = edge_entry_values(t@, sms.take(j + 1));
                    assert(lhs.len() == rhs.len());
                    assert forall|q: int| 0 <= q < lhs.len() implies lhs[q] == rhs[q] by {
                        if q < j {
                            assert(lhs[q] == before.map_values(|e: (u32, u32, Vec<char>)| edge_entry_view(e))[q]);
                            assert(rhs[q] == edge_entry_values(t@, sms.take(j as int))[q]);
                        } else {
                            assert(lhs[q] == edge_entry_view((a, b, v)));
                            assert(rhs[q] == (digits_value(t@, sms[j as int].0, sms[j as int].1) as u32,
                                digits_value(t@, sms[j as int].2, sms[j as int].3) as u32,
                                t@.subrange(sms[j as int].4, sms[j as int].5)));
                        }
                    }
                    assert(lhs =~= rhs);
                }
            },
            _ => {
                return None;
            },
        }
        j = j + 1;
    }
    assert(sms.take(sms.len() as int) =~= sms);
    Some(out)
}

fn node_entries_of(t: &Vec<char>, ms: &Vec<(usize, usize, usize, usize, usize, usize, usize)>) -> (r: Option<Vec<(u32, Vec<char>)>>)
    requires
        forall|q: int| 0 <= q < ms@.len() ==> entry_in_text(t@, 0, spans(#[trigger] ms@[q])),
    ensures
        ({
            let sms = ms@.map_values(|m: (usize, usize, usize, usize, usize, usize, usize)| spans(m));
            &&& r is Some <==> node_ids_ok(t@, sms)
            &&& r matches Some(v) ==> v@.map_values(|e: (u32, Vec<char>)| node_entry_view(e)) == node_entry_values(t@, sms)
        }),
{
    let ghost sms = ms@.map_values(|m: (usize, usize, usize, usize, usize, usize, usize)| spans(m));
    let mut out: Vec<(u32, Vec<char>)> = Vec::new();
    let mut j: usize = 0;
    while j < ms.len()
        invariant
            j <= ms@.len() == sms.len(),
            sms == ms@.map_values(|m: (usize, usize, usize, usize, usize, usize, usize)| spans(m)),
            forall|q: int| 0 <= q < ms@.len() ==> entry_in_text(t@, 0, spans(#[trigger] ms@[q])),
            node_ids_ok(t@, sms.take(j as int)),
            out@.len() == j,
            out@.map_values(|e: (u32, Vec<char>)| node_entry_view(e)) == node_entry_values(t@, sms.take(j as int)),
        decreases ms@.len() - j,
    {
        let m = ms[j];
        assert(spans(m) == sms[j as int]);
        assert(entry_in_text(t@, 0, spans(m)));
        match parse_u32_at(t, m.0, m.1) {
            Some(a) => {
                let v = chars_between(t, m.4, m.5);
                let ghost before = out@;
                out.push((a, v));
                proof {
                    assert(sms.take(j + 1) =~= sms.take(j as int).push(sms[j as int]));
                    let lhs = out@.map_values(|e: (u32, Vec<char>)| node_entry_view(e));
                    let rhs = node_entry_values(t@, sms.take(j + 1));
                    assert(lhs.len() == rhs.len());
                    assert forall|q: int| 0 <= q < lhs.len() implies lhs[q] == rhs[q] by {
                        if q < j {
                            assert(lhs[q] == before.map_values(|e: (u32, Vec<char>)| node_entry_view(e))[q]);
                            assert(rhs[q] == node_entry_values(t@, sms.take(j as int))[q]);
                        } else {
                            assert(lhs[q] == node_entry_view((a, v)));
                            assert(rhs[q] == (digits_value(t@, sms[j as int].0, sms[j as int].1) as u32,
                                t@.subrange(sms[j as int].4, sms[j as int].5)));
                        }
                    }
                    assert(lhs =~= rhs);
                }
            },
            None => {
                return None;
            },
        }
        j = j + 1;
    }
    assert(sms.take(sms.len() as int) =~= sms);
    Some(out)
}

/// Reads the entries of a solution text: every `x_a_b <value>` (a cut
/// value), every `f_a_b <value>` (an edge flow) and every `f_v <value>`
/// (a vertex flow), each in the order of the text, with the characters of
/// its value.  A vertex number that does not fit in a `u32` is refused.
pub fn solution_entries(contents: &str) -> (r: Result<SolutionEntries, EntryError>)
    ensures
        ({
            let cs = entries(contents@, 0, Pattern::Cut);
            let fs = entries(contents@, 0, Pattern::FlowEdge);
            let ns = entries(contents@, 0, Pattern::FlowNode);
            &&& r is Ok <==> edge_ids_ok(contents@, cs) && edge_ids_ok(contents@, fs) && node_ids_ok(contents@, ns)
            &&& r matches Ok(e) ==> {
                &&& e.cuts@.map_values(|e: (u32, u32, Vec<char>)| edge_entry_view(e)) == edge_entry_values(contents@, cs)
                &&& e.flows@.map_values(|e: (u32, u32, Vec<char>)| edge_entry_view(e)) == edge_entry_values(contents@, fs)
                &&& e.nodes@.map_values(|e: (u32, Vec<char>)| node_entry_view(e)) == node_entry_values(contents@, ns)
            }
        }),
{
    let t = chars_of(contents);
    let cm = find_entries(&t, Pattern::Cut);
    let fm = find_entries(&t, Pattern::FlowEdge);
    let nm = find_entries(&t, Pattern::FlowNode);
    let cuts = edge_entries_of(&t, &cm);
    let flows = edge_entries_of(&t, &fm);
    let nodes = node_entries_of(&t, &nm);
    match (cuts, flows, nodes) {
        (Some(cuts), Some(flows), Some(nodes)) => Ok(SolutionEntries { cuts, flows, nodes }),
        _ => Err(EntryError::BadVertexNumber),
    }
}

/// Every pair of the set comes with its reverse.
pub open spec fn is_symmetric(set: Set<(usize, usize)>) -> bool {
    forall|e: (usize, usize)| #[trigger] set.contains(e) ==> set.contains((e.1, e.0))
}

proof fn lemma_forced_pairs_symmetric(t: Seq<char>, ms: Seq<(int, int, int, int, int, int, int)>, k: int)
    requires
        0 <= k <= ms.len(),
    ensures
        is_symmetric(forced_pairs(t, ms, k).to_set()),
    decreases k,
{
    if k > 0 {
        lemma_forced_pairs_symmetric(t, ms, k - 1);
        let prev = forced_pairs(t, ms, k - 1);
        let cur = forced_pairs(t, ms, k);
        let m = ms[k - 1];
        let a = digits_value(t, m.0, m.1) as usize;
        let b = digits_value(t, m.2, m.3) as usize;
        assert(cur == prev + seq![(a, b), (b, a)]);
        assert forall|e: (usize, usize)| #[trigger] cur.to_set().contains(e) implies cur.to_set().contains((e.1, e.0)) by {
            let q = choose|q: int| 0 <= q < cur.len() && cur[q] == e;
            if q < prev.len() {
                assert(prev[q] == e);
                assert(prev.to_set().contains(e));
                assert(prev.to_set().contains((e.1, e.0)));
                let r = choose|r: int| 0 <= r < prev.len() && prev[r] == (e.1, e.0);
                assert(cur[r] == (e.1, e.0));
            } else if q == prev.len() {
                assert(cur[q + 1] == (e.1, e.0));
            } else {
                assert(cur[q - 1] == (e.1, e.0));
            }
        }
    }
}

/// Reading forced edges keeps a symmetric set symmetric: every forced
/// edge comes in both directions.
pub proof fn lemma_update_edges_symmetric(old_set: Set<(usize, usize)>, contents: Seq<char>)
    requires
        is_symmetric(old_set),
    ensures
        is_symmetric(old_set + forced_pairs(contents, entries(contents, 0, Pattern::Forced),
            entries(contents, 0, Pattern::Forced).len() as int).to_set()),
{
    let ms = entries(contents, 0, Pattern::Forced);
    let ps = forced_pairs(contents, ms, ms.len() as int).to_set();
    lemma_forced_pairs_symmetric(contents, ms, ms.len() as int);
    assert forall|e: (usize, usize)| #[trigger] (old_set + ps).contains(e) implies (old_set + ps).contains((e.1, e.0)) by {
        if old_set.contains(e) {
            assert(old_set.contains((e.1, e.0)));
        } else {
            assert(ps.contains(e));
            assert(ps.contains((e.1, e.0)));
        }
    }
}

} // verus!
