//! The small grammar shared by the instance and solution file formats:
//! runs of white space and of decimal digits, and decimal values.
use vstd::prelude::*;

verus! {

/// A Unicode white-space character (the `White_Space` property).
pub open spec fn is_space(c: char) -> bool {
    let u = c as u32;
    ||| 0x09 <= u <= 0x0d
    ||| u == 0x20
    ||| u == 0x85
    ||| u == 0xa0
    ||| u == 0x1680
    ||| 0x2000 <= u <= 0x200a
    ||| u == 0x2028
    ||| u == 0x2029
    ||| u == 0x202f
    ||| u == 0x205f
    ||| u == 0x3000
}

/// An ASCII decimal digit.
pub open spec fn is_digit(c: char) -> bool {
    '0' as u32 <= c as u32 <= '9' as u32
}

/// The position just past the run of white space that starts at `i`.
pub open spec fn skip_spaces(t: Seq<char>, i: int) -> int
    decreases t.len() - i,
{
    if 0 <= i < t.len() && is_space(t[i]) {
        skip_spaces(t, i + 1)
    } else {
        i
    }
}

/// The position just past the run of digits that starts at `i`.
pub open spec fn skip_digits(t: Seq<char>, i: int) -> int
    decreases t.len() - i,
{
    if 0 <= i < t.len() && is_digit(t[i]) {
        skip_digits(t, i + 1)
    } else {
        i
    }
}

/// The value of the digit character `c`.
pub open spec fn digit_value(c: char) -> nat {
    (c as u32 - '0' as u32) as nat
}

/// The decimal value of the digits `t[a..b]`.
pub open spec fn digits_value(t: Seq<char>, a: int, b: int) -> nat
    decreases b - a,
{
    if b <= a {
        0
    } else {
        digits_value(t, a, b - 1) * 10 + digit_value(t[b - 1])
    }
}

/// `t[a..b]` is the text of a `u32`: at least one digit, and in range.
pub open spec fn is_u32_text(t: Seq<char>, a: int, b: int) -> bool {
    a < b && digits_value(t, a, b) <= u32::MAX
}

pub proof fn lemma_skip_spaces(t: Seq<char>, i: int)
    requires
        0 <= i,
    ensures
        i <= skip_spaces(t, i),
        i <= t.len() ==> skip_spaces(t, i) <= t.len(),
        forall|j: int| i <= j < skip_spaces(t, i) ==> is_space(#[trigger] t[j]),
        skip_spaces(t, i) < t.len() ==> !is_space(t[skip_spaces(t, i)]),
    decreases t.len() - i,
{
    if 0 <= i < t.len() && is_space(t[i]) {
        lemma_skip_spaces(t, i + 1);
    }
}

pub proof fn lemma_skip_digits(t: Seq<char>, i: int)
    requires
        0 <= i,
    ensures
        i <= skip_digits(t, i),
        i <= t.len() ==> skip_digits(t, i) <= t.len(),
        forall|j: int| i <= j < skip_digits(t, i) ==> is_digit(#[trigger] t[j]),
        skip_digits(t, i) < t.len() ==> !is_digit(t[skip_digits(t, i)]),
    decreases t.len() - i,
{
    if 0 <= i < t.len() && is_digit(t[i]) {
        lemma_skip_digits(t, i + 1);
    }
}

/// A longer run of digits is worth at least as much.
pub proof fn lemma_digits_value_mono(t: Seq<char>, a: int, k: int, b: int)
    requires
        a <= k <= b,
    ensures
        digits_value(t, a, k) <= digits_value(t, a, b),
    decreases b - k,
{
    if k < b {
        lemma_digits_value_mono(t, a, k, b - 1);
    }
}

/// The characters of a string, one by one.
pub fn chars_of(s: &str) -> (v: Vec<char>)
    ensures
        v@ == s@,
{
    let mut v: Vec<char> = Vec::new();
    for c in it: s.chars()
        invariant
            v@ == it.seq().take(it.index() as int),
    {
        v.push(c);
    }
    v
}

/// Exec form of `is_space`.
pub fn space_char(c: char) -> (r: bool)
    ensures
        r == is_space(c),
{
    let u = c as u32;
    (0x09 <= u && u <= 0x0d) || u == 0x20 || u == 0x85 || u == 0xa0 || u == 0x1680
        || (0x2000 <= u && u <= 0x200a) || u == 0x2028 || u == 0x2029 || u == 0x202f
        || u == 0x205f || u == 0x3000
}

/// Exec form of `is_digit`.
pub fn digit_char_test(c: char) -> (r: bool)
    ensures
        r == is_digit(c),
{
    let u = c as u32;
    48 <= u && u <= 57
}

/// Exec form of `skip_spaces`.
pub fn skip_spaces_at(t: &Vec<char>, i: usize) -> (r: usize)
    requires
        i <= t@.len(),
    ensures
        r == skip_spaces(t@, i as int),
{
    let mut j = i;
    while j < t.len() && space_char(t[j])
        invariant
            i <= j <= t@.len(),
            skip_spaces(t@, i as int) == skip_spaces(t@, j as int),
        decreases t@.len() - j,
    {
        j = j + 1;
    }
    j
}

/// Exec form of `skip_digits`.
pub fn skip_digits_at(t: &Vec<char>, i: usize) -> (r: usize)
    requires
        i <= t@.len(),
    ensures
        r == skip_digits(t@, i as int),
{
    let mut j = i;
    while j < t.len() && digit_char_test(t[j])
        invariant
            i <= j <= t@.len(),
            skip_digits(t@, i as int) == skip_digits(t@, j as int),
        decreases t@.len() - j,
    {
        j = j + 1;
    }
    j
}

/// The value of the digits `t[a..b]` when they are the text of a `u32`.
pub fn parse_u32_at(t: &Vec<char>, a: usize, b: usize) -> (r: Option<u32>)
    requires
        a <= b <= t@.len(),
        forall|j: int| a <= j < b ==> is_digit(#[trigger] t@[j]),
    ensures
        r is Some <==> is_u32_text(t@, a as int, b as int),
        r matches Some(v) ==> v == digits_value(t@, a as int, b as int),
{
    if a == b {
        return None;
    }
    let mut acc: u64 = 0;
    let mut k = a;
    while k < b
        invariant
            a <= k <= b <= t@.len(),
            forall|j: int| a <= j < b ==> is_digit(#[trigger] t@[j]),
            acc == digits_value(t@, a as int, k as int),
            acc <= u32::MAX,
        decreases b - k,
    {
        let d = (t[k] as u32 - 48) as u64;
        assert(is_digit(t@[k as int]));
        let next = acc * 10 + d;
        assert(next == digits_value(t@, a as int, k + 1));
        if next > 0xffff_ffff {
            proof {
                lemma_digits_value_mono(t@, a as int, k + 1, b as int);
            }
            return None;
        }
        acc = next;
        k = k + 1;
    }
    Some(acc as u32)
}

/// `t[a..b]` is the text of a `usize`: at least one digit, and in range.
pub open spec fn is_usize_text(t: Seq<char>, a: int, b: int) -> bool {
    a < b && digits_value(t, a, b) <= usize::MAX
}

/// The value of the digits `t[a..b]` when they are the text of a `usize`.
pub fn parse_usize_at(t: &Vec<char>, a: usize, b: usize) -> (r: Option<usize>)
    requires
        a <= b <= t@.len(),
        forall|j: int| a <= j < b ==> is_digit(#[trigger] t@[j]),
    ensures
        r is Some <==> is_usize_text(t@, a as int, b as int),
        r matches Some(v) ==> v == digits_value(t@, a as int, b as int),
{
    if a == b {
        return None;
    }
    let mut acc: usize = 0;
    let mut k = a;
    while k < b
        invariant
            a <= k <= b <= t@.len(),
            forall|j: int| a <= j < b ==> is_digit(#[trigger] t@[j]),
            acc == digits_value(t@, a as int, k as int),
        decreases b - k,
    {
        let d = (t[k] as u32 - 48) as usize;
        assert(is_digit(t@[k as int]));
        assert(acc * 10 + d == digits_value(t@, a as int, k + 1));
        if acc > (usize::MAX - d) / 10 {
            proof {
                assert(acc * 10 + d > usize::MAX) by (nonlinear_arith)
                    requires
                        acc > (usize::MAX - d) / 10,
                        d <= 9,
                ;
                lemma_digits_value_mono(t@, a as int, k + 1, b as int);
            }
            return None;
        }
        proof {
            assert(acc * 10 + d <= usize::MAX) by (nonlinear_arith)
                requires
                    acc <= (usize::MAX - d) / 10,
                    d <= 9,
            ;
        }
        acc = acc * 10 + d;
        k = k + 1;
    }
    Some(acc)
}

/// The characters `t[a..b]`.
pub fn chars_between(t: &Vec<char>, a: usize, b: usize) -> (v: Vec<char>)
    requires
        a <= b <= t@.len(),
    ensures
        v@ == t@.subrange(a as int, b as int),
{
    let mut v: Vec<char> = Vec::new();
    let mut k = a;
    while k < b
        invariant
            a <= k <= b <= t@.len(),
            v@ == t@.subrange(a as int, k as int),
        decreases b - k,
    {
        v.push(t[k]);
        assert(v@ =~= t@.subrange(a as int, k + 1));
        k = k + 1;
    }
    v
}

} // verus!
