//! The size normalizer: a byte count from a number or from a string such as
//! `894.3G`.
use vstd::prelude::*;
use vstd::arithmetic::div_mod::{
    lemma_div_denominator,
    lemma_fundamental_div_mod,
    lemma_hoist_over_denominator,
    lemma_multiply_divide_lt,
};
use crate::text::chars_of;

verus! {

/// The ASCII upper-case form of `c`; every other character is unchanged.
pub open spec fn ascii_upper(c: char) -> char {
    if 'a' <= c && c <= 'z' {
        ((c as u32 - 32) as u8) as char
    } else {
        c
    }
}

/// The ASCII lower-case form of `c`; every other character is unchanged.
pub open spec fn ascii_lower(c: char) -> char {
    if 'A' <= c && c <= 'Z' {
        ((c as u32 + 32) as u8) as char
    } else {
        c
    }
}

pub open spec fn upper_all(s: Seq<char>) -> Seq<char> {
    s.map_values(|c: char| ascii_upper(c))
}

pub open spec fn lower_all(s: Seq<char>) -> Seq<char> {
    s.map_values(|c: char| ascii_lower(c))
}

pub open spec fn is_space(c: char) -> bool {
    c == ' ' || c == '\t' || c == '\n' || c == '\r' || c == '\x0C'
}

pub open spec fn is_digit(c: char) -> bool {
    '0' <= c && c <= '9'
}

pub open spec fn digit_value(c: char) -> nat {
    (c as u32 - '0' as u32) as nat
}

/// The characters that a scan may run over.
#[derive(Clone, Copy, PartialEq, Eq, Structural)]
pub enum CharClass {
    Space,
    Digit,
    /// A digit or a decimal point.
    Numeric,
}

pub open spec fn in_class(c: char, k: CharClass) -> bool {
    match k {
        CharClass::Space => is_space(c),
        CharClass::Digit => is_digit(c),
        CharClass::Numeric => is_digit(c) || c == '.',
    }
}

/// The length of the longest prefix of `s` made of characters of class `k`.
pub open spec fn span(s: Seq<char>, k: CharClass) -> nat
    decreases s.len(),
{
    if s.len() > 0 && in_class(s[0], k) {
        1 + span(s.subrange(1, s.len() as int), k)
    } else {
        0
    }
}

/// The number of white-space characters at the end of `s`.
pub open spec fn trailing_space(s: Seq<char>) -> nat
    decreases s.len(),
{
    if s.len() > 0 && is_space(s.last()) {
        1 + trailing_space(s.drop_last())
    } else {
        0
    }
}

/// `s` without the white space around it.
pub open spec fn trim(s: Seq<char>) -> Seq<char> {
    let a = s.skip(span(s, CharClass::Space) as int);
    a.take(a.len() - trailing_space(a))
}

pub open spec fn all_digits(s: Seq<char>) -> bool {
    forall|i: int| 0 <= i < s.len() ==> is_digit(#[trigger] s[i])
}

/// The number that a string of decimal digits denotes.
pub open spec fn digits_value(s: Seq<char>) -> nat
    decreases s.len(),
{
    if s.len() == 0 {
        0
    } else {
        digits_value(s.drop_last()) * 10 + digit_value(s.last())
    }
}

pub open spec fn pow10(k: nat) -> nat
    decreases k,
{
    if k == 0 {
        1
    } else {
        10 * pow10((k - 1) as nat)
    }
}

/// A plain non-negative decimal number (`12`, `894.3`, `5.`, `.5`): digits, at
/// most one decimal point, and at least one digit. The parts are the digits
/// before and after the point.
pub open spec fn decimal_parts(n: Seq<char>) -> Option<(Seq<char>, Seq<char>)> {
    let w = span(n, CharClass::Digit);
    let rest = n.skip(w as int);
    if rest.len() == 0 {
        if w > 0 {
            Some((n, Seq::empty()))
        } else {
            None
        }
    } else if rest[0] == '.' && all_digits(rest.skip(1)) && n.len() > 1 {
        Some((n.take(w as int), rest.skip(1)))
    } else {
        None
    }
}

/// The power of 1024 that a unit prefix letter stands for.
pub open spec fn prefix_power(c: char) -> Option<nat> {
    if c == 'K' {
        Some(1)
    } else if c == 'M' {
        Some(2)
    } else if c == 'G' {
        Some(3)
    } else if c == 'T' {
        Some(4)
    } else if c == 'P' {
        Some(5)
    } else {
        None
    }
}

/// The power of 1024 that an upper-case unit suffix stands for: none or `B`,
/// else a prefix letter alone or followed by `B` or `IB`.
pub open spec fn unit_power(u: Seq<char>) -> Option<nat> {
    if u.len() == 0 || u == seq!['B'] {
        Some(0)
    } else if u.skip(1).len() == 0 || u.skip(1) == seq!['B'] || u.skip(1) == seq!['I', 'B'] {
        prefix_power(u[0])
    } else {
        None
    }
}

/// 1024 to the power `e`, for the powers that units name.
pub open spec fn multiplier(e: nat) -> nat {
    if e == 0 {
        1
    } else if e == 1 {
        1024
    } else if e == 2 {
        1048576
    } else if e == 3 {
        1073741824
    } else if e == 4 {
        1099511627776
    } else {
        1125899906842624
    }
}

/// `d / 10^k` bytes times `m`, rounded to the nearest integer (halves up).
pub open spec fn rounded(d: nat, k: nat, m: nat) -> nat {
    (2 * d * m + pow10(k)) / (2 * pow10(k))
}

/// The byte count that a size string denotes, if it is a valid one that fits
/// in 64 bits: surrounding white space is ignored, the leading digits and
/// points are the number, and what follows (trimmed, any case) is the unit.
pub open spec fn text_size(s: Seq<char>) -> Option<u64> {
    let t = trim(upper_all(s));
    let nl = span(t, CharClass::Numeric);
    match (decimal_parts(t.take(nl as int)), unit_power(trim(t.skip(nl as int)))) {
        (Some(parts), Some(e)) => {
            let v = rounded(digits_value(parts.0 + parts.1), parts.1.len(), multiplier(e));
            if v <= u64::MAX {
                Some(v as u64)
            } else {
                None
            }
        },
        _ => None,
    }
}

/// The byte count that a number in plain decimal notation denotes, truncated
/// toward zero, if it is non-negative and fits in 64 bits.
pub open spec fn number_size(t: Seq<char>) -> Option<u64> {
    match decimal_parts(t) {
        Some(parts) => if digits_value(parts.0) <= u64::MAX {
            Some(digits_value(parts.0) as u64)
        } else {
            None
        },
        None => None,
    }
}

// ---------------------------------------------------------------------------
// Arithmetic on digit strings.

proof fn lemma_pow10_positive(k: nat)
    ensures
        pow10(k) >= 1,
    decreases k,
{
    if k > 0 {
        lemma_pow10_positive((k - 1) as nat);
    }
}

/// Reading `a` then `b` shifts `a` left by the length of `b`.
proof fn lemma_digits_concat(a: Seq<char>, b: Seq<char>)
    ensures
        digits_value(a + b) == digits_value(a) * pow10(b.len()) + digits_value(b),
    decreases b.len(),
{
    if b.len() == 0 {
        assert(a + b =~= a);
        assert(digits_value(a) * 1 == digits_value(a));
    } else {
        let b0 = b.drop_last();
        assert((a + b).drop_last() =~= a + b0);
        assert((a + b).last() == b.last());
        lemma_digits_concat(a, b0);
        let va = digits_value(a);
        let p = pow10(b0.len());
        assert(pow10(b.len()) == 10 * p);
        assert((va * p + digits_value(b0)) * 10 + digit_value(b.last()) == va * (10 * p) + (
        digits_value(b0) * 10 + digit_value(b.last()))) by (nonlinear_arith);
        assert(digits_value(a + b) == digits_value(a + b0) * 10 + digit_value(b.last()));
        assert(digits_value(b) == digits_value(b0) * 10 + digit_value(b.last()));
    }
}

proof fn lemma_digits_bound(s: Seq<char>)
    requires
        all_digits(s),
    ensures
        digits_value(s) < pow10(s.len()),
    decreases s.len(),
{
    if s.len() > 0 {
        let s0 = s.drop_last();
        assert(all_digits(s0)) by {
            assert forall|i: int| 0 <= i < s0.len() implies is_digit(#[trigger] s0[i]) by {
                assert(s0[i] == s[i]);
            }
        }
        assert(is_digit(s[s.len() - 1]));
        lemma_digits_bound(s0);
        let v = digits_value(s0);
        let p = pow10(s0.len());
        assert(v + 1 <= p);
        assert(v * 10 + 9 < p * 10) by (nonlinear_arith)
            requires
                v + 1 <= p,
        ;
    }
}

/// One step of reading a fraction from its last digit: the floor of
/// `(d.f) * m` from the floor of `(0.f) * m`.
proof fn lemma_fraction_step(d: nat, f: nat, m: nat, p: nat)
    requires
        p > 0,
        f < p,
        m > 0,
    ensures
        ((d * p + f) * m) / (p * 10) == (d * m + (f * m) / p) / 10,
        (f * m) / p < m,
{
    let x = (d * p + f) * m;
    assert(x == f * m + (d * m) * p) by (nonlinear_arith)
        requires
            x == (d * p + f) * m,
    ;
    assert(x >= 0) by (nonlinear_arith)
        requires
            x == f * m + (d * m) * p,
    ;
    lemma_div_denominator(x as int, p as int, 10);
    lemma_hoist_over_denominator((f * m) as int, (d * m) as int, p);
    assert(f * m < p * m) by (nonlinear_arith)
        requires
            f < p,
            m > 0,
    ;
    lemma_multiply_divide_lt((f * m) as int, p as int, m as int);
}

/// Rounding `(w.f) * m` is the whole part times `m` plus the rounded fraction.
proof fn lemma_rounded_split(w: nat, f: nat, p: nat, m: nat)
    requires
        p > 0,
    ensures
        (2 * (w * p + f) * m + p) / (2 * p) == w * m + ((2 * f * m) / p + 1) / 2,
{
    let x = 2 * f * m + p;
    assert(2 * (w * p + f) * m + p == x + (w * m) * (2 * p)) by (nonlinear_arith)
        requires
            x == 2 * f * m + p,
    ;
    assert(x >= 0) by (nonlinear_arith)
        requires
            x == 2 * f * m + p,
    ;
    lemma_hoist_over_denominator(x as int, (w * m) as int, (2 * p) as nat);
    lemma_div_denominator(x as int, p as int, 2);
    lemma_hoist_over_denominator((2 * f * m) as int, 1, p);
}


proof fn lemma_span(x: Seq<char>, k: CharClass)
    ensures
        span(x, k) <= x.len(),
        forall|i: int| 0 <= i < span(x, k) ==> in_class(#[trigger] x[i], k),
        span(x, k) < x.len() ==> !in_class(x[span(x, k) as int], k),
    decreases x.len(),
{
    if x.len() > 0 && in_class(x[0], k) {
        let y = x.subrange(1, x.len() as int);
        lemma_span(y, k);
        assert forall|i: int| 0 <= i < span(x, k) implies in_class(#[trigger] x[i], k) by {
            if i > 0 {
                assert(x[i] == y[i - 1]);
            }
        }
    }
}

// ---------------------------------------------------------------------------
// Scans over a range `from..to` of a character vector.

fn upper_chars(s: &str) -> (r: Vec<char>)
    ensures
        r@ == upper_all(s@),
{
    let v = chars_of(s);
    let mut r: Vec<char> = Vec::new();
    let mut i: usize = 0;
    while i < v.len()
        invariant
            v@ == s@,
            i <= v@.len(),
            r@.len() == i,
            forall|j: int| 0 <= j < i ==> #[trigger] r@[j] == ascii_upper(v@[j]),
        decreases v.len() - i,
    {
        r.push(upper_char(v[i]));
        i = i + 1;
    }
    assert(r@ =~= upper_all(s@));
    r
}

fn upper_char(c: char) -> (r: char)
    ensures
        r == ascii_upper(c),
{
    if 'a' <= c && c <= 'z' {
        ((c as u32 - 32) as u8) as char
    } else {
        c
    }
}

fn char_in_class(c: char, k: CharClass) -> (r: bool)
    ensures
        r == in_class(c, k),
{
    match k {
        CharClass::Space => c == ' ' || c == '\t' || c == '\n' || c == '\r' || c == '\x0C',
        CharClass::Digit => '0' <= c && c <= '9',
        CharClass::Numeric => ('0' <= c && c <= '9') || c == '.',
    }
}

/// The length of the longest run of class `k` at the start of `s[from..to]`.
fn span_at(s: &Vec<char>, from: usize, to: usize, k: CharClass) -> (n: usize)
    requires
        from <= to <= s@.len(),
    ensures
        n == span(s@.subrange(from as int, to as int), k),
        from + n <= to,
{
    let mut i: usize = from;
    while i < to && char_in_class(s[i], k)
        invariant
            from <= i <= to <= s@.len(),
            span(s@.subrange(from as int, to as int), k) == (i - from) + span(
                s@.subrange(i as int, to as int),
                k,
            ),
        decreases to - i,
    {
        let ghost x = s@.subrange(i as int, to as int);
        assert(x.subrange(1, x.len() as int) =~= s@.subrange(i + 1, to as int));
        i = i + 1;
    }
    i - from
}

/// The number of white-space characters at the end of `s[from..to]`.
fn trailing_at(s: &Vec<char>, from: usize, to: usize) -> (n: usize)
    requires
        from <= to <= s@.len(),
    ensures
        n == trailing_space(s@.subrange(from as int, to as int)),
        n <= to - from,
{
    let mut j: usize = to;
    while j > from && char_in_class(s[j - 1], CharClass::Space)
        invariant
            from <= j <= to <= s@.len(),
            trailing_space(s@.subrange(from as int, to as int)) == (to - j) + trailing_space(
                s@.subrange(from as int, j as int),
            ),
        decreases j - from,
    {
        let ghost x = s@.subrange(from as int, j as int);
        assert(x.drop_last() =~= s@.subrange(from as int, j - 1));
        j = j - 1;
    }
    to - j
}

/// The bounds of `s[from..to]` without its surrounding white space.
fn trim_at(s: &Vec<char>, from: usize, to: usize) -> (r: (usize, usize))
    requires
        from <= to <= s@.len(),
    ensures
        from <= r.0 <= r.1 <= to,
        trim(s@.subrange(from as int, to as int)) == s@.subrange(r.0 as int, r.1 as int),
{
    let a = from + span_at(s, from, to, CharClass::Space);
    let b = to - trailing_at(s, a, to);
    let ghost x = s@.subrange(from as int, to as int);
    assert(x.skip(span(x, CharClass::Space) as int) =~= s@.subrange(a as int, to as int));
    assert(s@.subrange(a as int, to as int).take(b - a) =~= s@.subrange(a as int, b as int));
    (a, b)
}

/// Where the whole and fractional digits of `s[from..to]` lie, if it is a
/// plain decimal number: the whole part ends at `r.0`, the fraction starts at
/// `r.1` and runs to `to`.
fn decimal_at(s: &Vec<char>, from: usize, to: usize) -> (r: Option<(usize, usize)>)
    requires
        from <= to <= s@.len(),
    ensures
        match decimal_parts(s@.subrange(from as int, to as int)) {
            None => r is None,
            Some(parts) => r matches Some(b) && from <= b.0 <= b.1 <= to && parts.0 == s@.subrange(
                from as int,
                b.0 as int,
            ) && parts.1 == s@.subrange(b.1 as int, to as int),
        },
{
    let ghost n = s@.subrange(from as int, to as int);
    let wl = span_at(s, from, to, CharClass::Digit);
    let p = from + wl;
    proof {
        lemma_span(n, CharClass::Digit);
        assert(n.skip(wl as int) =~= s@.subrange(p as int, to as int));
    }
    if p == to {
        if wl > 0 {
            assert(n.subrange(0, n.len() as int) =~= n);
            Some((to, to))
        } else {
            None
        }
    } else if s[p] == '.' && to - from > 1 {
        let fl = span_at(s, p + 1, to, CharClass::Digit);
        let ghost rest = s@.subrange(p as int, to as int);
        proof {
            assert(rest.skip(1) =~= s@.subrange(p + 1, to as int));
            lemma_span(rest.skip(1), CharClass::Digit);
            assert(n.take(wl as int) =~= s@.subrange(from as int, p as int));
        }
        if p + 1 + fl == to {
            Some((p, p + 1))
        } else {
            assert(!is_digit(rest.skip(1)[fl as int]));
            None
        }
    } else {
        None
    }
}

/// The multiplier of a unit prefix letter.
fn prefix_multiplier(c: char) -> (r: Option<u64>)
    ensures
        match prefix_power(c) {
            Some(e) => r == Some(multiplier(e) as u64),
            None => r is None,
        },
{
    if c == 'K' {
        Some(1024)
    } else if c == 'M' {
        Some(1048576)
    } else if c == 'G' {
        Some(1073741824)
    } else if c == 'T' {
        Some(1099511627776)
    } else if c == 'P' {
        Some(1125899906842624)
    } else {
        None
    }
}

/// The multiplier of the upper-case unit `s[from..to]`.
fn unit_at(s: &Vec<char>, from: usize, to: usize) -> (r: Option<u64>)
    requires
        from <= to <= s@.len(),
    ensures
        match unit_power(s@.subrange(from as int, to as int)) {
            Some(e) => r == Some(multiplier(e) as u64),
            None => r is None,
        },
{
    let ghost u = s@.subrange(from as int, to as int);
    let len = to - from;
    if len == 0 {
        return Some(1);
    }
    let c = s[from];
    assert(u[0] == c);
    if len == 1 {
        if c == 'B' {
            assert(u =~= seq!['B']);
            Some(1)
        } else {
            assert(u != seq!['B']) by {
                assert(seq!['B'][0] == 'B');
            }
            assert(u.skip(1).len() == 0);
            prefix_multiplier(c)
        }
    } else if len == 2 && s[from + 1] == 'B' {
        assert(u.skip(1) =~= seq!['B']);
        assert(u.len() != 1);
        prefix_multiplier(c)
    } else if len == 3 && s[from + 1] == 'I' && s[from + 2] == 'B' {
        assert(u.skip(1) =~= seq!['I', 'B']);
        assert(u.len() != 1);
        prefix_multiplier(c)
    } else {
        assert(u.len() != 1);
        assert(u.skip(1) != seq!['B']) by {
            if len == 2 {
                assert(u.skip(1)[0] == s@[from + 1]);
            } else {
                assert(u.skip(1).len() != 1);
            }
        }
        assert(u.skip(1) != seq!['I', 'B']) by {
            if len == 3 {
                assert(u.skip(1)[0] == s@[from + 1]);
                assert(u.skip(1)[1] == s@[from + 2]);
                assert(seq!['I', 'B'][0] == 'I');
                assert(seq!['I', 'B'][1] == 'B');
            } else {
                assert(u.skip(1).len() != 2);
            }
        }
        None
    }
}

/// The number that the digits `s[from..to]` denote, if it fits in 64 bits.
fn digits_at(s: &Vec<char>, from: usize, to: usize) -> (r: Option<u64>)
    requires
        from <= to <= s@.len(),
        all_digits(s@.subrange(from as int, to as int)),
    ensures
        match r {
            Some(v) => v == digits_value(s@.subrange(from as int, to as int)),
            None => digits_value(s@.subrange(from as int, to as int)) > u64::MAX,
        },
{
    let mut acc: u64 = 0;
    let mut i: usize = from;
    while i < to
        invariant
            from <= i <= to <= s@.len(),
            all_digits(s@.subrange(from as int, to as int)),
            acc == digits_value(s@.subrange(from as int, i as int)),
        decreases to - i,
    {
        let c = s[i];
        assert(is_digit(s@.subrange(from as int, to as int)[i - from]));
        let d = (c as u32 - '0' as u32) as u64;
        let ghost x = s@.subrange(from as int, i + 1);
        assert(x.drop_last() =~= s@.subrange(from as int, i as int));
        if acc > (u64::MAX - d) / 10 {
            proof {
                lemma_digits_concat(x, s@.subrange(i + 1, to as int));
                assert(x + s@.subrange(i + 1, to as int) =~= s@.subrange(from as int, to as int));
                lemma_pow10_positive((to - (i + 1)) as nat);
                let v = digits_value(x);
                let p = pow10((to - (i + 1)) as nat);
                assert(v * p >= v) by (nonlinear_arith)
                    requires
                        p >= 1,
                ;
            }
            return None;
        }
        acc = acc * 10 + d;
        i = i + 1;
    }
    Some(acc)
}

/// `(0.f) * m` rounded down, where `f` is the digit string `s[from..to]`.
fn fraction_at(s: &Vec<char>, from: usize, to: usize, m: u64) -> (r: u64)
    requires
        from <= to <= s@.len(),
        all_digits(s@.subrange(from as int, to as int)),
        0 < m <= 0x8_0000_0000_0000,
    ensures
        r == (digits_value(s@.subrange(from as int, to as int)) * (m as nat)) / pow10((to - from) as nat),
        r < m,
{
    let mut q: u64 = 0;
    let mut j: usize = to;
    assert(s@.subrange(to as int, to as int) =~= Seq::<char>::empty());
    assert(digits_value(Seq::<char>::empty()) == 0);
    assert(pow10(0) == 1);
    assert((0 * (m as nat)) / 1 == 0) by (nonlinear_arith);
    while j > from
        invariant
            from <= j <= to <= s@.len(),
            0 < m <= 0x8_0000_0000_0000,
            all_digits(s@.subrange(from as int, to as int)),
            q == (digits_value(s@.subrange(j as int, to as int)) * (m as nat)) / pow10((to - j) as nat),
            q < m,
        decreases j,
    {
        let c = s[j - 1];
        assert(is_digit(s@.subrange(from as int, to as int)[j - 1 - from]));
        let d = (c as u32 - '0' as u32) as u64;
        let ghost tail = s@.subrange(j as int, to as int);
        proof {
            let one = s@.subrange(j - 1, j as int);
            assert(one + tail =~= s@.subrange(j - 1, to as int));
            assert(one.drop_last() =~= Seq::<char>::empty());
            lemma_digits_concat(one, tail);
            assert(all_digits(tail)) by {
                assert forall|i: int| 0 <= i < tail.len() implies is_digit(#[trigger] tail[i]) by {
                    assert(tail[i] == s@.subrange(from as int, to as int)[j - from + i]);
                }
            }
            lemma_digits_bound(tail);
            assert(digits_value(one) == d as nat) by {
                assert(one.last() == c);
                assert(digits_value(one.drop_last()) == 0);
            }
            assert(tail.len() == (to - j) as nat);
            lemma_fraction_step(d as nat, digits_value(tail), m as nat, pow10(tail.len()));
            assert(pow10((to - (j - 1)) as nat) == pow10(tail.len()) * 10);
        }
        assert(d * m + q < 10 * m) by (nonlinear_arith)
            requires
                d <= 9,
                q < m,
        ;
        q = (d * m + q) / 10;
        j = j - 1;
    }
    q
}

/// Normalizes a size string such as `894.3G`, `512 MiB` or `4096` to bytes.
///
/// Returns `None` when the string is not a valid size, and when the size
/// does not fit in 64 bits.
#[verifier::rlimit(40)]
pub fn size_from_text(s: &str) -> (r: Option<u64>)
    ensures
        r == text_size(s@),
{
    let u = upper_chars(s);
    let (a, b) = trim_at(&u, 0, u.len());
    let nl = span_at(&u, a, b, CharClass::Numeric);
    let e = a + nl;
    let ghost t = u@.subrange(a as int, b as int);
    proof {
        assert(u@.subrange(0, u@.len() as int) =~= u@);
        assert(t.take(nl as int) =~= u@.subrange(a as int, e as int));
        assert(t.skip(nl as int) =~= u@.subrange(e as int, b as int));
    }
    let bounds = match decimal_at(&u, a, e) {
        Some(bounds) => bounds,
        None => return None,
    };
    let (c, d) = trim_at(&u, e, b);
    let m = match unit_at(&u, c, d) {
        Some(m) => m,
        None => return None,
    };
    let ghost w = u@.subrange(a as int, bounds.0 as int);
    let ghost f = u@.subrange(bounds.1 as int, e as int);
    assert(all_digits(w) && all_digits(f)) by {
        lemma_span(u@.subrange(a as int, e as int), CharClass::Digit);
    }
    let ghost ww = digits_value(w);
    let ghost ff = digits_value(f);
    let ghost p = pow10(f.len());
    let ghost mm = m as nat;
    proof {
        lemma_digits_concat(w, f);
        lemma_pow10_positive(f.len());
        lemma_rounded_split(ww, ff, p, mm);
        assert(2 * (ww * p + ff) * mm == 2 * (ww * p + ff) * mm);
    }
    let whole = match digits_at(&u, a, bounds.0) {
        Some(v) => v,
        None => {
            assert(ww * mm >= ww) by (nonlinear_arith)
                requires
                    mm >= 1,
            ;
            return None;
        },
    };
    let q = fraction_at(&u, bounds.1, e, 2 * m);
    assert(ff * (2 * mm) == 2 * ff * mm) by (nonlinear_arith);
    assert(m <= 0x4_0000_0000_0000);
    assert(whole as u128 * m as u128 <= 0xFFFF_FFFF_FFFF_FFFF * 0x4_0000_0000_0000) by (nonlinear_arith)
        requires
            m <= 0x4_0000_0000_0000,
    ;
    let total: u128 = whole as u128 * m as u128 + ((q as u128 + 1) / 2);
    if total > u64::MAX as u128 {
        None
    } else {
        Some(total as u64)
    }
}

/// Normalizes a size given as a JSON number, in plain decimal notation, to
/// bytes; a fraction is truncated toward zero.
///
/// Returns `None` for a negative number, for any other text, and when the
/// size does not fit in 64 bits.
pub fn size_from_number(t: &str) -> (r: Option<u64>)
    ensures
        r == number_size(t@),
{
    let v = chars_of(t);
    let bounds = match decimal_at(&v, 0, v.len()) {
        Some(bounds) => bounds,
        None => {
            assert(v@.subrange(0, v@.len() as int) =~= v@);
            return None;
        },
    };
    assert(v@.subrange(0, v@.len() as int) =~= v@);
    assert(all_digits(v@.subrange(0, bounds.0 as int))) by {
        lemma_span(v@, CharClass::Digit);
    }
    digits_at(&v, 0, bounds.0)
}


// ---------------------------------------------------------------------------
// Laws.

/// Strings that differ only in the case of ASCII letters denote the same
/// size; in particular the unit is matched in any case (`3.5T`, `3.5t`).
pub proof fn lemma_size_case_insensitive(s: Seq<char>, t: Seq<char>)
    requires
        s.len() == t.len(),
        forall|i: int| 0 <= i < s.len() ==> ascii_upper(#[trigger] s[i]) == ascii_upper(t[i]),
    ensures
        text_size(s) == text_size(t),
{
    assert(upper_all(s) =~= upper_all(t));
}

/// Writing a size string in lower case or in upper case does not change the
/// size it denotes.
pub proof fn lemma_size_any_case(s: Seq<char>)
    ensures
        text_size(lower_all(s)) == text_size(s),
        text_size(upper_all(s)) == text_size(s),
{
    assert forall|i: int| 0 <= i < s.len() implies ascii_upper(#[trigger] lower_all(s)[i])
        == ascii_upper(s[i]) && ascii_upper(upper_all(s)[i]) == ascii_upper(s[i]) by {
        let c = s[i];
        if 'A' <= c && c <= 'Z' {
            assert(ascii_lower(c) as u32 == c as u32 + 32);
        }
        if 'a' <= c && c <= 'z' {
            assert(ascii_upper(c) as u32 == c as u32 - 32);
        }
    }
    lemma_size_case_insensitive(lower_all(s), s);
    lemma_size_case_insensitive(upper_all(s), s);
}

proof fn lemma_no_space_trim(x: Seq<char>)
    requires
        forall|i: int| 0 <= i < x.len() ==> !is_space(#[trigger] x[i]),
    ensures
        trim(x) == x,
{
    assert(span(x, CharClass::Space) == 0);
    if x.len() > 0 {
        assert(!is_space(x.last()));
    }
    assert(trailing_space(x) == 0);
    assert(x.skip(0) =~= x);
    assert(x.take(x.len() as int) =~= x);
}

proof fn lemma_span_concat(a: Seq<char>, b: Seq<char>, k: CharClass)
    requires
        forall|i: int| 0 <= i < a.len() ==> in_class(#[trigger] a[i], k),
        b.len() == 0 || !in_class(b[0], k),
    ensures
        span(a + b, k) == a.len(),
    decreases a.len(),
{
    if a.len() == 0 {
        assert(a + b =~= b);
    } else {
        let rest = a.subrange(1, a.len() as int);
        assert((a + b).subrange(1, (a + b).len() as int) =~= rest + b);
        assert((a + b)[0] == a[0]);
        lemma_span_concat(rest, b, k);
    }
}

proof fn lemma_decimal_is_numeric(n: Seq<char>)
    requires
        decimal_parts(n) is Some,
    ensures
        forall|i: int| 0 <= i < n.len() ==> in_class(#[trigger] n[i], CharClass::Numeric),
        n.len() > 0,
{
    let w = span(n, CharClass::Digit);
    lemma_span(n, CharClass::Digit);
    let rest = n.skip(w as int);
    assert forall|i: int| 0 <= i < n.len() implies in_class(#[trigger] n[i], CharClass::Numeric) by {
        if i >= w {
            assert(n[i] == rest[i - w]);
            if i > w {
                assert(rest[i - w] == rest.skip(1)[i - w - 1]);
            }
        }
    }
}

proof fn lemma_unit_letters(u: Seq<char>)
    requires
        unit_power(u) is Some,
    ensures
        forall|i: int|
            0 <= i < u.len() ==> !is_space(#[trigger] u[i]) && !in_class(u[i], CharClass::Numeric),
{
    if u.len() > 0 && u != seq!['B'] {
        let r = u.skip(1);
        assert(prefix_power(u[0]) is Some);
        assert forall|i: int| 0 <= i < u.len() implies !is_space(#[trigger] u[i]) && !in_class(
            u[i],
            CharClass::Numeric,
        ) by {
            if i == 0 {
                assert(u[0] == 'K' || u[0] == 'M' || u[0] == 'G' || u[0] == 'T' || u[0] == 'P');
            } else {
                assert(u[i] == r[i - 1]);
                assert(r.len() > 0);
                if r == seq!['B'] {
                    assert(r[0] == 'B');
                    assert(u[i] == 'B');
                } else {
                    assert(r == seq!['I', 'B']);
                    assert(r[0] == 'I');
                    assert(r[1] == 'B');
                    assert(u[i] == 'B' || u[i] == 'I');
                }
            }
        }
    } else if u.len() > 0 {
        assert(u[0] == seq!['B'][0]);
    }
}

/// A valid size string `N<unit>` divided by the unit's multiplier gives back
/// `N` to within half a byte's share: with `N = D / 10^k`, the result `r`
/// satisfies `|r * 10^k - D * m| <= 10^k / 2`. The result is absent exactly
/// when the rounded value does not fit in 64 bits.
pub proof fn lemma_size_recovers_number(n: Seq<char>, u: Seq<char>)
    requires
        decimal_parts(n) is Some,
        unit_power(upper_all(u)) is Some,
    ensures
        ({
            let parts = decimal_parts(n)->0;
            let d = digits_value(parts.0 + parts.1);
            let p = pow10(parts.1.len());
            let m = multiplier(unit_power(upper_all(u))->0);
            let v = rounded(d, parts.1.len(), m);
            &&& text_size(n + u) is Some <==> v <= u64::MAX
            &&& 2 * v * p <= 2 * d * m + p
            &&& 2 * d * m < 2 * v * p + p
        }),
{
    let uu = upper_all(u);
    let t0 = upper_all(n + u);
    lemma_decimal_is_numeric(n);
    assert(upper_all(n) =~= n) by {
        assert forall|i: int| 0 <= i < n.len() implies upper_all(n)[i] == n[i] by {
            assert(in_class(n[i], CharClass::Numeric));
        }
    }
    assert(t0 =~= n + uu);
    lemma_unit_letters(uu);
    assert forall|i: int| 0 <= i < t0.len() implies !is_space(#[trigger] t0[i]) by {
        if i < n.len() {
            assert(in_class(n[i], CharClass::Numeric));
        } else {
            assert(t0[i] == uu[i - n.len()]);
        }
    }
    lemma_no_space_trim(t0);
    lemma_span_concat(n, uu, CharClass::Numeric);
    assert(t0.take(n.len() as int) =~= n);
    assert(t0.skip(n.len() as int) =~= uu);
    lemma_no_space_trim(uu);
    let parts = decimal_parts(n)->0;
    let d = digits_value(parts.0 + parts.1);
    let p = pow10(parts.1.len());
    let m = multiplier(unit_power(uu)->0);
    let v = rounded(d, parts.1.len(), m);
    lemma_pow10_positive(parts.1.len());
    lemma_fundamental_div_mod((2 * d * m + p) as int, (2 * p) as int);
    let x = 2 * d * m + p;
    let q = x / (2 * p);
    let rem = x % (2 * p);
    assert(v == q);
    assert(x == (2 * p) * q + rem);
    assert(0 <= rem < 2 * p);
    assert(2 * v * p == (2 * p) * q) by (nonlinear_arith)
        requires
            v == q,
    ;
}

} // verus!
