//! The append-only log's record format.
//!
//! Each record is one line of JSON text with a `kind` discriminator and
//! a payload, exactly as the encoder below lays it out. The codec works
//! on characters; the caller turns the line into file bytes as UTF-8.
//! Fixed-point numbers appear in decimal with up to six fractional
//! digits, so `1_500_000` is written `1.5`.

use vstd::prelude::*;

use crate::agent::DecisionRecord;
use crate::Edge;
use crate::Node;
use crate::NodeId;
use crate::FIXED_LIMIT;

verus! {

/// One record of the append-only log.
pub enum WalRecord {
    /// A node was added or replaced.
    Node { data: Node },
    /// An edge was added between nodes.
    Edge { from: NodeId, to: NodeId, edge_type: String },
    /// An embedding was set for a node.
    Embedding { id: NodeId, vec: Vec<i64> },
    /// A decision record was appended.
    Decision { data: DecisionRecord },
}

// ---------------------------------------------------------------------
// Digits
// ---------------------------------------------------------------------

/// True for the ten decimal digit characters.
pub open spec fn is_digit(c: char) -> bool {
    c == '0' || c == '1' || c == '2' || c == '3' || c == '4' || c == '5' || c == '6' || c == '7'
        || c == '8' || c == '9'
}

/// The numeric value of a decimal digit character.
pub open spec fn dval(c: char) -> int {
    if c == '0' {
        0
    } else if c == '1' {
        1
    } else if c == '2' {
        2
    } else if c == '3' {
        3
    } else if c == '4' {
        4
    } else if c == '5' {
        5
    } else if c == '6' {
        6
    } else if c == '7' {
        7
    } else if c == '8' {
        8
    } else {
        9
    }
}

/// The decimal digit character for a value below ten.
pub open spec fn digit(d: int) -> char {
    if d == 0 {
        '0'
    } else if d == 1 {
        '1'
    } else if d == 2 {
        '2'
    } else if d == 3 {
        '3'
    } else if d == 4 {
        '4'
    } else if d == 5 {
        '5'
    } else if d == 6 {
        '6'
    } else if d == 7 {
        '7'
    } else if d == 8 {
        '8'
    } else {
        '9'
    }
}

/// Reads a digit character's value, or ten when it is not a digit.
fn read_digit(c: char) -> (r: u64)
    ensures
        (r < 10) == is_digit(c),
        is_digit(c) ==> r == dval(c),
{
    if c == '0' {
        0
    } else if c == '1' {
        1
    } else if c == '2' {
        2
    } else if c == '3' {
        3
    } else if c == '4' {
        4
    } else if c == '5' {
        5
    } else if c == '6' {
        6
    } else if c == '7' {
        7
    } else if c == '8' {
        8
    } else if c == '9' {
        9
    } else {
        10
    }
}

/// Writes a digit value below ten as its character.
fn write_digit(d: u64) -> (c: char)
    requires
        d < 10,
    ensures
        c == digit(d as int),
        is_digit(c),
        dval(c) == d,
{
    if d == 0 {
        '0'
    } else if d == 1 {
        '1'
    } else if d == 2 {
        '2'
    } else if d == 3 {
        '3'
    } else if d == 4 {
        '4'
    } else if d == 5 {
        '5'
    } else if d == 6 {
        '6'
    } else if d == 7 {
        '7'
    } else if d == 8 {
        '8'
    } else {
        '9'
    }
}

/// Ten to the power `k`.
pub open spec fn pow10(k: int) -> int
    decreases k,
{
    if k <= 0 {
        1
    } else {
        10 * pow10(k - 1)
    }
}

// ---------------------------------------------------------------------
// Unsigned decimal numerals
// ---------------------------------------------------------------------

/// The decimal digits of `v`, zero-padded on the left to width `w`.
pub open spec fn pad_digits(v: int, w: int) -> Seq<char>
    decreases w,
{
    if w <= 0 {
        Seq::<char>::empty()
    } else {
        pad_digits(v / 10, w - 1).push(digit(v % 10))
    }
}

/// The number of decimal digits of `v` (one for zero).
pub open spec fn ndigits(v: int) -> int
    decreases v,
{
    if v < 10 {
        1
    } else {
        1 + ndigits(v / 10)
    }
}

/// The shortest decimal numeral of a non-negative number.
pub open spec fn enc_u64(v: int) -> Seq<char> {
    pad_digits(v, ndigits(v))
}

/// Every character of a padded numeral is a digit, and the numeral has
/// width `w`.
pub proof fn lemma_pad_digits_shape(v: int, w: int)
    requires
        0 <= v,
        0 <= w,
    ensures
        pad_digits(v, w).len() == w,
        forall|t: int| 0 <= t < w ==> is_digit(#[trigger] pad_digits(v, w)[t]),
    decreases w,
{
    if w > 0 {
        lemma_pad_digits_shape(v / 10, w - 1);
        let s = pad_digits(v, w);
        let rest = pad_digits(v / 10, w - 1);
        assert forall|t: int| 0 <= t < w implies is_digit(#[trigger] s[t]) by {
            if t < w - 1 {
                assert(s[t] == rest[t]);
            }
        }
    }
}

/// A number fits the width of its own numeral.
pub proof fn lemma_ndigits_bound(v: int)
    requires
        0 <= v,
    ensures
        1 <= ndigits(v),
        v < pow10(ndigits(v)),
    decreases v,
{
    if v >= 10 {
        lemma_ndigits_bound(v / 10);
        let k = ndigits(v / 10);
        assert(v / 10 < pow10(k));
        assert(pow10(k + 1) == 10 * pow10(k));
        assert(v == 10 * (v / 10) + v % 10);
        assert(v < 10 * pow10(k)) by (nonlinear_arith)
            requires v == 10 * (v / 10) + v % 10 && v % 10 < 10 && v / 10 < pow10(k);
    } else {
        assert(pow10(0) == 1);
        assert(pow10(1) == 10);
    }
}

/// `pow10` is positive.
pub proof fn lemma_pow10_pos(k: int)
    ensures
        pow10(k) >= 1,
    decreases k,
{
    if k > 0 {
        lemma_pow10_pos(k - 1);
    }
}

// ---------------------------------------------------------------------
// Scanning unsigned numerals
// ---------------------------------------------------------------------

/// Scans decimal digits starting at `i`, accumulating onto `acc`, and
/// stops at the first non-digit. Fails when the value would not fit a
/// 64-bit number.
pub open spec fn sp_scan_u64(s: Seq<char>, i: int, acc: u64) -> Option<(u64, int)>
    decreases s.len() - i,
{
    if 0 <= i < s.len() && is_digit(s[i]) {
        let d = dval(s[i]);
        if acc as int * 10 + d > u64::MAX as int {
            None
        } else {
            sp_scan_u64(s, i + 1, (acc as int * 10 + d) as u64)
        }
    } else {
        Some((acc, i))
    }
}

/// Parses an unsigned decimal numeral at `i`: at least one digit, up to
/// the first non-digit.
pub open spec fn sp_parse_u64(s: Seq<char>, i: int) -> Option<(u64, int)> {
    if 0 <= i < s.len() && is_digit(s[i]) {
        sp_scan_u64(s, i, 0)
    } else {
        None
    }
}

/// Scanning across a padded numeral accumulates exactly its value.
pub proof fn lemma_scan_pad(s: Seq<char>, i: int, v: int, w: int, acc: u64)
    requires
        0 <= v,
        1 <= w,
        v < pow10(w),
        0 <= i,
        i + w <= s.len(),
        s.subrange(i, i + w) == pad_digits(v, w),
        acc as int * pow10(w) + v <= u64::MAX as int,
    ensures
        sp_scan_u64(s, i, acc) == sp_scan_u64(s, i + w, (acc as int * pow10(w) + v) as u64),
    decreases w,
{
    lemma_pad_digits_shape(v, w);
    lemma_pow10_pos(w - 1);
    let p = pad_digits(v, w);
    if w == 1 {
        assert(pow10(0) == 1);
        assert(pow10(1) == 10);
        assert(v % 10 == v && v / 10 == 0);
        assert(p == Seq::<char>::empty().push(digit(v)));
        assert(s[i] == p[0]);
        assert(p[0] == digit(v));
        assert(is_digit(s[i]) && dval(s[i]) == v);
        assert(acc as int * 10 + v <= u64::MAX as int);
        assert(sp_scan_u64(s, i, acc) == sp_scan_u64(s, i + 1, (acc as int * 10 + v) as u64));
    } else {
        // p = pad(v/10, w-1).push(digit(v%10)); the head digit of p is the
        // head digit of the shorter numeral of v/10.
        let hi = v / 10;
        let lo = v % 10;
        let q = pad_digits(hi, w - 1);
        lemma_pad_digits_shape(hi, w - 1);
        assert(pow10(w) == 10 * pow10(w - 1));
        assert(10 * hi <= v);
        assert(hi < pow10(w - 1)) by (nonlinear_arith)
            requires 10 * hi <= v && v < 10 * pow10(w - 1);
        assert(s.subrange(i, i + (w - 1)) =~= q) by {
            assert forall|t: int| 0 <= t < w - 1 implies s.subrange(i, i + (w - 1))[t] == q[t] by {
                assert(s.subrange(i, i + w)[t] == p[t]);
                assert(p[t] == q[t]);
            }
        }
        let acc1: int = acc as int * pow10(w - 1) + hi;
        assert(acc1 * 10 + lo == acc as int * pow10(w) + v) by (nonlinear_arith)
            requires
                acc1 == acc as int * pow10(w - 1) + hi && pow10(w) == 10 * pow10(w - 1) && hi == v
                    / 10 && lo == v % 10 && v >= 0;
        assert(lo >= 0 && acc1 >= 0);
        assert(acc1 * 10 + lo <= u64::MAX as int);
        assert(acc1 <= u64::MAX as int) by (nonlinear_arith)
            requires acc1 >= 0 && lo >= 0 && acc1 * 10 + lo <= u64::MAX as int;
        lemma_scan_pad(s, i, hi, w - 1, acc);
        // one more digit: s[i + w - 1] == digit(lo)
        assert(s.subrange(i, i + w)[w - 1] == p[w - 1]);
        assert(p[w - 1] == digit(lo));
        assert(s[i + w - 1] == digit(lo));
        assert(is_digit(s[i + w - 1]) && dval(s[i + w - 1]) == lo);
        assert(sp_scan_u64(s, i + w - 1, acc1 as u64) == sp_scan_u64(
            s,
            i + w,
            (acc1 * 10 + lo) as u64,
        ));
    }
}

/// Parsing the numeral of `v`, followed by anything but a digit, yields
/// `v` and stops right after it.
pub proof fn lemma_parse_enc_u64(s: Seq<char>, i: int, v: u64)
    requires
        0 <= i,
        i + enc_u64(v as int).len() <= s.len(),
        s.subrange(i, i + enc_u64(v as int).len()) == enc_u64(v as int),
        i + enc_u64(v as int).len() < s.len() ==> !is_digit(
            s[i + enc_u64(v as int).len()],
        ),
    ensures
        sp_parse_u64(s, i) == Some((v, i + enc_u64(v as int).len())),
{
    let w = ndigits(v as int);
    lemma_ndigits_bound(v as int);
    lemma_pad_digits_shape(v as int, w);
    lemma_pow10_pos(w);
    assert(s.subrange(i, i + w)[0] == enc_u64(v as int)[0]);
    assert(is_digit(s[i]));
    lemma_scan_pad(s, i, v as int, w, 0);
    assert(sp_scan_u64(s, i, 0) == sp_scan_u64(s, i + w, v));
    assert(sp_scan_u64(s, i + w, v) == Some((v, i + w)));
}

// ---------------------------------------------------------------------
// Fixed-point numerals
// ---------------------------------------------------------------------

/// How many trailing zero digits to strip from a `w`-digit fraction,
/// always keeping at least one digit.
pub open spec fn strip_zeros(fr: int, w: int) -> int
    decreases w,
{
    if w <= 1 {
        0
    } else if fr % 10 == 0 {
        1 + strip_zeros(fr / 10, w - 1)
    } else {
        0
    }
}

/// Stripping trailing zeros keeps the value intact: the stripped digits
/// were zeros, and the remainder still fits the shorter width.
pub proof fn lemma_strip_zeros(fr: int, w: int)
    requires
        1 <= w,
        0 <= fr < pow10(w),
    ensures
        0 <= strip_zeros(fr, w) < w,
        fr % pow10(strip_zeros(fr, w)) == 0,
        0 <= fr / pow10(strip_zeros(fr, w)) < pow10(w - strip_zeros(fr, w)),
    decreases w,
{
    let z = strip_zeros(fr, w);
    if w > 1 && fr % 10 == 0 {
        let g = fr / 10;
        assert(fr == 10 * g + fr % 10);
        assert(fr == 10 * g);
        lemma_pow10_pos(w - 1);
        assert(pow10(w) == 10 * pow10(w - 1));
        assert(g < pow10(w - 1)) by (nonlinear_arith)
            requires fr == 10 * g && fr < 10 * pow10(w - 1);
        lemma_strip_zeros(g, w - 1);
        let z1 = strip_zeros(g, w - 1);
        let p = pow10(z1);
        lemma_pow10_pos(z1);
        assert(z == z1 + 1);
        assert(pow10(z) == 10 * p);
        let q = g / p;
        vstd::arithmetic::div_mod::lemma_fundamental_div_mod(g, p);
        assert(g == p * q);
        assert(q >= 0) by (nonlinear_arith)
            requires g == p * q && g >= 0 && p >= 1;
        assert(fr == q * (10 * p)) by (nonlinear_arith)
            requires fr == 10 * g && g == p * q;
        vstd::arithmetic::div_mod::lemma_mod_multiples_basic(q, 10 * p);
        vstd::arithmetic::div_mod::lemma_div_by_multiple(q, 10 * p);
        assert(fr % pow10(z) == 0);
        assert(fr / pow10(z) == q);
        assert(q < pow10((w - 1) - z1));
    } else {
        assert(pow10(0) == 1);
        assert(fr % 1 == 0);
        assert(fr / 1 == fr);
    }
}

/// The fraction digits of `fr` (six implied places), trailing zeros
/// stripped.
pub open spec fn enc_frac(fr: int) -> Seq<char> {
    pad_digits(fr / pow10(strip_zeros(fr, 6)), 6 - strip_zeros(fr, 6))
}

/// The decimal numeral of a fixed-point number counting millionths:
/// an optional minus sign, the whole part, and when the fraction is not
/// zero a point followed by its digits without trailing zeros.
pub open spec fn enc_fixed(v: int) -> Seq<char> {
    let m = if v < 0 { -v } else { v };
    let ip = m / 1_000_000;
    let fr = m % 1_000_000;
    (if v < 0 { seq!['-'] } else { Seq::<char>::empty() }) + enc_u64(ip) + (if fr == 0 {
        Seq::<char>::empty()
    } else {
        seq!['.'] + enc_frac(fr)
    })
}

/// Scans up to six fraction digits, accumulating their value and count.
pub open spec fn sp_scan_frac(s: Seq<char>, i: int, acc: int, cnt: int) -> Option<(int, int, int)>
    decreases s.len() - i,
{
    if 0 <= i < s.len() && is_digit(s[i]) {
        if cnt >= 6 {
            None
        } else {
            sp_scan_frac(s, i + 1, acc * 10 + dval(s[i]), cnt + 1)
        }
    } else {
        Some((acc, cnt, i))
    }
}

/// Parses a fixed-point numeral at `i`: optional minus sign, a whole
/// part, and an optional point with one to six fraction digits. Fails
/// when the magnitude is beyond [`FIXED_LIMIT`] millionths.
pub open spec fn sp_parse_fixed(s: Seq<char>, i: int) -> Option<(i64, int)> {
    let neg = 0 <= i < s.len() && s[i] == '-';
    let j: int = if neg {
        i + 1
    } else {
        i
    };
    match sp_parse_u64(s, j) {
        Option::None => Option::None,
        Option::Some((ip, j2)) => {
            if j2 < s.len() && s[j2] == '.' {
                if j2 + 1 < s.len() && is_digit(s[j2 + 1]) {
                    match sp_scan_frac(s, j2 + 1, 0, 0) {
                        Option::None => Option::None,
                        Option::Some((fv, cnt, j3)) => {
                            let m = ip as int * 1_000_000 + fv * pow10(6 - cnt);
                            if m <= FIXED_LIMIT as int {
                                Option::Some(((if neg { -m } else { m }) as i64, j3))
                            } else {
                                Option::None
                            }
                        },
                    }
                } else {
                    Option::None
                }
            } else {
                let m = ip as int * 1_000_000;
                if m <= FIXED_LIMIT as int {
                    Option::Some(((if neg { -m } else { m }) as i64, j2))
                } else {
                    Option::None
                }
            }
        },
    }
}

/// Scanning across padded fraction digits accumulates their value and
/// count.
pub proof fn lemma_scan_frac_pad(s: Seq<char>, i: int, v: int, w: int, acc: int, cnt: int)
    requires
        0 <= v,
        1 <= w,
        v < pow10(w),
        0 <= cnt,
        cnt + w <= 6,
        0 <= i,
        i + w <= s.len(),
        s.subrange(i, i + w) == pad_digits(v, w),
    ensures
        sp_scan_frac(s, i, acc, cnt) == sp_scan_frac(s, i + w, acc * pow10(w) + v, cnt + w),
    decreases w,
{
    lemma_pad_digits_shape(v, w);
    lemma_pow10_pos(w - 1);
    let p = pad_digits(v, w);
    if w == 1 {
        assert(pow10(0) == 1);
        assert(pow10(1) == 10);
        assert(v % 10 == v && v / 10 == 0);
        assert(p == Seq::<char>::empty().push(digit(v)));
        assert(s[i] == p[0]);
        assert(is_digit(s[i]) && dval(s[i]) == v);
    } else {
        let hi = v / 10;
        let lo = v % 10;
        let q = pad_digits(hi, w - 1);
        lemma_pad_digits_shape(hi, w - 1);
        assert(pow10(w) == 10 * pow10(w - 1));
        assert(10 * hi <= v);
        assert(hi < pow10(w - 1)) by (nonlinear_arith)
            requires 10 * hi <= v && v < 10 * pow10(w - 1);
        assert(s.subrange(i, i + (w - 1)) =~= q) by {
            assert forall|t: int| 0 <= t < w - 1 implies s.subrange(i, i + (w - 1))[t] == q[t] by {
                assert(s.subrange(i, i + w)[t] == p[t]);
                assert(p[t] == q[t]);
            }
        }
        lemma_scan_frac_pad(s, i, hi, w - 1, acc, cnt);
        let acc1: int = acc * pow10(w - 1) + hi;
        assert(acc1 * 10 + lo == acc * pow10(w) + v) by (nonlinear_arith)
            requires
                acc1 == acc * pow10(w - 1) + hi && pow10(w) == 10 * pow10(w - 1) && hi == v / 10
                    && lo == v % 10 && v >= 0;
        assert(s.subrange(i, i + w)[w - 1] == p[w - 1]);
        assert(p[w - 1] == digit(lo));
        assert(is_digit(s[i + w - 1]) && dval(s[i + w - 1]) == lo);
    }
}

/// Parsing the numeral of a fixed-point `v`, followed by anything but a
/// digit or a point, yields `v` and stops right after it.
pub proof fn lemma_parse_enc_fixed(s: Seq<char>, i: int, v: i64)
    requires
        -FIXED_LIMIT <= v <= FIXED_LIMIT,
        0 <= i,
        i + enc_fixed(v as int).len() <= s.len(),
        s.subrange(i, i + enc_fixed(v as int).len()) == enc_fixed(v as int),
        i + enc_fixed(v as int).len() < s.len() ==> !is_digit(s[i + enc_fixed(v as int).len()])
            && s[i + enc_fixed(v as int).len()] != '.',
    ensures
        sp_parse_fixed(s, i) == Some((v, i + enc_fixed(v as int).len())),
{
    let e = enc_fixed(v as int);
    let m = if v < 0 { -(v as int) } else { v as int };
    let ip = m / 1_000_000;
    let fr = m % 1_000_000;
    let j: int = if v < 0 { i + 1 } else { i };
    let eu = enc_u64(ip);
    lemma_ndigits_bound(ip);
    lemma_pad_digits_shape(ip, ndigits(ip));
    // the sign, if any
    if v < 0 {
        assert(e[0] == '-');
        assert(s[i] == '-');
    } else {
        assert(e[0] == eu[0]);
        assert(is_digit(eu[0]));
        assert(s[i] == eu[0]);
        assert(s[i] != '-');
    }
    // the whole part
    assert(s.subrange(j, j + eu.len()) =~= eu) by {
        assert forall|t: int| 0 <= t < eu.len() implies s.subrange(j, j + eu.len())[t] == eu[t] by {
            assert(s.subrange(i, i + e.len())[j - i + t] == e[j - i + t]);
            if v < 0 {
                assert(e[1 + t] == eu[t]);
            } else {
                assert(e[t] == eu[t]);
            }
        }
    }
    if fr == 0 {
        assert(e.len() == (j - i) + eu.len());
        if i + e.len() < s.len() {
            assert(!is_digit(s[j + eu.len()]));
        }
        lemma_parse_enc_u64(s, j, ip as u64);
        assert(ip * 1_000_000 + fr == m);
        assert(ip as u64 as int * 1_000_000 <= FIXED_LIMIT as int);
        if i + e.len() < s.len() {
            assert(s[j + eu.len()] != '.');
        }
        assert(sp_parse_fixed(s, i) == Some((v, i + e.len())));
    } else {
        let z = strip_zeros(fr, 6);
        assert(pow10(6) == 1_000_000) by {
            assert(pow10(0) == 1);
            assert(pow10(1) == 10);
            assert(pow10(2) == 100);
            assert(pow10(3) == 1000);
            assert(pow10(4) == 10000);
            assert(pow10(5) == 100000);
            assert(pow10(6) == 1000000);
        }
        lemma_strip_zeros(fr, 6);
        let dv = fr / pow10(z);
        let wd = 6 - z;
        let ef = pad_digits(dv, wd);
        lemma_pad_digits_shape(dv, wd);
        assert(e.len() == (j - i) + eu.len() + 1 + wd);
        // the numeral after the whole part is a point
        assert(e[(j - i) + eu.len()] == '.');
        assert(s[j + eu.len()] == '.');
        lemma_parse_enc_u64(s, j, ip as u64);
        // the fraction digits
        let f0 = j + eu.len() + 1;
        assert(s.subrange(f0, f0 + wd) =~= ef) by {
            assert forall|t: int| 0 <= t < wd implies s.subrange(f0, f0 + wd)[t] == ef[t] by {
                assert(s.subrange(i, i + e.len())[f0 - i + t] == e[f0 - i + t]);
            }
        }
        lemma_scan_frac_pad(s, f0, dv, wd, 0, 0);
        assert(s[f0] == ef[0]);
        assert(is_digit(s[f0]));
        assert(sp_scan_frac(s, f0, 0, 0) == sp_scan_frac(s, f0 + wd, dv, wd));
        if i + e.len() < s.len() {
            assert(!is_digit(s[f0 + wd]));
        }
        assert(sp_scan_frac(s, f0 + wd, dv, wd) == Some((dv, wd, f0 + wd)));
        // the value is rebuilt exactly
        lemma_pow10_pos(z);
        vstd::arithmetic::div_mod::lemma_fundamental_div_mod(fr, pow10(z));
        assert(dv * pow10(z) == fr) by (nonlinear_arith)
            requires fr == pow10(z) * dv + fr % pow10(z) && fr % pow10(z) == 0;
        assert(pow10(6 - wd) == pow10(z));
        assert(ip as int * 1_000_000 + dv * pow10(z) == m);
        assert(m <= FIXED_LIMIT as int);
        assert(sp_parse_fixed(s, i) == Some((v, i + e.len())));
    }
}


// ---------------------------------------------------------------------
// Strings
// ---------------------------------------------------------------------

/// True for characters the log can carry: anything from space upward,
/// plus the three common control characters that have short escapes.
pub open spec fn char_ok(c: char) -> bool {
    c as u32 >= 32 || c == '\n' || c == '\r' || c == '\t'
}

/// True when every character of the string is one the log can carry.
pub open spec fn str_ok(s: Seq<char>) -> bool {
    forall|i: int| 0 <= i < s.len() ==> char_ok(#[trigger] s[i])
}

/// The escape of one character: quote, backslash and the three control
/// characters get two-character escapes; anything else stands as is.
pub open spec fn esc_char(c: char) -> Seq<char> {
    if c == '"' {
        seq!['\\', '"']
    } else if c == '\\' {
        seq!['\\', '\\']
    } else if c == '\n' {
        seq!['\\', 'n']
    } else if c == '\r' {
        seq!['\\', 'r']
    } else if c == '\t' {
        seq!['\\', 't']
    } else {
        seq![c]
    }
}

/// The escaped body of a string.
pub open spec fn enc_str_chars(s: Seq<char>) -> Seq<char>
    decreases s.len(),
{
    if s.len() == 0 {
        Seq::<char>::empty()
    } else {
        esc_char(s[0]) + enc_str_chars(s.drop_first())
    }
}

/// A quoted, escaped string token.
pub open spec fn enc_string(s: Seq<char>) -> Seq<char> {
    seq!['"'] + enc_str_chars(s) + seq!['"']
}

/// Appending one character to a string appends its escape to the body.
pub proof fn lemma_enc_str_snoc(s: Seq<char>, c: char)
    ensures
        enc_str_chars(s.push(c)) == enc_str_chars(s) + esc_char(c),
    decreases s.len(),
{
    if s.len() == 0 {
        assert(s.push(c).drop_first() =~= Seq::<char>::empty());
        assert(esc_char(c) + Seq::<char>::empty() =~= esc_char(c));
        assert(enc_str_chars(s.push(c)) == esc_char(s.push(c)[0]) + enc_str_chars(
            s.push(c).drop_first(),
        ));
        assert(s.push(c)[0] == c);
        assert(enc_str_chars(s) + esc_char(c) =~= esc_char(c));
    } else {
        assert(s.push(c).drop_first() =~= s.drop_first().push(c));
        lemma_enc_str_snoc(s.drop_first(), c);
        assert(enc_str_chars(s.push(c)) == esc_char(s[0]) + (enc_str_chars(s.drop_first())
            + esc_char(c)));
        assert(esc_char(s[0]) + (enc_str_chars(s.drop_first()) + esc_char(c)) =~= (esc_char(s[0])
            + enc_str_chars(s.drop_first())) + esc_char(c));
    }
}

/// Scans an escaped string body up to its closing quote, accumulating
/// the unescaped characters.
pub open spec fn sp_scan_str(s: Seq<char>, i: int, acc: Seq<char>) -> Option<(Seq<char>, int)>
    decreases s.len() - i,
{
    if !(0 <= i < s.len()) {
        None
    } else if s[i] == '"' {
        Some((acc, i + 1))
    } else if s[i] == '\\' {
        if i + 1 < s.len() {
            let e = s[i + 1];
            if e == '"' {
                sp_scan_str(s, i + 2, acc.push('"'))
            } else if e == '\\' {
                sp_scan_str(s, i + 2, acc.push('\\'))
            } else if e == 'n' {
                sp_scan_str(s, i + 2, acc.push('\n'))
            } else if e == 'r' {
                sp_scan_str(s, i + 2, acc.push('\r'))
            } else if e == 't' {
                sp_scan_str(s, i + 2, acc.push('\t'))
            } else {
                None
            }
        } else {
            None
        }
    } else if s[i] as u32 >= 32 {
        sp_scan_str(s, i + 1, acc.push(s[i]))
    } else {
        None
    }
}

/// Parses a quoted string token at `i`.
pub open spec fn sp_parse_string(s: Seq<char>, i: int) -> Option<(Seq<char>, int)> {
    if 0 <= i < s.len() && s[i] == '"' {
        sp_scan_str(s, i + 1, Seq::<char>::empty())
    } else {
        None
    }
}

/// Scanning across an escaped body accumulates exactly the original
/// characters.
pub proof fn lemma_scan_enc_str(s: Seq<char>, cs: Seq<char>, i: int, acc: Seq<char>)
    requires
        str_ok(cs),
        0 <= i,
        i + enc_str_chars(cs).len() <= s.len(),
        s.subrange(i, i + enc_str_chars(cs).len()) == enc_str_chars(cs),
    ensures
        sp_scan_str(s, i, acc) == sp_scan_str(s, i + enc_str_chars(cs).len(), acc + cs),
    decreases cs.len(),
{
    let e = enc_str_chars(cs);
    if cs.len() == 0 {
        assert(acc + cs =~= acc);
    } else {
        let c = cs[0];
        let rest = cs.drop_first();
        let ec = esc_char(c);
        let er = enc_str_chars(rest);
        assert(e == ec + er);
        assert(char_ok(c));
        assert forall|t: int| 0 <= t < ec.len() implies s[i + t] == ec[t] by {
            assert(s.subrange(i, i + e.len())[t] == e[t]);
            assert(e[t] == ec[t]);
        }
        let i2 = i + ec.len();
        assert(s.subrange(i2, i2 + er.len()) =~= er) by {
            assert forall|t: int| 0 <= t < er.len() implies s.subrange(i2, i2 + er.len())[t]
                == er[t] by {
                assert(s.subrange(i, i + e.len())[ec.len() + t] == e[ec.len() + t]);
                assert(e[ec.len() + t] == er[t]);
            }
        }
        // one character is consumed, escaped or not
        if c == '"' || c == '\\' || c == '\n' || c == '\r' || c == '\t' {
            assert(s[i + 0] == ec[0] && s[i + 1] == ec[1]);
            assert(s[i] == '\\');
            assert(sp_scan_str(s, i, acc) == sp_scan_str(s, i + 2, acc.push(c)));
        } else {
            assert(s[i + 0] == ec[0]);
            assert(s[i] == c);
            assert(c as u32 >= 32);
            assert(sp_scan_str(s, i, acc) == sp_scan_str(s, i + 1, acc.push(c)));
        }
        lemma_scan_enc_str(s, rest, i2, acc.push(c));
        assert(acc.push(c) + rest =~= acc + cs);
    }
}

/// Parsing the token of a storable string, wherever it stands, yields
/// the string and stops right after its closing quote.
pub proof fn lemma_parse_enc_string(s: Seq<char>, i: int, cs: Seq<char>)
    requires
        str_ok(cs),
        0 <= i,
        i + enc_string(cs).len() <= s.len(),
        s.subrange(i, i + enc_string(cs).len()) == enc_string(cs),
    ensures
        sp_parse_string(s, i) == Some((cs, i + enc_string(cs).len())),
{
    let e = enc_string(cs);
    let body = enc_str_chars(cs);
    assert(e.len() == body.len() + 2);
    assert(s.subrange(i, i + e.len())[0] == e[0]);
    assert(s[i] == '"');
    assert(s.subrange(i + 1, i + 1 + body.len()) =~= body) by {
        assert forall|t: int| 0 <= t < body.len() implies s.subrange(i + 1, i + 1 + body.len())[t]
            == body[t] by {
            assert(s.subrange(i, i + e.len())[1 + t] == e[1 + t]);
            assert(e[1 + t] == body[t]);
        }
    }
    lemma_scan_enc_str(s, cs, i + 1, Seq::<char>::empty());
    assert(Seq::<char>::empty() + cs =~= cs);
    assert(s.subrange(i, i + e.len())[e.len() - 1] == e[e.len() - 1]);
    assert(e[e.len() - 1] == '"');
    assert(s[i + 1 + body.len()] == '"');
    assert(sp_scan_str(s, i + 1 + body.len(), cs) == Some((cs, i + e.len())));
}


// ---------------------------------------------------------------------
// Character buffers
// ---------------------------------------------------------------------

/// Reads a string's characters into a vector.
///
/// Relies on str::chars and Iterator::collect from std: a string's view
/// is exactly its character sequence.
#[verifier::external_body]
fn str_chars(s: &str) -> (r: Vec<char>)
    ensures
        r@ == s@,
{
    s.chars().collect()
}

/// Builds a string from a vector of characters.
///
/// Relies on Iterator::collect for String from std: a string's view is
/// exactly its character sequence.
#[verifier::external_body]
fn chars_string(v: &Vec<char>) -> (r: String)
    ensures
        r@ == v@,
{
    v.iter().collect()
}

/// Reads a line of text into a character buffer.
pub fn line_chars(s: &str) -> (r: Vec<char>)
    ensures
        r@ == s@,
{
    str_chars(s)
}

/// Appends a literal's characters to the output.
fn push_lit(out: &mut Vec<char>, lit: &str)
    ensures
        final(out)@ == old(out)@ + lit@,
{
    let cs = str_chars(lit);
    let mut i: usize = 0;
    while i < cs.len()
        invariant
            cs@ == lit@,
            0 <= i <= cs@.len(),
            out@ == old(out)@ + cs@.subrange(0, i as int),
        decreases cs@.len() - i,
    {
        out.push(cs[i]);
        proof {
            assert(out@ =~= old(out)@ + cs@.subrange(0, (i + 1) as int));
        }
        i = i + 1;
    }
    proof {
        assert(out@ =~= old(out)@ + lit@);
    }
}

/// Matches a literal at position `i`, returning the position after it.
fn expect_str(s: &Vec<char>, i: usize, lit: &str) -> (r: Option<usize>)
    requires
        i <= s@.len(),
    ensures
        match r {
            Some(j) => j == i + lit@.len() && j <= s@.len() && s@.subrange(i as int, j as int)
                == lit@,
            None => !(i + lit@.len() <= s@.len() && s@.subrange(
                i as int,
                i + lit@.len(),
            ) == lit@),
        },
{
    let cs = str_chars(lit);
    let slen = s.len();
    if cs.len() > slen - i {
        proof {
            assert(!(i + lit@.len() <= s@.len()));
        }
        return None;
    }
    let mut j: usize = 0;
    while j < cs.len()
        invariant
            cs@ == lit@,
            0 <= j <= cs@.len(),
            slen == s@.len(),
            i + cs@.len() <= slen,
            forall|t: int| 0 <= t < j ==> s@[i + t] == cs@[t],
        decreases cs@.len() - j,
    {
        if s[i + j] != cs[j] {
            proof {
                assert(s@.subrange(i as int, i + lit@.len())[j as int] == s@[i + j]);
            }
            return None;
        }
        j = j + 1;
    }
    proof {
        assert(s@.subrange(i as int, i + lit@.len()) =~= lit@);
    }
    Some(i + cs.len())
}

// ---------------------------------------------------------------------
// Primitive emitters
// ---------------------------------------------------------------------

/// Writes a number as its shortest decimal numeral.
pub fn decimal_digits(v: u64) -> (r: String)
    ensures
        r@ == enc_u64(v as int),
{
    let mut out: Vec<char> = Vec::new();
    push_u64(&mut out, v);
    chars_string(&out)
}

/// Appends the shortest decimal numeral of `v`.
fn push_u64(out: &mut Vec<char>, v: u64)
    ensures
        final(out)@ == old(out)@ + enc_u64(v as int),
    decreases v,
{
    if v < 10 {
        out.push(write_digit(v));
        proof {
            assert(ndigits(v as int) == 1);
            assert(v as int % 10 == v as int && v as int / 10 == 0);
            assert(pad_digits(v as int, 1) == pad_digits(0, 0).push(digit(v as int)));
            assert(pad_digits(0, 0) == Seq::<char>::empty());
            assert(enc_u64(v as int) =~= Seq::<char>::empty().push(digit(v as int)));
            assert(out@ =~= old(out)@ + enc_u64(v as int));
        }
    } else {
        push_u64(out, v / 10);
        out.push(write_digit(v % 10));
        proof {
            lemma_ndigits_bound(v as int / 10);
            let w = ndigits(v as int);
            assert(w == 1 + ndigits(v as int / 10));
            assert(pad_digits(v as int, w) == pad_digits(v as int / 10, w - 1).push(
                digit(v as int % 10),
            ));
            assert(ndigits(v as int / 10) == w - 1);
            assert(pad_digits(v as int / 10, w - 1) == enc_u64(v as int / 10));
            assert(out@ =~= old(out)@ + enc_u64(v as int));
        }
    }
}

/// Appends the digits of `v`, zero-padded on the left to width `w`.
fn push_pad(out: &mut Vec<char>, v: u64, w: usize)
    requires
        v < pow10(w as int),
    ensures
        final(out)@ == old(out)@ + pad_digits(v as int, w as int),
    decreases w,
{
    if w == 0 {
        proof {
            assert(out@ =~= old(out)@ + pad_digits(v as int, 0));
        }
    } else {
        proof {
            lemma_pow10_pos(w as int - 1);
            assert(pow10(w as int) == 10 * pow10(w as int - 1));
            assert(10 * (v as int / 10) <= v as int);
            assert(v as int / 10 < pow10(w as int - 1)) by (nonlinear_arith)
                requires 10 * (v as int / 10) <= (v as int) && (v as int) < 10 * pow10(w as int - 1);
        }
        push_pad(out, v / 10, w - 1);
        out.push(write_digit(v % 10));
        proof {
            assert(out@ =~= old(out)@ + pad_digits(v as int, w as int));
        }
    }
}

/// Appends the decimal numeral of a fixed-point number counting
/// millionths.
fn push_fixed(out: &mut Vec<char>, v: i64)
    requires
        -FIXED_LIMIT <= v <= FIXED_LIMIT,
    ensures
        final(out)@ == old(out)@ + enc_fixed(v as int),
{
    let m: u64 = if v < 0 {
        out.push('-');
        (-v) as u64
    } else {
        v as u64
    };
    let ghost mid = out@;
    let ip: u64 = m / 1_000_000;
    let fr: u64 = m % 1_000_000;
    push_u64(out, ip);
    if fr > 0 {
        out.push('.');
        let ghost mid2 = out@;
        // strip trailing zeros
        let mut g: u64 = fr;
        let mut z: usize = 0;
        proof {
            assert(pow10(0) == 1);
            assert(pow10(1) == 10);
            assert(pow10(2) == 100);
            assert(pow10(3) == 1000);
            assert(pow10(4) == 10000);
            assert(pow10(5) == 100000);
            assert(pow10(6) == 1000000);
        }
        while z < 5 && g % 10 == 0
            invariant
                0 <= z <= 5,
                g == fr as int / pow10(z as int),
                fr as int % pow10(z as int) == 0,
                1 <= fr < 1_000_000,
                g < pow10(6 - z as int),
                strip_zeros(fr as int, 6) == z + strip_zeros(g as int, 6 - z as int),
                pow10(6) == 1_000_000,
            decreases 5 - z,
        {
            proof {
                lemma_pow10_pos(z as int);
                let p = pow10(z as int);
                let g0 = g as int;
                vstd::arithmetic::div_mod::lemma_fundamental_div_mod(fr as int, p);
                assert(fr as int == p * g0);
                assert(g0 % 10 == 0);
                let g1 = g0 / 10;
                assert(g0 == 10 * g1);
                assert(fr as int == (10 * p) * g1) by (nonlinear_arith)
                    requires fr as int == p * g0 && g0 == 10 * g1;
                assert(g1 >= 0);
                vstd::arithmetic::div_mod::lemma_mod_multiples_basic(g1, 10 * p);
                vstd::arithmetic::div_mod::lemma_div_by_multiple(g1, 10 * p);
                assert(fr as int % (10 * p) == 0) by {
                    assert(fr as int == g1 * (10 * p)) by (nonlinear_arith)
                        requires fr as int == (10 * p) * g1;
                }
                assert(fr as int / (10 * p) == g1) by {
                    assert(fr as int == g1 * (10 * p)) by (nonlinear_arith)
                        requires fr as int == (10 * p) * g1;
                }
                assert(pow10(z as int + 1) == 10 * p);
                assert(10 * g1 <= g0);
                assert(g1 < pow10(6 - (z as int + 1))) by (nonlinear_arith)
                    requires 10 * g1 <= g0 && g0 < 10 * pow10(6 - (z as int + 1));
            }
            g = g / 10;
            z = z + 1;
        }
        proof {
            assert(strip_zeros(g as int, 6 - z as int) == 0);
            assert(strip_zeros(fr as int, 6) == z as int);
        }
        push_pad(out, g, 6 - z);
        proof {
            assert(out@ == mid2 + enc_frac(fr as int));
        }
    }
    proof {
        let vi = v as int;
        let mi = if vi < 0 { -vi } else { vi };
        assert(mi == m as int);
        assert(ip as int == mi / 1_000_000 && fr as int == mi % 1_000_000);
        if vi < 0 {
            assert(mid =~= old(out)@ + seq!['-']);
        } else {
            assert(mid =~= old(out)@ + Seq::<char>::empty());
        }
        if fr == 0 {
            assert(out@ =~= (old(out)@ + (if vi < 0 { seq!['-'] } else { Seq::<char>::empty() }))
                + enc_u64(mi / 1_000_000));
            assert(out@ =~= old(out)@ + enc_fixed(vi));
        } else {
            assert(out@ =~= old(out)@ + enc_fixed(vi));
        }
    }
}

/// Appends the quoted, escaped token of a storable string.
fn push_string(out: &mut Vec<char>, s: &String)
    requires
        str_ok(s@),
    ensures
        final(out)@ == old(out)@ + enc_string(s@),
{
    let cs = str_chars(s.as_str());
    out.push('"');
    let mut i: usize = 0;
    while i < cs.len()
        invariant
            cs@ == s@,
            str_ok(s@),
            0 <= i <= cs@.len(),
            out@ == old(out)@ + seq!['"'] + enc_str_chars(s@.subrange(0, i as int)),
        decreases cs@.len() - i,
    {
        let c = cs[i];
        let ghost pre = s@.subrange(0, i as int);
        if c == '"' {
            out.push('\\');
            out.push('"');
        } else if c == '\\' {
            out.push('\\');
            out.push('\\');
        } else if c == '\n' {
            out.push('\\');
            out.push('n');
        } else if c == '\r' {
            out.push('\\');
            out.push('r');
        } else if c == '\t' {
            out.push('\\');
            out.push('t');
        } else {
            out.push(c);
        }
        proof {
            lemma_enc_str_snoc(pre, c);
            assert(pre.push(c) =~= s@.subrange(0, (i + 1) as int));
            assert(out@ =~= old(out)@ + seq!['"'] + enc_str_chars(s@.subrange(0, (i + 1) as int)));
        }
        i = i + 1;
    }
    out.push('"');
    proof {
        assert(s@.subrange(0, s@.len() as int) =~= s@);
        assert(out@ =~= old(out)@ + enc_string(s@));
    }
}

// ---------------------------------------------------------------------
// Primitive parsers
// ---------------------------------------------------------------------

/// Parses an unsigned decimal numeral.
fn p_u64(s: &Vec<char>, i: usize) -> (r: Option<(u64, usize)>)
    requires
        i <= s@.len(),
    ensures
        match r {
            Some((v, j)) => sp_parse_u64(s@, i as int) == Some((v, j as int)) && i < j <= s@.len(),
            None => sp_parse_u64(s@, i as int) is None,
        },
{
    if i >= s.len() {
        return None;
    }
    let d0 = read_digit(s[i]);
    if d0 >= 10 {
        return None;
    }
    let mut acc: u64 = 0;
    let mut j: usize = i;
    while j < s.len() && read_digit(s[j]) < 10
        invariant
            i <= j <= s@.len(),
            sp_scan_u64(s@, i as int, 0) == sp_scan_u64(s@, j as int, acc),
        decreases s@.len() - j,
    {
        let d = read_digit(s[j]);
        if acc > (u64::MAX - d) / 10 {
            proof {
                assert(acc as int * 10 + dval(s@[j as int]) > u64::MAX as int) by (nonlinear_arith)
                    requires
                        acc as int > (u64::MAX as int - dval(s@[j as int])) / 10
                            && 0 <= dval(s@[j as int]) <= 9
                            && u64::MAX as int - dval(s@[j as int]) == 10 * ((u64::MAX as int
                            - dval(s@[j as int])) / 10) + (u64::MAX as int - dval(
                            s@[j as int],
                        )) % 10
                            && 0 <= (u64::MAX as int - dval(s@[j as int])) % 10 < 10;
            }
            return None;
        }
        proof {
            assert(acc as int * 10 + dval(s@[j as int]) <= u64::MAX as int) by (nonlinear_arith)
                requires
                    acc as int <= (u64::MAX as int - dval(s@[j as int])) / 10
                        && 0 <= dval(s@[j as int]) <= 9
                        && u64::MAX as int - dval(s@[j as int]) == 10 * ((u64::MAX as int - dval(
                        s@[j as int],
                    )) / 10) + (u64::MAX as int - dval(s@[j as int])) % 10
                        && 0 <= (u64::MAX as int - dval(s@[j as int])) % 10 < 10;
        }
        acc = acc * 10 + d;
        j = j + 1;
    }
    Some((acc, j))
}

/// Exec table of small powers of ten.
fn pw10(k: usize) -> (r: u64)
    requires
        k <= 6,
    ensures
        r == pow10(k as int),
{
    proof {
        assert(pow10(0) == 1);
        assert(pow10(1) == 10);
        assert(pow10(2) == 100);
        assert(pow10(3) == 1000);
        assert(pow10(4) == 10000);
        assert(pow10(5) == 100000);
        assert(pow10(6) == 1000000);
    }
    if k == 0 {
        1
    } else if k == 1 {
        10
    } else if k == 2 {
        100
    } else if k == 3 {
        1000
    } else if k == 4 {
        10000
    } else if k == 5 {
        100000
    } else {
        1000000
    }
}

/// Parses a fixed-point decimal numeral.
#[verifier::loop_isolation(false)]
fn p_fixed(s: &Vec<char>, i: usize) -> (r: Option<(i64, usize)>)
    requires
        i <= s@.len(),
    ensures
        match r {
            Some((v, j)) => sp_parse_fixed(s@, i as int) == Some((v, j as int)) && i < j
                <= s@.len(),
            None => sp_parse_fixed(s@, i as int) is None,
        },
{
    let neg = i < s.len() && s[i] == '-';
    let j0: usize = if neg {
        i + 1
    } else {
        i
    };
    let ipj = p_u64(s, j0);
    match ipj {
        None => None,
        Some((ip, j2)) => {
            if j2 < s.len() && s[j2] == '.' {
                if j2 + 1 < s.len() && read_digit(s[j2 + 1]) < 10 {
                    // scan up to six fraction digits
                    let mut acc: u64 = 0;
                    let mut cnt: usize = 0;
                    let mut j3: usize = j2 + 1;
                    while j3 < s.len() && read_digit(s[j3]) < 10
                        invariant
                            j2 + 1 <= j3 <= s@.len(),
                            0 <= cnt <= 6,
                            acc < pow10(cnt as int),
                            sp_scan_frac(s@, j2 + 1, 0, 0) == sp_scan_frac(
                                s@,
                                j3 as int,
                                acc as int,
                                cnt as int,
                            ),
                        decreases s@.len() - j3,
                    {
                        if cnt == 6 {
                            proof {
                                assert(sp_scan_frac(s@, j2 + 1, 0, 0) is None);
                            }
                            return None;
                        } else {
                            let d = read_digit(s[j3]);
                            proof {
                                assert(pow10(cnt as int + 1) == 10 * pow10(cnt as int));
                                assert(acc as int * 10 + dval(s@[j3 as int]) < pow10(
                                    cnt as int + 1,
                                )) by (nonlinear_arith)
                                    requires
                                        (acc as int) < pow10(cnt as int) && 0 <= dval(
                                            s@[j3 as int],
                                        ) <= 9 && pow10(cnt as int + 1) == 10 * pow10(cnt as int);
                                assert(pow10(cnt as int + 1) <= pow10(6)) by {
                                    lemma_pow10_increase(cnt as int + 1, 6);
                                }
                                assert(pow10(6) == 1000000) by {
                                    assert(pow10(0) == 1);
                                    assert(pow10(1) == 10);
                                    assert(pow10(2) == 100);
                                    assert(pow10(3) == 1000);
                                    assert(pow10(4) == 10000);
                                    assert(pow10(5) == 100000);
                                }
                            }
                            acc = acc * 10 + d;
                            cnt = cnt + 1;
                            j3 = j3 + 1;
                        }
                    }
                    // scale and bound
                    proof {
                        lemma_pow10_increase(cnt as int, 6);
                        lemma_pow10_pos(6 - cnt as int);
                        assert(pow10(6 - cnt as int) <= pow10(6)) by {
                            lemma_pow10_increase(6 - cnt as int, 6);
                        }
                        assert(pow10(6) == 1000000) by {
                            assert(pow10(0) == 1);
                            assert(pow10(1) == 10);
                            assert(pow10(2) == 100);
                            assert(pow10(3) == 1000);
                            assert(pow10(4) == 10000);
                            assert(pow10(5) == 100000);
                        }
                        assert(acc as int * pow10(6 - cnt as int) <= 1000000 * 1000000)
                            by (nonlinear_arith)
                            requires
                                0 <= acc as int <= 1000000 && 0 <= pow10(6 - cnt as int)
                                    <= 1000000;
                    }
                    let scaled: u64 = acc * pw10(6 - cnt);
                    let m: u128 = (ip as u128) * 1_000_000 + (scaled as u128);
                    if m <= FIXED_LIMIT as u128 {
                        let mv: i64 = m as i64;
                        if neg {
                            Some((-mv, j3))
                        } else {
                            Some((mv, j3))
                        }
                    } else {
                        None
                    }
                } else {
                    None
                }
            } else {
                let m: u128 = (ip as u128) * 1_000_000;
                if m <= FIXED_LIMIT as u128 {
                    let mv: i64 = m as i64;
                    if neg {
                        Some((-mv, j2))
                    } else {
                        Some((mv, j2))
                    }
                } else {
                    None
                }
            }
        },
    }
}

/// `pow10` grows with its exponent.
pub proof fn lemma_pow10_increase(a: int, b: int)
    requires
        a <= b,
    ensures
        pow10(a) <= pow10(b),
    decreases b - a,
{
    if a < b {
        lemma_pow10_increase(a, b - 1);
        lemma_pow10_pos(b - 1);
    }
}

/// Parses a quoted string token into its unescaped characters.
fn p_string(s: &Vec<char>, i: usize) -> (r: Option<(Vec<char>, usize)>)
    requires
        i <= s@.len(),
    ensures
        match r {
            Some((cs, j)) => sp_parse_string(s@, i as int) == Some((cs@, j as int)) && i < j
                <= s@.len(),
            None => sp_parse_string(s@, i as int) is None,
        },
{
    if !(i < s.len() && s[i] == '"') {
        return None;
    }
    let mut acc: Vec<char> = Vec::new();
    let mut j: usize = i + 1;
    loop
        invariant
            i + 1 <= j <= s@.len(),
            sp_parse_string(s@, i as int) == sp_scan_str(s@, j as int, acc@),
        decreases s@.len() - j,
    {
        if j >= s.len() {
            return None;
        }
        let c = s[j];
        if c == '"' {
            return Some((acc, j + 1));
        } else if c == '\\' {
            if j + 1 >= s.len() {
                return None;
            }
            let e = s[j + 1];
            if e == '"' {
                acc.push('"');
            } else if e == '\\' {
                acc.push('\\');
            } else if e == 'n' {
                acc.push('\n');
            } else if e == 'r' {
                acc.push('\r');
            } else if e == 't' {
                acc.push('\t');
            } else {
                return None;
            }
            j = j + 2;
        } else if c as u32 >= 32 {
            acc.push(c);
            j = j + 1;
        } else {
            return None;
        }
    }
}


// ---------------------------------------------------------------------
// Record well-formedness and field equality up to views
// ---------------------------------------------------------------------

/// True when every fixed-point component fits the numeral range.
pub open spec fn wf_i64s(v: Seq<i64>) -> bool {
    forall|k: int| 0 <= k < v.len() ==> -FIXED_LIMIT <= #[trigger] v[k] <= FIXED_LIMIT
}

/// True when an edge's type string is storable.
pub open spec fn wf_edge(e: Edge) -> bool {
    str_ok(e.edge_type@)
}

/// True when every edge of the sequence is storable.
pub open spec fn wf_edges(v: Seq<Edge>) -> bool {
    forall|k: int| 0 <= k < v.len() ==> wf_edge(#[trigger] v[k])
}

/// True when every string of the sequence is storable.
pub open spec fn wf_strings(v: Seq<String>) -> bool {
    forall|k: int| 0 <= k < v.len() ==> str_ok((#[trigger] v[k])@)
}

/// True when every field of the node fits the log's format.
pub open spec fn wf_node(n: Node) -> bool {
    str_ok(n.label@) && wf_i64s(n.embedding@) && wf_edges(n.edges@) && wf_strings(n.rule_tags@)
}

/// True when every field of the decision fits the log's format.
pub open spec fn wf_decision(d: DecisionRecord) -> bool {
    &&& -FIXED_LIMIT <= d.score <= FIXED_LIMIT
    &&& match d.notes {
        Option::Some(sv) => str_ok(sv@),
        Option::None => true,
    }
}

/// True when every field of the record fits the log's format.
pub open spec fn wf_record(r: WalRecord) -> bool {
    match r {
        WalRecord::Node { data } => wf_node(data),
        WalRecord::Edge { from, to, edge_type } => str_ok(edge_type@),
        WalRecord::Embedding { id, vec } => wf_i64s(vec@),
        WalRecord::Decision { data } => wf_decision(data),
    }
}

/// Two edges agree on every field, comparing strings by their
/// characters.
pub open spec fn edge_like(a: Edge, b: Edge) -> bool {
    a.from == b.from && a.to == b.to && a.edge_type@ == b.edge_type@
}

/// Two edge sequences agree element by element.
pub open spec fn edges_like(a: Seq<Edge>, b: Seq<Edge>) -> bool {
    a.len() == b.len() && forall|k: int| 0 <= k < a.len() ==> edge_like(
        #[trigger] a[k],
        #[trigger] b[k],
    )
}

/// Two string sequences agree element by element.
pub open spec fn strings_like(a: Seq<String>, b: Seq<String>) -> bool {
    a.len() == b.len() && forall|k: int| 0 <= k < a.len() ==> (#[trigger] a[k])@ == (
    #[trigger] b[k])@
}

/// Two optional strings agree, comparing by characters.
pub open spec fn opt_string_like(a: Option<String>, b: Option<String>) -> bool {
    match (a, b) {
        (Option::None, Option::None) => true,
        (Option::Some(x), Option::Some(y)) => x@ == y@,
        _ => false,
    }
}

/// Two nodes agree on every field.
pub open spec fn node_like(a: Node, b: Node) -> bool {
    &&& a.id == b.id
    &&& a.label@ == b.label@
    &&& a.embedding@ == b.embedding@
    &&& edges_like(a.edges@, b.edges@)
    &&& a.timestamp == b.timestamp
    &&& a.agent_id == b.agent_id
    &&& strings_like(a.rule_tags@, b.rule_tags@)
}

/// Two decision records agree on every field.
pub open spec fn dec_like(a: DecisionRecord, b: DecisionRecord) -> bool {
    &&& a.id == b.id
    &&& a.agent_id == b.agent_id
    &&& a.created_at == b.created_at
    &&& a.root_node == b.root_node
    &&& a.path@ == b.path@
    &&& a.score == b.score
    &&& opt_string_like(a.notes, b.notes)
}

/// Two log records agree on their kind and every field.
pub open spec fn rec_like(a: WalRecord, b: WalRecord) -> bool {
    match (a, b) {
        (WalRecord::Node { data: x }, WalRecord::Node { data: y }) => node_like(x, y),
        (
            WalRecord::Edge { from: f1, to: t1, edge_type: e1 },
            WalRecord::Edge { from: f2, to: t2, edge_type: e2 },
        ) => f1 == f2 && t1 == t2 && e1@ == e2@,
        (
            WalRecord::Embedding { id: i1, vec: v1 },
            WalRecord::Embedding { id: i2, vec: v2 },
        ) => i1 == i2 && v1@ == v2@,
        (WalRecord::Decision { data: x }, WalRecord::Decision { data: y }) => dec_like(x, y),
        _ => false,
    }
}

// ---------------------------------------------------------------------
// Record encoders
// ---------------------------------------------------------------------

/// The kind string of a record.
pub open spec fn kind_of(r: WalRecord) -> Seq<char> {
    match r {
        WalRecord::Node { .. } => seq!['n', 'o', 'd', 'e'],
        WalRecord::Edge { .. } => seq!['e', 'd', 'g', 'e'],
        WalRecord::Embedding { .. } => seq!['e', 'm', 'b', 'e', 'd', 'd', 'i', 'n', 'g'],
        WalRecord::Decision { .. } => seq!['d', 'e', 'c', 'i', 's', 'i', 'o', 'n'],
    }
}

/// The elements of a list of whole numbers from the first one on,
/// comma-separated, with the closing bracket.
pub open spec fn enc_u64_items(v: Seq<u64>) -> Seq<char>
    decreases v.len(),
{
    if v.len() <= 1 {
        enc_u64(v[0] as int) + seq![']']
    } else {
        enc_u64(v[0] as int) + (seq![','] + enc_u64_items(v.drop_first()))
    }
}

/// A bracketed list of whole numbers.
pub open spec fn enc_u64_list(v: Seq<u64>) -> Seq<char> {
    if v.len() == 0 {
        seq!['[', ']']
    } else {
        seq!['['] + enc_u64_items(v)
    }
}

/// The elements of a list of fixed-point numbers from the first one on,
/// comma-separated, with the closing bracket.
pub open spec fn enc_i64_items(v: Seq<i64>) -> Seq<char>
    decreases v.len(),
{
    if v.len() <= 1 {
        enc_fixed(v[0] as int) + seq![']']
    } else {
        enc_fixed(v[0] as int) + (seq![','] + enc_i64_items(v.drop_first()))
    }
}

/// A bracketed list of fixed-point numbers.
pub open spec fn enc_i64_list(v: Seq<i64>) -> Seq<char> {
    if v.len() == 0 {
        seq!['[', ']']
    } else {
        seq!['['] + enc_i64_items(v)
    }
}

/// The elements of a list of strings from the first one on,
/// comma-separated, with the closing bracket.
pub open spec fn enc_str_items(v: Seq<String>) -> Seq<char>
    decreases v.len(),
{
    if v.len() <= 1 {
        enc_string(v[0]@) + seq![']']
    } else {
        enc_string(v[0]@) + (seq![','] + enc_str_items(v.drop_first()))
    }
}

/// A bracketed list of strings.
pub open spec fn enc_str_list(v: Seq<String>) -> Seq<char> {
    if v.len() == 0 {
        seq!['[', ']']
    } else {
        seq!['['] + enc_str_items(v)
    }
}

/// An edge object.
pub open spec fn enc_edge(e: Edge) -> Seq<char> {
    "{\"from\":"@ + (enc_u64(e.from as int) + (",\"to\":"@ + (enc_u64(e.to as int) + (
    ",\"edge_type\":"@ + (enc_string(e.edge_type@) + "}"@)))))
}

/// The elements of a list of edge objects from the first one on,
/// comma-separated, with the closing bracket.
pub open spec fn enc_edge_items(v: Seq<Edge>) -> Seq<char>
    decreases v.len(),
{
    if v.len() <= 1 {
        enc_edge(v[0]) + seq![']']
    } else {
        enc_edge(v[0]) + (seq![','] + enc_edge_items(v.drop_first()))
    }
}

/// A bracketed list of edge objects.
pub open spec fn enc_edge_list(v: Seq<Edge>) -> Seq<char> {
    if v.len() == 0 {
        seq!['[', ']']
    } else {
        seq!['['] + enc_edge_items(v)
    }
}

/// An optional whole number: `null` or its numeral.
pub open spec fn enc_opt_u64(o: Option<u64>) -> Seq<char> {
    match o {
        Option::None => "null"@,
        Option::Some(v) => enc_u64(v as int),
    }
}

/// An optional string: `null` or its quoted token.
pub open spec fn enc_opt_string(o: Option<String>) -> Seq<char> {
    match o {
        Option::None => "null"@,
        Option::Some(sv) => enc_string(sv@),
    }
}

/// The payload of a record, after the kind token.
pub open spec fn enc_payload(r: WalRecord) -> Seq<char> {
    match r {
        WalRecord::Node { data: n } => ",\"data\":{\"id\":"@ + (enc_u64(n.id as int) + (
        ",\"label\":"@ + (enc_string(n.label@) + (",\"embedding\":"@ + (enc_i64_list(n.embedding@)
            + (",\"edges\":"@ + (enc_edge_list(n.edges@) + (",\"timestamp\":"@ + (enc_u64(
            n.timestamp as int,
        ) + (",\"agent_id\":"@ + (enc_opt_u64(n.agent_id) + (",\"rule_tags\":"@ + (enc_str_list(
            n.rule_tags@,
        ) + "}}"@))))))))))))),
        WalRecord::Edge { from, to, edge_type } => ",\"from\":"@ + (enc_u64(from as int) + (
        ",\"to\":"@ + (enc_u64(to as int) + (",\"edge_type\":"@ + (enc_string(edge_type@)
            + "}"@))))),
        WalRecord::Embedding { id, vec } => ",\"id\":"@ + (enc_u64(id as int) + (",\"vec\":"@ + (
        enc_i64_list(vec@) + "}"@))),
        WalRecord::Decision { data: d } => ",\"data\":{\"id\":"@ + (enc_u64(d.id as int) + (
        ",\"agent_id\":"@ + (enc_u64(d.agent_id as int) + (",\"created_at\":"@ + (enc_u64(
            d.created_at as int,
        ) + (",\"root_node\":"@ + (enc_u64(d.root_node as int) + (",\"path\":"@ + (enc_u64_list(
            d.path@,
        ) + (",\"score\":"@ + (enc_fixed(d.score as int) + (",\"notes\":"@ + (enc_opt_string(
            d.notes,
        ) + "}}"@))))))))))))),
    }
}

/// One whole log line: the kind discriminator, as a quoted string, and
/// the record's payload.
pub open spec fn enc_record(r: WalRecord) -> Seq<char> {
    "{\"kind\":"@ + (enc_string(kind_of(r)) + enc_payload(r))
}


// ---------------------------------------------------------------------
// Record emitters
// ---------------------------------------------------------------------

/// A string of plain characters (no quote, backslash or control
/// characters) escapes to itself.
pub proof fn lemma_enc_str_plain(s: Seq<char>)
    requires
        forall|k: int| 0 <= k < s.len() ==> (#[trigger] s[k]) != '"' && s[k] != '\\' && s[k]
            != '\n' && s[k] != '\r' && s[k] != '\t',
    ensures
        enc_str_chars(s) == s,
    decreases s.len(),
{
    if s.len() == 0 {
        assert(enc_str_chars(s) =~= s);
    } else {
        lemma_enc_str_plain(s.drop_first());
        assert(esc_char(s[0]) == seq![s[0]]);
        assert(enc_str_chars(s) =~= s);
    }
}

/// Appends the elements of a list of whole numbers from `k` on, with
/// the closing bracket.
fn push_u64_items(out: &mut Vec<char>, v: &Vec<u64>, k: usize)
    requires
        k < v@.len(),
    ensures
        final(out)@ == old(out)@ + enc_u64_items(v@.subrange(k as int, v@.len() as int)),
    decreases v@.len() - k,
{
    let n = v.len();
    let ghost suffix = v@.subrange(k as int, v@.len() as int);
    push_u64(out, v[k]);
    if k + 1 < n {
        push_lit(out, ",");
        push_u64_items(out, v, k + 1);
        proof {
            assert(suffix.drop_first() =~= v@.subrange(k as int + 1, v@.len() as int));
            reveal_strlit(",");
            assert(","@ =~= seq![',']);
            assert(out@ =~= old(out)@ + enc_u64_items(suffix));
        }
    } else {
        push_lit(out, "]");
        proof {
            reveal_strlit("]");
            assert("]"@ =~= seq![']']);
            assert(out@ =~= old(out)@ + enc_u64_items(suffix));
        }
    }
}

/// Appends a bracketed list of whole numbers.
fn push_u64_list(out: &mut Vec<char>, v: &Vec<u64>)
    ensures
        final(out)@ == old(out)@ + enc_u64_list(v@),
{
    if v.len() == 0 {
        push_lit(out, "[]");
        proof {
            reveal_strlit("[]");
            assert("[]"@ =~= seq!['[', ']']);
            assert(out@ =~= old(out)@ + enc_u64_list(v@));
        }
    } else {
        push_lit(out, "[");
        push_u64_items(out, v, 0);
        proof {
            reveal_strlit("[");
            assert("["@ =~= seq!['[']);
            assert(v@.subrange(0, v@.len() as int) =~= v@);
            assert(out@ =~= old(out)@ + enc_u64_list(v@));
        }
    }
}

/// Appends the elements of a list of fixed-point numbers from `k` on,
/// with the closing bracket.
fn push_i64_items(out: &mut Vec<char>, v: &Vec<i64>, k: usize)
    requires
        k < v@.len(),
        wf_i64s(v@),
    ensures
        final(out)@ == old(out)@ + enc_i64_items(v@.subrange(k as int, v@.len() as int)),
    decreases v@.len() - k,
{
    let n = v.len();
    let ghost suffix = v@.subrange(k as int, v@.len() as int);
    push_fixed(out, v[k]);
    if k + 1 < n {
        push_lit(out, ",");
        push_i64_items(out, v, k + 1);
        proof {
            assert(suffix.drop_first() =~= v@.subrange(k as int + 1, v@.len() as int));
            reveal_strlit(",");
            assert(","@ =~= seq![',']);
            assert(out@ =~= old(out)@ + enc_i64_items(suffix));
        }
    } else {
        push_lit(out, "]");
        proof {
            reveal_strlit("]");
            assert("]"@ =~= seq![']']);
            assert(out@ =~= old(out)@ + enc_i64_items(suffix));
        }
    }
}

/// Appends a bracketed list of fixed-point numbers.
fn push_i64_list(out: &mut Vec<char>, v: &Vec<i64>)
    requires
        wf_i64s(v@),
    ensures
        final(out)@ == old(out)@ + enc_i64_list(v@),
{
    if v.len() == 0 {
        push_lit(out, "[]");
        proof {
            reveal_strlit("[]");
            assert("[]"@ =~= seq!['[', ']']);
            assert(out@ =~= old(out)@ + enc_i64_list(v@));
        }
    } else {
        push_lit(out, "[");
        push_i64_items(out, v, 0);
        proof {
            reveal_strlit("[");
            assert("["@ =~= seq!['[']);
            assert(v@.subrange(0, v@.len() as int) =~= v@);
            assert(out@ =~= old(out)@ + enc_i64_list(v@));
        }
    }
}

/// Appends the elements of a list of strings from `k` on, with the
/// closing bracket.
fn push_str_items(out: &mut Vec<char>, v: &Vec<String>, k: usize)
    requires
        k < v@.len(),
        wf_strings(v@),
    ensures
        final(out)@ == old(out)@ + enc_str_items(v@.subrange(k as int, v@.len() as int)),
    decreases v@.len() - k,
{
    let n = v.len();
    let ghost suffix = v@.subrange(k as int, v@.len() as int);
    push_string(out, &v[k]);
    if k + 1 < n {
        push_lit(out, ",");
        push_str_items(out, v, k + 1);
        proof {
            assert(suffix.drop_first() =~= v@.subrange(k as int + 1, v@.len() as int));
            reveal_strlit(",");
            assert(","@ =~= seq![',']);
            assert(out@ =~= old(out)@ + enc_str_items(suffix));
        }
    } else {
        push_lit(out, "]");
        proof {
            reveal_strlit("]");
            assert("]"@ =~= seq![']']);
            assert(out@ =~= old(out)@ + enc_str_items(suffix));
        }
    }
}

/// Appends a bracketed list of strings.
fn push_str_list(out: &mut Vec<char>, v: &Vec<String>)
    requires
        wf_strings(v@),
    ensures
        final(out)@ == old(out)@ + enc_str_list(v@),
{
    if v.len() == 0 {
        push_lit(out, "[]");
        proof {
            reveal_strlit("[]");
            assert("[]"@ =~= seq!['[', ']']);
            assert(out@ =~= old(out)@ + enc_str_list(v@));
        }
    } else {
        push_lit(out, "[");
        push_str_items(out, v, 0);
        proof {
            reveal_strlit("[");
            assert("["@ =~= seq!['[']);
            assert(v@.subrange(0, v@.len() as int) =~= v@);
            assert(out@ =~= old(out)@ + enc_str_list(v@));
        }
    }
}

/// Appends an edge object.
fn push_edge(out: &mut Vec<char>, e: &Edge)
    requires
        wf_edge(*e),
    ensures
        final(out)@ == old(out)@ + enc_edge(*e),
{
    push_lit(out, "{\"from\":");
    push_u64(out, e.from);
    push_lit(out, ",\"to\":");
    push_u64(out, e.to);
    push_lit(out, ",\"edge_type\":");
    push_string(out, &e.edge_type);
    push_lit(out, "}");
    proof {
        assert(out@ =~= old(out)@ + enc_edge(*e));
    }
}

/// Appends the elements of a list of edge objects from `k` on, with
/// the closing bracket.
fn push_edge_items(out: &mut Vec<char>, v: &Vec<Edge>, k: usize)
    requires
        k < v@.len(),
        wf_edges(v@),
    ensures
        final(out)@ == old(out)@ + enc_edge_items(v@.subrange(k as int, v@.len() as int)),
    decreases v@.len() - k,
{
    let n = v.len();
    let ghost suffix = v@.subrange(k as int, v@.len() as int);
    push_edge(out, &v[k]);
    if k + 1 < n {
        push_lit(out, ",");
        push_edge_items(out, v, k + 1);
        proof {
            assert(suffix.drop_first() =~= v@.subrange(k as int + 1, v@.len() as int));
            reveal_strlit(",");
            assert(","@ =~= seq![',']);
            assert(out@ =~= old(out)@ + enc_edge_items(suffix));
        }
    } else {
        push_lit(out, "]");
        proof {
            reveal_strlit("]");
            assert("]"@ =~= seq![']']);
            assert(out@ =~= old(out)@ + enc_edge_items(suffix));
        }
    }
}

/// Appends a bracketed list of edge objects.
fn push_edge_list(out: &mut Vec<char>, v: &Vec<Edge>)
    requires
        wf_edges(v@),
    ensures
        final(out)@ == old(out)@ + enc_edge_list(v@),
{
    if v.len() == 0 {
        push_lit(out, "[]");
        proof {
            reveal_strlit("[]");
            assert("[]"@ =~= seq!['[', ']']);
            assert(out@ =~= old(out)@ + enc_edge_list(v@));
        }
    } else {
        push_lit(out, "[");
        push_edge_items(out, v, 0);
        proof {
            reveal_strlit("[");
            assert("["@ =~= seq!['[']);
            assert(v@.subrange(0, v@.len() as int) =~= v@);
            assert(out@ =~= old(out)@ + enc_edge_list(v@));
        }
    }
}

/// Appends an optional whole number.
fn push_opt_u64(out: &mut Vec<char>, o: &Option<u64>)
    ensures
        final(out)@ == old(out)@ + enc_opt_u64(*o),
{
    match o {
        Option::None => {
            push_lit(out, "null");
        },
        Option::Some(v) => {
            push_u64(out, *v);
        },
    }
}

/// Appends an optional string.
fn push_opt_string(out: &mut Vec<char>, o: &Option<String>)
    requires
        match *o {
            Option::Some(sv) => str_ok(sv@),
            Option::None => true,
        },
    ensures
        final(out)@ == old(out)@ + enc_opt_string(*o),
{
    match o {
        Option::None => {
            push_lit(out, "null");
        },
        Option::Some(sv) => {
            push_string(out, sv);
        },
    }
}

/// Regrouping a three-part concatenation.
proof fn lemma_assoc3(a: Seq<char>, b: Seq<char>, c: Seq<char>)
    ensures
        a + b + c == a + (b + c),
{
    assert(a + b + c =~= a + (b + c));
}

/// Regrouping a fifteen-part concatenation from the left to the right.
proof fn lemma_assoc15(
    o: Seq<char>,
    p1: Seq<char>,
    p2: Seq<char>,
    p3: Seq<char>,
    p4: Seq<char>,
    p5: Seq<char>,
    p6: Seq<char>,
    p7: Seq<char>,
    p8: Seq<char>,
    p9: Seq<char>,
    p10: Seq<char>,
    p11: Seq<char>,
    p12: Seq<char>,
    p13: Seq<char>,
    p14: Seq<char>,
    p15: Seq<char>,
)
    ensures
        o + p1 + p2 + p3 + p4 + p5 + p6 + p7 + p8 + p9 + p10 + p11 + p12 + p13 + p14 + p15 == o
            + (p1 + (p2 + (p3 + (p4 + (p5 + (p6 + (p7 + (p8 + (p9 + (p10 + (p11 + (p12 + (p13 + (p14 + (p15))))))))))))))),
{
    lemma_assoc3(o + p1 + p2 + p3 + p4 + p5 + p6 + p7 + p8 + p9 + p10 + p11 + p12 + p13, p14, p15);
    lemma_assoc3(o + p1 + p2 + p3 + p4 + p5 + p6 + p7 + p8 + p9 + p10 + p11 + p12, p13, p14 + (p15));
    lemma_assoc3(o + p1 + p2 + p3 + p4 + p5 + p6 + p7 + p8 + p9 + p10 + p11, p12, p13 + (p14 + (p15)));
    lemma_assoc3(o + p1 + p2 + p3 + p4 + p5 + p6 + p7 + p8 + p9 + p10, p11, p12 + (p13 + (p14 + (p15))));
    lemma_assoc3(o + p1 + p2 + p3 + p4 + p5 + p6 + p7 + p8 + p9, p10, p11 + (p12 + (p13 + (p14 + (p15)))));
    lemma_assoc3(o + p1 + p2 + p3 + p4 + p5 + p6 + p7 + p8, p9, p10 + (p11 + (p12 + (p13 + (p14 + (p15))))));
    lemma_assoc3(o + p1 + p2 + p3 + p4 + p5 + p6 + p7, p8, p9 + (p10 + (p11 + (p12 + (p13 + (p14 + (p15)))))));
    lemma_assoc3(o + p1 + p2 + p3 + p4 + p5 + p6, p7, p8 + (p9 + (p10 + (p11 + (p12 + (p13 + (p14 + (p15))))))));
    lemma_assoc3(o + p1 + p2 + p3 + p4 + p5, p6, p7 + (p8 + (p9 + (p10 + (p11 + (p12 + (p13 + (p14 + (p15)))))))));
    lemma_assoc3(o + p1 + p2 + p3 + p4, p5, p6 + (p7 + (p8 + (p9 + (p10 + (p11 + (p12 + (p13 + (p14 + (p15))))))))));
    lemma_assoc3(o + p1 + p2 + p3, p4, p5 + (p6 + (p7 + (p8 + (p9 + (p10 + (p11 + (p12 + (p13 + (p14 + (p15)))))))))));
    lemma_assoc3(o + p1 + p2, p3, p4 + (p5 + (p6 + (p7 + (p8 + (p9 + (p10 + (p11 + (p12 + (p13 + (p14 + (p15))))))))))));
    lemma_assoc3(o + p1, p2, p3 + (p4 + (p5 + (p6 + (p7 + (p8 + (p9 + (p10 + (p11 + (p12 + (p13 + (p14 + (p15)))))))))))));
    lemma_assoc3(o, p1, p2 + (p3 + (p4 + (p5 + (p6 + (p7 + (p8 + (p9 + (p10 + (p11 + (p12 + (p13 + (p14 + (p15))))))))))))));
}

/// Appends the payload of a node record.
#[verifier::rlimit(100)]
fn push_payload_node(out: &mut Vec<char>, n: &Node)
    requires
        wf_node(*n),
    ensures
        final(out)@ == old(out)@ + enc_payload(WalRecord::Node { data: *n }),
{
    push_lit(out, ",\"data\":{\"id\":");
    push_u64(out, n.id);
    push_lit(out, ",\"label\":");
    push_string(out, &n.label);
    push_lit(out, ",\"embedding\":");
    push_i64_list(out, &n.embedding);
    push_lit(out, ",\"edges\":");
    push_edge_list(out, &n.edges);
    push_lit(out, ",\"timestamp\":");
    push_u64(out, n.timestamp);
    push_lit(out, ",\"agent_id\":");
    push_opt_u64(out, &n.agent_id);
    push_lit(out, ",\"rule_tags\":");
    push_str_list(out, &n.rule_tags);
    push_lit(out, "}}");
    proof {
        lemma_assoc15(
            old(out)@,
            ",\"data\":{\"id\":"@,
            enc_u64(n.id as int),
            ",\"label\":"@,
            enc_string(n.label@),
            ",\"embedding\":"@,
            enc_i64_list(n.embedding@),
            ",\"edges\":"@,
            enc_edge_list(n.edges@),
            ",\"timestamp\":"@,
            enc_u64(n.timestamp as int),
            ",\"agent_id\":"@,
            enc_opt_u64(n.agent_id),
            ",\"rule_tags\":"@,
            enc_str_list(n.rule_tags@),
            "}}"@,
        );
    }
}

/// Appends the payload of an edge record.
#[verifier::rlimit(100)]
fn push_payload_edge(out: &mut Vec<char>, from: u64, to: u64, edge_type: &String)
    requires
        str_ok(edge_type@),
    ensures
        final(out)@ == old(out)@ + enc_payload(
            WalRecord::Edge { from, to, edge_type: *edge_type },
        ),
{
    push_lit(out, ",\"from\":");
    push_u64(out, from);
    push_lit(out, ",\"to\":");
    push_u64(out, to);
    push_lit(out, ",\"edge_type\":");
    push_string(out, edge_type);
    push_lit(out, "}");
    proof {
        assert(out@ =~= old(out)@ + enc_payload(
            WalRecord::Edge { from, to, edge_type: *edge_type },
        ));
    }
}

/// Appends the payload of an embedding record.
#[verifier::rlimit(100)]
fn push_payload_embedding(out: &mut Vec<char>, id: u64, vec: &Vec<i64>)
    requires
        wf_i64s(vec@),
    ensures
        final(out)@ == old(out)@ + enc_payload(WalRecord::Embedding { id, vec: *vec }),
{
    push_lit(out, ",\"id\":");
    push_u64(out, id);
    push_lit(out, ",\"vec\":");
    push_i64_list(out, vec);
    push_lit(out, "}");
    proof {
        assert(out@ =~= old(out)@ + enc_payload(WalRecord::Embedding { id, vec: *vec }));
    }
}

/// Appends the payload of a decision record.
#[verifier::rlimit(100)]
fn push_payload_decision(out: &mut Vec<char>, d: &DecisionRecord)
    requires
        wf_decision(*d),
    ensures
        final(out)@ == old(out)@ + enc_payload(WalRecord::Decision { data: *d }),
{
    push_lit(out, ",\"data\":{\"id\":");
    push_u64(out, d.id);
    push_lit(out, ",\"agent_id\":");
    push_u64(out, d.agent_id);
    push_lit(out, ",\"created_at\":");
    push_u64(out, d.created_at);
    push_lit(out, ",\"root_node\":");
    push_u64(out, d.root_node);
    push_lit(out, ",\"path\":");
    push_u64_list(out, &d.path);
    push_lit(out, ",\"score\":");
    push_fixed(out, d.score);
    push_lit(out, ",\"notes\":");
    push_opt_string(out, &d.notes);
    push_lit(out, "}}");
    proof {
        lemma_assoc15(
            old(out)@,
            ",\"data\":{\"id\":"@,
            enc_u64(d.id as int),
            ",\"agent_id\":"@,
            enc_u64(d.agent_id as int),
            ",\"created_at\":"@,
            enc_u64(d.created_at as int),
            ",\"root_node\":"@,
            enc_u64(d.root_node as int),
            ",\"path\":"@,
            enc_u64_list(d.path@),
            ",\"score\":"@,
            enc_fixed(d.score as int),
            ",\"notes\":"@,
            enc_opt_string(d.notes),
            "}}"@,
        );
    }
}

/// Writes one log record as its line of text, without the newline.
#[verifier::rlimit(100)]
pub fn encode_record(rec: &WalRecord) -> (r: String)
    requires
        wf_record(*rec),
    ensures
        r@ == enc_record(*rec),
{
    let mut out: Vec<char> = Vec::new();
    push_lit(&mut out, "{\"kind\":");
    match rec {
        WalRecord::Node { data: n } => {
            push_lit(&mut out, "\"node\"");
            proof {
                reveal_strlit("\"node\"");
                lemma_enc_str_plain(kind_of(*rec));
                assert("\"node\""@ =~= enc_string(kind_of(*rec)));
            }
            push_payload_node(&mut out, n);
            proof {
                assert(WalRecord::Node { data: *n } == *rec);
                assert(out@ =~= enc_record(*rec));
            }
        },
        WalRecord::Edge { from, to, edge_type } => {
            push_lit(&mut out, "\"edge\"");
            proof {
                reveal_strlit("\"edge\"");
                lemma_enc_str_plain(kind_of(*rec));
                assert("\"edge\""@ =~= enc_string(kind_of(*rec)));
            }
            push_payload_edge(&mut out, *from, *to, edge_type);
            proof {
                assert(WalRecord::Edge { from: *from, to: *to, edge_type: *edge_type } == *rec);
                assert(out@ =~= enc_record(*rec));
            }
        },
        WalRecord::Embedding { id, vec } => {
            push_lit(&mut out, "\"embedding\"");
            proof {
                reveal_strlit("\"embedding\"");
                lemma_enc_str_plain(kind_of(*rec));
                assert("\"embedding\""@ =~= enc_string(kind_of(*rec)));
            }
            push_payload_embedding(&mut out, *id, vec);
            proof {
                assert(WalRecord::Embedding { id: *id, vec: *vec } == *rec);
                assert(out@ =~= enc_record(*rec));
            }
        },
        WalRecord::Decision { data: d } => {
            push_lit(&mut out, "\"decision\"");
            proof {
                reveal_strlit("\"decision\"");
                lemma_enc_str_plain(kind_of(*rec));
                assert("\"decision\""@ =~= enc_string(kind_of(*rec)));
            }
            push_payload_decision(&mut out, d);
            proof {
                assert(WalRecord::Decision { data: *d } == *rec);
                assert(out@ =~= enc_record(*rec));
            }
        },
    }
    chars_string(&out)
}

// ---------------------------------------------------------------------
// Decoding helpers
// ---------------------------------------------------------------------

/// The text of `s` at position `i` starts with `a`.
pub open spec fn text_at(s: Seq<char>, i: int, a: Seq<char>) -> bool {
    0 <= i && i + a.len() <= s.len() && s.subrange(i, i + a.len()) == a
}

/// Text that starts with a concatenation starts with its first part,
/// and the second part follows it.
pub proof fn lemma_split2(s: Seq<char>, i: int, a: Seq<char>, b: Seq<char>)
    requires
        text_at(s, i, a + b),
    ensures
        text_at(s, i, a),
        text_at(s, i + a.len(), b),
{
    let ab = a + b;
    assert(s.subrange(i, i + a.len()) =~= a) by {
        assert forall|t: int| 0 <= t < a.len() implies s.subrange(i, i + a.len())[t] == a[t] by {
            assert(s.subrange(i, i + ab.len())[t] == ab[t]);
            assert(ab[t] == a[t]);
        }
    }
    assert(s.subrange(i + a.len(), i + a.len() + b.len()) =~= b) by {
        assert forall|t: int| 0 <= t < b.len() implies s.subrange(
            i + a.len(),
            i + a.len() + b.len(),
        )[t] == b[t] by {
            assert(s.subrange(i, i + ab.len())[a.len() + t] == ab[a.len() + t]);
            assert(ab[a.len() + t] == b[t]);
        }
    }
}

/// A character of text that starts with `a` is the matching character
/// of `a`.
pub proof fn lemma_text_char(s: Seq<char>, i: int, a: Seq<char>, t: int)
    requires
        text_at(s, i, a),
        0 <= t < a.len(),
    ensures
        s[i + t] == a[t],
{
    assert(s.subrange(i, i + a.len())[t] == a[t]);
}

/// A whole-number numeral starts with a digit.
pub proof fn lemma_enc_u64_first(v: int)
    requires
        0 <= v,
    ensures
        enc_u64(v).len() >= 1,
        is_digit(enc_u64(v)[0]),
{
    lemma_ndigits_bound(v);
    lemma_pad_digits_shape(v, ndigits(v));
}

/// A fixed-point numeral starts with a minus sign or a digit, and
/// no numeral is empty.
pub proof fn lemma_enc_fixed_first(v: int)
    requires
        -FIXED_LIMIT <= v <= FIXED_LIMIT,
    ensures
        enc_fixed(v).len() >= 1,
        enc_fixed(v)[0] == '-' || is_digit(enc_fixed(v)[0]),
{
    let m = if v < 0 { -v } else { v };
    lemma_enc_u64_first(m / 1_000_000);
    if v < 0 {
        assert(enc_fixed(v)[0] == '-');
    } else {
        assert(enc_fixed(v)[0] == enc_u64(m / 1_000_000)[0]);
    }
}

/// Matches a parsed character buffer against a literal.
fn chars_eq_lit(v: &Vec<char>, lit: &str) -> (r: bool)
    ensures
        r == (v@ == lit@),
{
    let cs = str_chars(lit);
    if v.len() != cs.len() {
        proof {
            assert(v@.len() != lit@.len());
        }
        return false;
    }
    let mut j: usize = 0;
    while j < cs.len()
        invariant
            cs@ == lit@,
            v@.len() == cs@.len(),
            0 <= j <= cs@.len(),
            forall|t: int| 0 <= t < j ==> v@[t] == cs@[t],
        decreases cs@.len() - j,
    {
        if v[j] != cs[j] {
            return false;
        }
        j = j + 1;
    }
    proof {
        assert(v@ =~= lit@);
    }
    true
}

// ---------------------------------------------------------------------
// List parsers
// ---------------------------------------------------------------------

/// Parses the comma-separated elements of a whole-number list, with its
/// closing bracket.
#[verifier::rlimit(100)]
fn p_u64_items(s: &Vec<char>, i: usize) -> (r: Option<(Vec<u64>, usize)>)
    requires
        i <= s@.len(),
    ensures
        match r {
            Some(p) => i < p.1 <= s@.len() && forall|w: Seq<u64>|
                w.len() > 0 && text_at(s@, i as int, #[trigger] enc_u64_items(w)) ==> (p.0@ == w
                    && p.1 == i + enc_u64_items(w).len()),
            None => forall|w: Seq<u64>|
                !(w.len() > 0 && text_at(s@, i as int, #[trigger] enc_u64_items(w))),
        },
    decreases s@.len() - i,
{
    let first = p_u64(s, i);
    match first {
        None => {
            proof {
                assert forall|w: Seq<u64>|
                    !(w.len() > 0 && text_at(s@, i as int, #[trigger] enc_u64_items(w))) by {
                    if w.len() > 0 && text_at(s@, i as int, enc_u64_items(w)) {
                        lemma_u64_items_head(s@, i as int, w);
                    }
                }
            }
            None
        },
        Some((x, j)) => {
            proof {
                assert forall|w: Seq<u64>|
                    w.len() > 0 && text_at(s@, i as int, #[trigger] enc_u64_items(w)) implies (x
                    == w[0] && j == i + enc_u64(w[0] as int).len() && j < s@.len() && (if w.len()
                    == 1 {
                    s@[j as int] == ']'
                } else {
                    s@[j as int] == ','
                })) by {
                    lemma_u64_items_head(s@, i as int, w);
                }
            }
            if j < s.len() && s[j] == ',' {
                let rest = p_u64_items(s, j + 1);
                match rest {
                    None => {
                        proof {
                            assert forall|w: Seq<u64>|
                                !(w.len() > 0 && text_at(
                                    s@,
                                    i as int,
                                    #[trigger] enc_u64_items(w),
                                )) by {
                                if w.len() > 0 && text_at(s@, i as int, enc_u64_items(w)) {
                                    lemma_u64_items_head(s@, i as int, w);
                                    assert(w.len() > 1);
                                    assert(w.drop_first().len() > 0 && text_at(
                                        s@,
                                        j + 1,
                                        enc_u64_items(w.drop_first()),
                                    ));
                                }
                            }
                        }
                        None
                    },
                    Some((mut v2, j2)) => {
                        v2.insert(0, x);
                        proof {
                            assert forall|w: Seq<u64>|
                                w.len() > 0 && text_at(s@, i as int, #[trigger] enc_u64_items(w))
                                implies (v2@ == w && j2 == i + enc_u64_items(w).len()) by {
                                lemma_u64_items_head(s@, i as int, w);
                                assert(w.len() > 1);
                                assert(w.drop_first().len() > 0 && text_at(
                                    s@,
                                    j + 1,
                                    enc_u64_items(w.drop_first()),
                                ));
                                assert(v2@ =~= w);
                            }
                        }
                        Some((v2, j2))
                    },
                }
            } else if j < s.len() && s[j] == ']' {
                let mut v: Vec<u64> = Vec::new();
                v.push(x);
                proof {
                    assert forall|w: Seq<u64>|
                        w.len() > 0 && text_at(s@, i as int, #[trigger] enc_u64_items(w)) implies (
                    v@ == w && j + 1 == i + enc_u64_items(w).len()) by {
                        lemma_u64_items_head(s@, i as int, w);
                        assert(w.len() == 1);
                        assert(v@ =~= w);
                    }
                }
                Some((v, j + 1))
            } else {
                proof {
                    assert forall|w: Seq<u64>|
                        !(w.len() > 0 && text_at(s@, i as int, #[trigger] enc_u64_items(w))) by {
                        if w.len() > 0 && text_at(s@, i as int, enc_u64_items(w)) {
                            lemma_u64_items_head(s@, i as int, w);
                        }
                    }
                }
                None
            }
        },
    }
}

/// The shape of an encoded non-empty whole-number list: a numeral for
/// the first element, followed by a comma or the closing bracket, and
/// for a comma the remaining elements after it.
proof fn lemma_u64_items_head(s: Seq<char>, i: int, w: Seq<u64>)
    requires
        w.len() > 0,
        text_at(s, i, enc_u64_items(w)),
    ensures
        sp_parse_u64(s, i) == Some((w[0], i + enc_u64(w[0] as int).len())),
        i + enc_u64(w[0] as int).len() < s.len(),
        w.len() == 1 ==> s[i + enc_u64(w[0] as int).len()] == ']' && i + enc_u64_items(w).len()
            == i + enc_u64(w[0] as int).len() + 1,
        w.len() > 1 ==> s[i + enc_u64(w[0] as int).len()] == ',' && text_at(
            s,
            i + enc_u64(w[0] as int).len() + 1,
            enc_u64_items(w.drop_first()),
        ) && enc_u64_items(w).len() == enc_u64(w[0] as int).len() + 1 + enc_u64_items(
            w.drop_first(),
        ).len(),
{
    let e0 = enc_u64(w[0] as int);
    lemma_enc_u64_first(w[0] as int);
    if w.len() == 1 {
        assert(enc_u64_items(w) == e0 + seq![']']);
        lemma_split2(s, i, e0, seq![']']);
        lemma_text_char(s, i + e0.len(), seq![']'], 0);
        lemma_parse_enc_u64(s, i, w[0]);
    } else {
        assert(enc_u64_items(w) == e0 + (seq![','] + enc_u64_items(w.drop_first())));
        lemma_split2(s, i, e0, seq![','] + enc_u64_items(w.drop_first()));
        lemma_split2(s, i + e0.len(), seq![','], enc_u64_items(w.drop_first()));
        lemma_text_char(s, i + e0.len(), seq![','], 0);
        lemma_parse_enc_u64(s, i, w[0]);
    }
}

/// Parses a bracketed list of whole numbers.
fn p_u64_list(s: &Vec<char>, i: usize) -> (r: Option<(Vec<u64>, usize)>)
    requires
        i <= s@.len(),
    ensures
        match r {
            Some(p) => i < p.1 <= s@.len() && forall|w: Seq<u64>|
                text_at(s@, i as int, #[trigger] enc_u64_list(w)) ==> (p.0@ == w && p.1 == i
                    + enc_u64_list(w).len()),
            None => forall|w: Seq<u64>| !text_at(s@, i as int, #[trigger] enc_u64_list(w)),
        },
{
    if !(i < s.len() && s[i] == '[') {
        proof {
            assert forall|w: Seq<u64>| !text_at(s@, i as int, #[trigger] enc_u64_list(w)) by {
                if text_at(s@, i as int, enc_u64_list(w)) {
                    lemma_text_char(s@, i as int, enc_u64_list(w), 0);
                    if w.len() > 0 {
                        assert(enc_u64_list(w)[0] == '[');
                    }
                }
            }
        }
        return None;
    }
    if i + 1 < s.len() && s[i + 1] == ']' {
        proof {
            assert forall|w: Seq<u64>|
                text_at(s@, i as int, #[trigger] enc_u64_list(w)) implies (w == Seq::<u64>::empty()
                && i + 2 == i + enc_u64_list(w).len()) by {
                if w.len() > 0 {
                    lemma_split2(s@, i as int, seq!['['], enc_u64_items(w));
                    lemma_u64_items_head(s@, i + 1, w);
                    lemma_enc_u64_first(w[0] as int);
                    lemma_text_char(s@, i + 1, enc_u64_items(w), 0);
                    assert(enc_u64_items(w)[0] == enc_u64(w[0] as int)[0]);
                } else {
                    assert(w =~= Seq::<u64>::empty());
                }
            }
        }
        let v: Vec<u64> = Vec::new();
        return Some((v, i + 2));
    }
    let rest = p_u64_items(s, i + 1);
    match rest {
        None => {
            proof {
                assert forall|w: Seq<u64>| !text_at(s@, i as int, #[trigger] enc_u64_list(w)) by {
                    if text_at(s@, i as int, enc_u64_list(w)) {
                        if w.len() == 0 {
                            lemma_text_char(s@, i as int, enc_u64_list(w), 1);
                        } else {
                            lemma_split2(s@, i as int, seq!['['], enc_u64_items(w));
                        }
                    }
                }
            }
            None
        },
        Some((v, j)) => {
            proof {
                assert forall|w: Seq<u64>|
                    text_at(s@, i as int, #[trigger] enc_u64_list(w)) implies (v@ == w && j == i
                    + enc_u64_list(w).len()) by {
                    if w.len() == 0 {
                        lemma_text_char(s@, i as int, enc_u64_list(w), 1);
                    } else {
                        lemma_split2(s@, i as int, seq!['['], enc_u64_items(w));
                    }
                }
            }
            Some((v, j))
        },
    }
}


/// Parses the comma-separated elements of a fixed-point list, with its
/// closing bracket.
#[verifier::rlimit(100)]
fn p_i64_items(s: &Vec<char>, i: usize) -> (r: Option<(Vec<i64>, usize)>)
    requires
        i <= s@.len(),
    ensures
        match r {
            Some(p) => i < p.1 <= s@.len() && forall|w: Seq<i64>|
                w.len() > 0 && wf_i64s(w) && text_at(s@, i as int, #[trigger] enc_i64_items(w)) ==> (p.0@ == w
                    && p.1 == i + enc_i64_items(w).len()),
            None => forall|w: Seq<i64>|
                !(w.len() > 0 && wf_i64s(w) && text_at(s@, i as int, #[trigger] enc_i64_items(w))),
        },
    decreases s@.len() - i,
{
    let first = p_fixed(s, i);
    match first {
        None => {
            proof {
                assert forall|w: Seq<i64>|
                    !(w.len() > 0 && wf_i64s(w) && text_at(s@, i as int, #[trigger] enc_i64_items(w))) by {
                    if w.len() > 0 && wf_i64s(w) && text_at(s@, i as int, enc_i64_items(w)) {
                        lemma_i64_items_head(s@, i as int, w);
                    }
                }
            }
            None
        },
        Some((x, j)) => {
            proof {
                assert forall|w: Seq<i64>|
                    w.len() > 0 && wf_i64s(w) && text_at(s@, i as int, #[trigger] enc_i64_items(w)) implies (x
                    == w[0] && j == i + enc_fixed(w[0] as int).len() && j < s@.len() && (if w.len()
                    == 1 {
                    s@[j as int] == ']'
                } else {
                    s@[j as int] == ','
                })) by {
                    lemma_i64_items_head(s@, i as int, w);
                }
            }
            if j < s.len() && s[j] == ',' {
                let rest = p_i64_items(s, j + 1);
                match rest {
                    None => {
                        proof {
                            assert forall|w: Seq<i64>|
                                !(w.len() > 0 && wf_i64s(w) && text_at(
                                    s@,
                                    i as int,
                                    #[trigger] enc_i64_items(w),
                                )) by {
                                if w.len() > 0 && wf_i64s(w) && text_at(s@, i as int, enc_i64_items(w)) {
                                    lemma_i64_items_head(s@, i as int, w);
                                    assert(w.len() > 1);
                                    assert(w.drop_first().len() > 0 && text_at(
                                        s@,
                                        j + 1,
                                        enc_i64_items(w.drop_first()),
                                    ));
                                }
                            }
                        }
                        None
                    },
                    Some((mut v2, j2)) => {
                        v2.insert(0, x);
                        proof {
                            assert forall|w: Seq<i64>|
                                w.len() > 0 && wf_i64s(w) && text_at(s@, i as int, #[trigger] enc_i64_items(w))
                                implies (v2@ == w && j2 == i + enc_i64_items(w).len()) by {
                                lemma_i64_items_head(s@, i as int, w);
                                assert(w.len() > 1);
                                assert(w.drop_first().len() > 0 && text_at(
                                    s@,
                                    j + 1,
                                    enc_i64_items(w.drop_first()),
                                ));
                                assert(v2@ =~= w);
                            }
                        }
                        Some((v2, j2))
                    },
                }
            } else if j < s.len() && s[j] == ']' {
                let mut v: Vec<i64> = Vec::new();
                v.push(x);
                proof {
                    assert forall|w: Seq<i64>|
                        w.len() > 0 && wf_i64s(w) && text_at(s@, i as int, #[trigger] enc_i64_items(w)) implies (
                    v@ == w && j + 1 == i + enc_i64_items(w).len()) by {
                        lemma_i64_items_head(s@, i as int, w);
                        assert(w.len() == 1);
                        assert(v@ =~= w);
                    }
                }
                Some((v, j + 1))
            } else {
                proof {
                    assert forall|w: Seq<i64>|
                        !(w.len() > 0 && wf_i64s(w) && text_at(s@, i as int, #[trigger] enc_i64_items(w))) by {
                        if w.len() > 0 && wf_i64s(w) && text_at(s@, i as int, enc_i64_items(w)) {
                            lemma_i64_items_head(s@, i as int, w);
                        }
                    }
                }
                None
            }
        },
    }
}

/// The shape of an encoded non-empty fixed-point list: a numeral for
/// the first element, followed by a comma or the closing bracket, and
/// for a comma the remaining elements after it.
proof fn lemma_i64_items_head(s: Seq<char>, i: int, w: Seq<i64>)
    requires
        w.len() > 0,
        wf_i64s(w),
        text_at(s, i, enc_i64_items(w)),
    ensures
        sp_parse_fixed(s, i) == Some((w[0], i + enc_fixed(w[0] as int).len())),
        i + enc_fixed(w[0] as int).len() < s.len(),
        w.len() == 1 ==> s[i + enc_fixed(w[0] as int).len()] == ']' && i + enc_i64_items(w).len()
            == i + enc_fixed(w[0] as int).len() + 1,
        w.len() > 1 ==> s[i + enc_fixed(w[0] as int).len()] == ',' && text_at(
            s,
            i + enc_fixed(w[0] as int).len() + 1,
            enc_i64_items(w.drop_first()),
        ) && enc_i64_items(w).len() == enc_fixed(w[0] as int).len() + 1 + enc_i64_items(
            w.drop_first(),
        ).len(),
{
    let e0 = enc_fixed(w[0] as int);
    lemma_enc_fixed_first(w[0] as int);
    assert(wf_i64s(w.drop_first())) by {
        assert(forall|k: int| 0 <= k < w.drop_first().len() ==> #[trigger] w.drop_first()[k] == w[
            k + 1
        ]);
    }
    if w.len() == 1 {
        assert(enc_i64_items(w) == e0 + seq![']']);
        lemma_split2(s, i, e0, seq![']']);
        lemma_text_char(s, i + e0.len(), seq![']'], 0);
        lemma_parse_enc_fixed(s, i, w[0]);
    } else {
        assert(enc_i64_items(w) == e0 + (seq![','] + enc_i64_items(w.drop_first())));
        lemma_split2(s, i, e0, seq![','] + enc_i64_items(w.drop_first()));
        lemma_split2(s, i + e0.len(), seq![','], enc_i64_items(w.drop_first()));
        lemma_text_char(s, i + e0.len(), seq![','], 0);
        lemma_parse_enc_fixed(s, i, w[0]);
    }
}

/// Parses a bracketed list of whole numbers.
fn p_i64_list(s: &Vec<char>, i: usize) -> (r: Option<(Vec<i64>, usize)>)
    requires
        i <= s@.len(),
    ensures
        match r {
            Some(p) => i < p.1 <= s@.len() && forall|w: Seq<i64>|
                wf_i64s(w) && text_at(s@, i as int, #[trigger] enc_i64_list(w)) ==> (p.0@ == w && p.1 == i
                    + enc_i64_list(w).len()),
            None => forall|w: Seq<i64>| !(wf_i64s(w) && text_at(s@, i as int, #[trigger] enc_i64_list(w))),
        },
{
    if !(i < s.len() && s[i] == '[') {
        proof {
            assert forall|w: Seq<i64>| !(wf_i64s(w) && text_at(s@, i as int, #[trigger] enc_i64_list(w))) by {
                if wf_i64s(w) && text_at(s@, i as int, enc_i64_list(w)) {
                    lemma_text_char(s@, i as int, enc_i64_list(w), 0);
                    if w.len() > 0 {
                        assert(enc_i64_list(w)[0] == '[');
                    }
                }
            }
        }
        return None;
    }
    if i + 1 < s.len() && s[i + 1] == ']' {
        proof {
            assert forall|w: Seq<i64>|
                wf_i64s(w) && text_at(s@, i as int, #[trigger] enc_i64_list(w)) implies (w
                == Seq::<i64>::empty() && i + 2 == i + enc_i64_list(w).len()) by {
                if w.len() > 0 {
                    lemma_split2(s@, i as int, seq!['['], enc_i64_items(w));
                    lemma_i64_items_head(s@, i + 1, w);
                    lemma_enc_fixed_first(w[0] as int);
                    lemma_text_char(s@, i + 1, enc_i64_items(w), 0);
                    assert(enc_i64_items(w)[0] == enc_fixed(w[0] as int)[0]);
                } else {
                    assert(w =~= Seq::<i64>::empty());
                }
            }
        }
        let v: Vec<i64> = Vec::new();
        return Some((v, i + 2));
    }
    let rest = p_i64_items(s, i + 1);
    match rest {
        None => {
            proof {
                assert forall|w: Seq<i64>| !(wf_i64s(w) && text_at(s@, i as int, #[trigger] enc_i64_list(w))) by {
                    if wf_i64s(w) && text_at(s@, i as int, enc_i64_list(w)) {
                        if w.len() == 0 {
                            lemma_text_char(s@, i as int, enc_i64_list(w), 1);
                        } else {
                            lemma_split2(s@, i as int, seq!['['], enc_i64_items(w));
                        }
                    }
                }
            }
            None
        },
        Some((v, j)) => {
            proof {
                assert forall|w: Seq<i64>|
                    wf_i64s(w) && text_at(s@, i as int, #[trigger] enc_i64_list(w)) implies (v@ == w && j == i
                    + enc_i64_list(w).len()) by {
                    if w.len() == 0 {
                        lemma_text_char(s@, i as int, enc_i64_list(w), 1);
                    } else {
                        lemma_split2(s@, i as int, seq!['['], enc_i64_items(w));
                    }
                }
            }
            Some((v, j))
        },
    }
}


/// The shape of an encoded non-empty string list: a string token for
/// the first element, followed by a comma or the closing bracket, and
/// for a comma the remaining elements after it.
proof fn lemma_str_items_head(s: Seq<char>, i: int, w: Seq<String>)
    requires
        w.len() > 0,
        wf_strings(w),
        text_at(s, i, enc_str_items(w)),
    ensures
        sp_parse_string(s, i) == Some((w[0]@, i + enc_string(w[0]@).len())),
        i + enc_string(w[0]@).len() < s.len(),
        w.len() == 1 ==> s[i + enc_string(w[0]@).len()] == ']' && i + enc_str_items(w).len() == i
            + enc_string(w[0]@).len() + 1,
        w.len() > 1 ==> s[i + enc_string(w[0]@).len()] == ',' && text_at(
            s,
            i + enc_string(w[0]@).len() + 1,
            enc_str_items(w.drop_first()),
        ) && enc_str_items(w).len() == enc_string(w[0]@).len() + 1 + enc_str_items(
            w.drop_first(),
        ).len(),
{
    let e0 = enc_string(w[0]@);
    assert(wf_strings(w.drop_first())) by {
        assert(forall|k: int| 0 <= k < w.drop_first().len() ==> #[trigger] w.drop_first()[k] == w[
            k + 1
        ]);
    }
    if w.len() == 1 {
        assert(enc_str_items(w) == e0 + seq![']']);
        lemma_split2(s, i, e0, seq![']']);
        lemma_text_char(s, i + e0.len(), seq![']'], 0);
        lemma_parse_enc_string(s, i, w[0]@);
    } else {
        assert(enc_str_items(w) == e0 + (seq![','] + enc_str_items(w.drop_first())));
        lemma_split2(s, i, e0, seq![','] + enc_str_items(w.drop_first()));
        lemma_split2(s, i + e0.len(), seq![','], enc_str_items(w.drop_first()));
        lemma_text_char(s, i + e0.len(), seq![','], 0);
        lemma_parse_enc_string(s, i, w[0]@);
    }
}

/// Parses the comma-separated elements of a string list, with its
/// closing bracket.
#[verifier::rlimit(100)]
fn p_str_items(s: &Vec<char>, i: usize) -> (r: Option<(Vec<String>, usize)>)
    requires
        i <= s@.len(),
    ensures
        match r {
            Some(p) => i < p.1 <= s@.len() && forall|w: Seq<String>|
                w.len() > 0 && wf_strings(w) && text_at(
                    s@,
                    i as int,
                    #[trigger] enc_str_items(w),
                ) ==> (strings_like(p.0@, w) && p.1 == i + enc_str_items(w).len()),
            None => forall|w: Seq<String>|
                !(w.len() > 0 && wf_strings(w) && text_at(
                    s@,
                    i as int,
                    #[trigger] enc_str_items(w),
                )),
        },
    decreases s@.len() - i,
{
    let first = p_string(s, i);
    match first {
        None => {
            proof {
                assert forall|w: Seq<String>|
                    !(w.len() > 0 && wf_strings(w) && text_at(
                        s@,
                        i as int,
                        #[trigger] enc_str_items(w),
                    )) by {
                    if w.len() > 0 && wf_strings(w) && text_at(s@, i as int, enc_str_items(w)) {
                        lemma_str_items_head(s@, i as int, w);
                    }
                }
            }
            None
        },
        Some((cs, j)) => {
            let x = chars_string(&cs);
            proof {
                assert forall|w: Seq<String>|
                    w.len() > 0 && wf_strings(w) && text_at(
                        s@,
                        i as int,
                        #[trigger] enc_str_items(w),
                    ) implies (x@ == w[0]@ && j == i + enc_string(w[0]@).len() && j < s@.len() && (
                    if w.len() == 1 {
                        s@[j as int] == ']'
                    } else {
                        s@[j as int] == ','
                    })) by {
                    lemma_str_items_head(s@, i as int, w);
                }
            }
            if j < s.len() && s[j] == ',' {
                let rest = p_str_items(s, j + 1);
                match rest {
                    None => {
                        proof {
                            assert forall|w: Seq<String>|
                                !(w.len() > 0 && wf_strings(w) && text_at(
                                    s@,
                                    i as int,
                                    #[trigger] enc_str_items(w),
                                )) by {
                                if w.len() > 0 && wf_strings(w) && text_at(
                                    s@,
                                    i as int,
                                    enc_str_items(w),
                                ) {
                                    lemma_str_items_head(s@, i as int, w);
                                    assert(w.len() > 1);
                                    assert(w.drop_first().len() > 0 && wf_strings(w.drop_first())
                                        && text_at(s@, j + 1, enc_str_items(w.drop_first())));
                                }
                            }
                        }
                        None
                    },
                    Some((mut v2, j2)) => {
                        v2.insert(0, x);
                        proof {
                            assert forall|w: Seq<String>|
                                w.len() > 0 && wf_strings(w) && text_at(
                                    s@,
                                    i as int,
                                    #[trigger] enc_str_items(w),
                                ) implies (strings_like(v2@, w) && j2 == i + enc_str_items(
                                w,
                            ).len()) by {
                                lemma_str_items_head(s@, i as int, w);
                                assert(w.len() > 1);
                                assert(w.drop_first().len() > 0 && wf_strings(w.drop_first())
                                    && text_at(s@, j + 1, enc_str_items(w.drop_first())));
                                assert(strings_like(v2@.drop_first(), w.drop_first()));
                                assert forall|k: int| 0 <= k < v2@.len() implies (
                                #[trigger] v2@[k])@ == (#[trigger] w[k])@ by {
                                    if k > 0 {
                                        assert(v2@[k] == v2@.drop_first()[k - 1]);
                                        assert(w[k] == w.drop_first()[k - 1]);
                                    }
                                }
                            }
                        }
                        Some((v2, j2))
                    },
                }
            } else if j < s.len() && s[j] == ']' {
                let mut v: Vec<String> = Vec::new();
                v.push(x);
                proof {
                    assert forall|w: Seq<String>|
                        w.len() > 0 && wf_strings(w) && text_at(
                            s@,
                            i as int,
                            #[trigger] enc_str_items(w),
                        ) implies (strings_like(v@, w) && j + 1 == i + enc_str_items(w).len()) by {
                        lemma_str_items_head(s@, i as int, w);
                        assert(w.len() == 1);
                    }
                }
                Some((v, j + 1))
            } else {
                proof {
                    assert forall|w: Seq<String>|
                        !(w.len() > 0 && wf_strings(w) && text_at(
                            s@,
                            i as int,
                            #[trigger] enc_str_items(w),
                        )) by {
                        if w.len() > 0 && wf_strings(w) && text_at(s@, i as int, enc_str_items(w)) {
                            lemma_str_items_head(s@, i as int, w);
                        }
                    }
                }
                None
            }
        },
    }
}

/// Parses a bracketed list of strings.
fn p_str_list(s: &Vec<char>, i: usize) -> (r: Option<(Vec<String>, usize)>)
    requires
        i <= s@.len(),
    ensures
        match r {
            Some(p) => i < p.1 <= s@.len() && forall|w: Seq<String>|
                wf_strings(w) && text_at(s@, i as int, #[trigger] enc_str_list(w)) ==> (
                strings_like(p.0@, w) && p.1 == i + enc_str_list(w).len()),
            None => forall|w: Seq<String>|
                !(wf_strings(w) && text_at(s@, i as int, #[trigger] enc_str_list(w))),
        },
{
    if !(i < s.len() && s[i] == '[') {
        proof {
            assert forall|w: Seq<String>|
                !(wf_strings(w) && text_at(s@, i as int, #[trigger] enc_str_list(w))) by {
                if wf_strings(w) && text_at(s@, i as int, enc_str_list(w)) {
                    lemma_text_char(s@, i as int, enc_str_list(w), 0);
                    if w.len() > 0 {
                        assert(enc_str_list(w)[0] == '[');
                    }
                }
            }
        }
        return None;
    }
    if i + 1 < s.len() && s[i + 1] == ']' {
        proof {
            assert forall|w: Seq<String>|
                wf_strings(w) && text_at(s@, i as int, #[trigger] enc_str_list(w)) implies (
            strings_like(Seq::<String>::empty(), w) && i + 2 == i + enc_str_list(w).len()) by {
                if w.len() > 0 {
                    lemma_split2(s@, i as int, seq!['['], enc_str_items(w));
                    lemma_str_items_head(s@, i + 1, w);
                    lemma_text_char(s@, i + 1, enc_str_items(w), 0);
                    assert(enc_str_items(w)[0] == enc_string(w[0]@)[0]);
                    assert(enc_string(w[0]@)[0] == '"');
                }
            }
        }
        let v: Vec<String> = Vec::new();
        return Some((v, i + 2));
    }
    let rest = p_str_items(s, i + 1);
    match rest {
        None => {
            proof {
                assert forall|w: Seq<String>|
                    !(wf_strings(w) && text_at(s@, i as int, #[trigger] enc_str_list(w))) by {
                    if wf_strings(w) && text_at(s@, i as int, enc_str_list(w)) {
                        if w.len() == 0 {
                            lemma_text_char(s@, i as int, enc_str_list(w), 1);
                        } else {
                            lemma_split2(s@, i as int, seq!['['], enc_str_items(w));
                        }
                    }
                }
            }
            None
        },
        Some((v, j)) => {
            proof {
                assert forall|w: Seq<String>|
                    wf_strings(w) && text_at(s@, i as int, #[trigger] enc_str_list(w)) implies (
                strings_like(v@, w) && j == i + enc_str_list(w).len()) by {
                    if w.len() == 0 {
                        lemma_text_char(s@, i as int, enc_str_list(w), 1);
                    } else {
                        lemma_split2(s@, i as int, seq!['['], enc_str_items(w));
                    }
                }
            }
            Some((v, j))
        },
    }
}


/// Where each piece of an encoded edge object stands.
pub open spec fn edge_layout(s: Seq<char>, i: int, d: Edge) -> bool {
    let l1 = "{\"from\":"@;
    let f1 = enc_u64(d.from as int);
    let l2 = ",\"to\":"@;
    let f2 = enc_u64(d.to as int);
    let l3 = ",\"edge_type\":"@;
    let f3 = enc_string(d.edge_type@);
    let l4 = "}"@;
    let a1 = i + l1.len();
    let a2 = a1 + f1.len();
    let a3 = a2 + l2.len();
    let a4 = a3 + f2.len();
    let a5 = a4 + l3.len();
    let a6 = a5 + f3.len();
    &&& text_at(s, i, l1)
    &&& sp_parse_u64(s, a1) == Some((d.from, a2))
    &&& text_at(s, a2, l2)
    &&& sp_parse_u64(s, a3) == Some((d.to, a4))
    &&& text_at(s, a4, l3)
    &&& sp_parse_string(s, a5) == Some((d.edge_type@, a6))
    &&& text_at(s, a6, l4)
    &&& a6 + l4.len() == i + enc_edge(d).len()
}

/// An encoded edge object decomposes into its pieces.
proof fn lemma_edge_layout(s: Seq<char>, i: int, d: Edge)
    requires
        wf_edge(d),
        text_at(s, i, enc_edge(d)),
    ensures
        edge_layout(s, i, d),
{
    let l1 = "{\"from\":"@;
    let f1 = enc_u64(d.from as int);
    let l2 = ",\"to\":"@;
    let f2 = enc_u64(d.to as int);
    let l3 = ",\"edge_type\":"@;
    let f3 = enc_string(d.edge_type@);
    let l4 = "}"@;
    lemma_split2(s, i, l1, f1 + (l2 + (f2 + (l3 + (f3 + l4)))));
    let a1 = i + l1.len();
    lemma_split2(s, a1, f1, l2 + (f2 + (l3 + (f3 + l4))));
    let a2 = a1 + f1.len();
    lemma_split2(s, a2, l2, f2 + (l3 + (f3 + l4)));
    let a3 = a2 + l2.len();
    lemma_split2(s, a3, f2, l3 + (f3 + l4));
    let a4 = a3 + f2.len();
    lemma_split2(s, a4, l3, f3 + l4);
    let a5 = a4 + l3.len();
    lemma_split2(s, a5, f3, l4);
    let a6 = a5 + f3.len();
    reveal_strlit(",\"to\":");
    reveal_strlit(",\"edge_type\":");
    lemma_text_char(s, a2, l2, 0);
    lemma_text_char(s, a4, l3, 0);
    lemma_parse_enc_u64(s, a1, d.from);
    lemma_parse_enc_u64(s, a3, d.to);
    lemma_parse_enc_string(s, a5, d.edge_type@);
}

/// Parses one edge object.
#[verifier::rlimit(100)]
fn p_edge(s: &Vec<char>, i: usize) -> (r: Option<(Edge, usize)>)
    requires
        i <= s@.len(),
    ensures
        match r {
            Some(p) => i < p.1 <= s@.len() && forall|d: Edge|
                wf_edge(d) && text_at(s@, i as int, #[trigger] enc_edge(d)) ==> (edge_like(p.0, d)
                    && p.1 == i + enc_edge(d).len()),
            None => forall|d: Edge| !(wf_edge(d) && text_at(s@, i as int, #[trigger] enc_edge(d))),
        },
{
    proof {
        assert forall|d: Edge|
            wf_edge(d) && text_at(s@, i as int, #[trigger] enc_edge(d)) implies edge_layout(
            s@,
            i as int,
            d,
        ) by {
            lemma_edge_layout(s@, i as int, d);
        }
    }
    let j1 = match expect_str(s, i, "{\"from\":") {
        Some(j) => j,
        None => {
            return None;
        },
    };
    let (from, j2) = match p_u64(s, j1) {
        Some(p) => p,
        None => {
            return None;
        },
    };
    let j3 = match expect_str(s, j2, ",\"to\":") {
        Some(j) => j,
        None => {
            return None;
        },
    };
    let (to, j4) = match p_u64(s, j3) {
        Some(p) => p,
        None => {
            return None;
        },
    };
    let j5 = match expect_str(s, j4, ",\"edge_type\":") {
        Some(j) => j,
        None => {
            return None;
        },
    };
    let (etcs, j6) = match p_string(s, j5) {
        Some(p) => p,
        None => {
            return None;
        },
    };
    let j7 = match expect_str(s, j6, "}") {
        Some(j) => j,
        None => {
            return None;
        },
    };
    let e = Edge { from, to, edge_type: chars_string(&etcs) };
    Some((e, j7))
}

/// The shape of an encoded non-empty edge list: an edge object for the
/// first element, followed by a comma or the closing bracket, and for a
/// comma the remaining elements after it.
proof fn lemma_edge_items_head(s: Seq<char>, i: int, w: Seq<Edge>)
    requires
        w.len() > 0,
        wf_edges(w),
        text_at(s, i, enc_edge_items(w)),
    ensures
        text_at(s, i, enc_edge(w[0])),
        i + enc_edge(w[0]).len() < s.len(),
        w.len() == 1 ==> s[i + enc_edge(w[0]).len()] == ']' && i + enc_edge_items(w).len() == i
            + enc_edge(w[0]).len() + 1,
        w.len() > 1 ==> s[i + enc_edge(w[0]).len()] == ',' && text_at(
            s,
            i + enc_edge(w[0]).len() + 1,
            enc_edge_items(w.drop_first()),
        ) && enc_edge_items(w).len() == enc_edge(w[0]).len() + 1 + enc_edge_items(
            w.drop_first(),
        ).len(),
{
    let e0 = enc_edge(w[0]);
    assert(wf_edges(w.drop_first())) by {
        assert(forall|k: int| 0 <= k < w.drop_first().len() ==> #[trigger] w.drop_first()[k] == w[
            k + 1
        ]);
    }
    if w.len() == 1 {
        assert(enc_edge_items(w) == e0 + seq![']']);
        lemma_split2(s, i, e0, seq![']']);
        lemma_text_char(s, i + e0.len(), seq![']'], 0);
    } else {
        assert(enc_edge_items(w) == e0 + (seq![','] + enc_edge_items(w.drop_first())));
        lemma_split2(s, i, e0, seq![','] + enc_edge_items(w.drop_first()));
        lemma_split2(s, i + e0.len(), seq![','], enc_edge_items(w.drop_first()));
        lemma_text_char(s, i + e0.len(), seq![','], 0);
    }
}

/// Parses the comma-separated elements of an edge list, with its
/// closing bracket.
#[verifier::rlimit(100)]
fn p_edge_items(s: &Vec<char>, i: usize) -> (r: Option<(Vec<Edge>, usize)>)
    requires
        i <= s@.len(),
    ensures
        match r {
            Some(p) => i < p.1 <= s@.len() && forall|w: Seq<Edge>|
                w.len() > 0 && wf_edges(w) && text_at(
                    s@,
                    i as int,
                    #[trigger] enc_edge_items(w),
                ) ==> (edges_like(p.0@, w) && p.1 == i + enc_edge_items(w).len()),
            None => forall|w: Seq<Edge>|
                !(w.len() > 0 && wf_edges(w) && text_at(
                    s@,
                    i as int,
                    #[trigger] enc_edge_items(w),
                )),
        },
    decreases s@.len() - i,
{
    let first = p_edge(s, i);
    match first {
        None => {
            proof {
                assert forall|w: Seq<Edge>|
                    !(w.len() > 0 && wf_edges(w) && text_at(
                        s@,
                        i as int,
                        #[trigger] enc_edge_items(w),
                    )) by {
                    if w.len() > 0 && wf_edges(w) && text_at(s@, i as int, enc_edge_items(w)) {
                        lemma_edge_items_head(s@, i as int, w);
                    }
                }
            }
            None
        },
        Some((x, j)) => {
            proof {
                assert forall|w: Seq<Edge>|
                    w.len() > 0 && wf_edges(w) && text_at(
                        s@,
                        i as int,
                        #[trigger] enc_edge_items(w),
                    ) implies (edge_like(x, w[0]) && j == i + enc_edge(w[0]).len() && j < s@.len()
                    && (if w.len() == 1 {
                    s@[j as int] == ']'
                } else {
                    s@[j as int] == ','
                })) by {
                    lemma_edge_items_head(s@, i as int, w);
                }
            }
            if j < s.len() && s[j] == ',' {
                let rest = p_edge_items(s, j + 1);
                match rest {
                    None => {
                        proof {
                            assert forall|w: Seq<Edge>|
                                !(w.len() > 0 && wf_edges(w) && text_at(
                                    s@,
                                    i as int,
                                    #[trigger] enc_edge_items(w),
                                )) by {
                                if w.len() > 0 && wf_edges(w) && text_at(
                                    s@,
                                    i as int,
                                    enc_edge_items(w),
                                ) {
                                    lemma_edge_items_head(s@, i as int, w);
                                    assert(w.len() > 1);
                                    assert(w.drop_first().len() > 0 && wf_edges(w.drop_first())
                                        && text_at(s@, j + 1, enc_edge_items(w.drop_first())));
                                }
                            }
                        }
                        None
                    },
                    Some((mut v2, j2)) => {
                        v2.insert(0, x);
                        proof {
                            assert forall|w: Seq<Edge>|
                                w.len() > 0 && wf_edges(w) && text_at(
                                    s@,
                                    i as int,
                                    #[trigger] enc_edge_items(w),
                                ) implies (edges_like(v2@, w) && j2 == i + enc_edge_items(
                                w,
                            ).len()) by {
                                lemma_edge_items_head(s@, i as int, w);
                                assert(w.len() > 1);
                                assert(w.drop_first().len() > 0 && wf_edges(w.drop_first())
                                    && text_at(s@, j + 1, enc_edge_items(w.drop_first())));
                                assert(edges_like(v2@.drop_first(), w.drop_first()));
                                assert forall|k: int| 0 <= k < v2@.len() implies edge_like(
                                    #[trigger] v2@[k],
                                    #[trigger] w[k],
                                ) by {
                                    if k > 0 {
                                        assert(v2@[k] == v2@.drop_first()[k - 1]);
                                        assert(w[k] == w.drop_first()[k - 1]);
                                    }
                                }
                            }
                        }
                        Some((v2, j2))
                    },
                }
            } else if j < s.len() && s[j] == ']' {
                let mut v: Vec<Edge> = Vec::new();
                v.push(x);
                proof {
                    assert forall|w: Seq<Edge>|
                        w.len() > 0 && wf_edges(w) && text_at(
                            s@,
                            i as int,
                            #[trigger] enc_edge_items(w),
                        ) implies (edges_like(v@, w) && j + 1 == i + enc_edge_items(w).len()) by {
                        lemma_edge_items_head(s@, i as int, w);
                        assert(w.len() == 1);
                    }
                }
                Some((v, j + 1))
            } else {
                proof {
                    assert forall|w: Seq<Edge>|
                        !(w.len() > 0 && wf_edges(w) && text_at(
                            s@,
                            i as int,
                            #[trigger] enc_edge_items(w),
                        )) by {
                        if w.len() > 0 && wf_edges(w) && text_at(s@, i as int, enc_edge_items(w)) {
                            lemma_edge_items_head(s@, i as int, w);
                        }
                    }
                }
                None
            }
        },
    }
}

/// Parses a bracketed list of edge objects.
fn p_edge_list(s: &Vec<char>, i: usize) -> (r: Option<(Vec<Edge>, usize)>)
    requires
        i <= s@.len(),
    ensures
        match r {
            Some(p) => i < p.1 <= s@.len() && forall|w: Seq<Edge>|
                wf_edges(w) && text_at(s@, i as int, #[trigger] enc_edge_list(w)) ==> (edges_like(
                    p.0@,
                    w,
                ) && p.1 == i + enc_edge_list(w).len()),
            None => forall|w: Seq<Edge>|
                !(wf_edges(w) && text_at(s@, i as int, #[trigger] enc_edge_list(w))),
        },
{
    if !(i < s.len() && s[i] == '[') {
        proof {
            assert forall|w: Seq<Edge>|
                !(wf_edges(w) && text_at(s@, i as int, #[trigger] enc_edge_list(w))) by {
                if wf_edges(w) && text_at(s@, i as int, enc_edge_list(w)) {
                    lemma_text_char(s@, i as int, enc_edge_list(w), 0);
                    if w.len() > 0 {
                        assert(enc_edge_list(w)[0] == '[');
                    }
                }
            }
        }
        return None;
    }
    if i + 1 < s.len() && s[i + 1] == ']' {
        proof {
            reveal_strlit("{\"from\":");
            assert forall|w: Seq<Edge>|
                wf_edges(w) && text_at(s@, i as int, #[trigger] enc_edge_list(w)) implies (
            edges_like(Seq::<Edge>::empty(), w) && i + 2 == i + enc_edge_list(w).len()) by {
                if w.len() > 0 {
                    lemma_split2(s@, i as int, seq!['['], enc_edge_items(w));
                    lemma_edge_items_head(s@, i + 1, w);
                    lemma_text_char(s@, i + 1, enc_edge_items(w), 0);
                    assert(enc_edge_items(w)[0] == enc_edge(w[0])[0]);
                    lemma_text_char(s@, i + 1, enc_edge(w[0]), 0);
                    assert(enc_edge(w[0])[0] == ("{\"from\":"@)[0]);
                }
            }
        }
        let v: Vec<Edge> = Vec::new();
        return Some((v, i + 2));
    }
    let rest = p_edge_items(s, i + 1);
    match rest {
        None => {
            proof {
                assert forall|w: Seq<Edge>|
                    !(wf_edges(w) && text_at(s@, i as int, #[trigger] enc_edge_list(w))) by {
                    if wf_edges(w) && text_at(s@, i as int, enc_edge_list(w)) {
                        if w.len() == 0 {
                            lemma_text_char(s@, i as int, enc_edge_list(w), 1);
                        } else {
                            lemma_split2(s@, i as int, seq!['['], enc_edge_items(w));
                        }
                    }
                }
            }
            None
        },
        Some((v, j)) => {
            proof {
                assert forall|w: Seq<Edge>|
                    wf_edges(w) && text_at(s@, i as int, #[trigger] enc_edge_list(w)) implies (
                edges_like(v@, w) && j == i + enc_edge_list(w).len()) by {
                    if w.len() == 0 {
                        lemma_text_char(s@, i as int, enc_edge_list(w), 1);
                    } else {
                        lemma_split2(s@, i as int, seq!['['], enc_edge_items(w));
                    }
                }
            }
            Some((v, j))
        },
    }
}

/// Parses an optional whole number: `null` or a numeral.
fn p_opt_u64(s: &Vec<char>, i: usize) -> (r: Option<(Option<u64>, usize)>)
    requires
        i <= s@.len(),
    ensures
        match r {
            Some(p) => i < p.1 <= s@.len() && forall|q: Option<u64>|
                text_at(s@, i as int, #[trigger] enc_opt_u64(q)) && (i + enc_opt_u64(q).len()
                    < s@.len() ==> !is_digit(s@[i + enc_opt_u64(q).len()])) ==> (p.0 == q && p.1
                    == i + enc_opt_u64(q).len()),
            None => forall|q: Option<u64>|
                !(text_at(s@, i as int, #[trigger] enc_opt_u64(q)) && (i + enc_opt_u64(q).len()
                    < s@.len() ==> !is_digit(s@[i + enc_opt_u64(q).len()]))),
        },
{
    proof {
        reveal_strlit("null");
        assert forall|q: Option<u64>|
            text_at(s@, i as int, #[trigger] enc_opt_u64(q)) && q is Some implies (is_digit(
            s@[i as int],
        ) && s@[i as int] != 'n') by {
            lemma_enc_u64_first(q->0 as int);
            lemma_text_char(s@, i as int, enc_opt_u64(q), 0);
        }
    }
    match expect_str(s, i, "null") {
        Some(j) => {
            proof {
                assert forall|q: Option<u64>|
                    text_at(s@, i as int, #[trigger] enc_opt_u64(q)) implies (q is None && j == i
                    + enc_opt_u64(q).len()) by {
                    if q is Some {
                        lemma_text_char(s@, i as int, "null"@, 0);
                    } else {
                        assert(enc_opt_u64(q) == "null"@);
                    }
                }
            }
            Some((None, j))
        },
        None => {
            match p_u64(s, i) {
                Some((v, j)) => {
                    proof {
                        assert forall|q: Option<u64>|
                            text_at(s@, i as int, #[trigger] enc_opt_u64(q)) && (i + enc_opt_u64(
                                q,
                            ).len() < s@.len() ==> !is_digit(
                                s@[i + enc_opt_u64(q).len()],
                            )) implies (Some(v) == q && j == i + enc_opt_u64(q).len()) by {
                            if q is None {
                                assert(enc_opt_u64(q) == "null"@);
                            } else {
                                lemma_parse_enc_u64(s@, i as int, q->0);
                            }
                        }
                    }
                    Some((Some(v), j))
                },
                None => {
                    proof {
                        assert forall|q: Option<u64>|
                            !(text_at(s@, i as int, #[trigger] enc_opt_u64(q)) && (i + enc_opt_u64(
                                q,
                            ).len() < s@.len() ==> !is_digit(s@[i + enc_opt_u64(q).len()]))) by {
                            if text_at(s@, i as int, enc_opt_u64(q)) {
                                if q is None {
                                    assert(enc_opt_u64(q) == "null"@);
                                } else {
                                    if (i + enc_opt_u64(q).len() < s@.len() ==> !is_digit(
                                        s@[i + enc_opt_u64(q).len()],
                                    )) {
                                        lemma_parse_enc_u64(s@, i as int, q->0);
                                    }
                                }
                            }
                        }
                    }
                    None
                },
            }
        },
    }
}

/// Parses an optional string: `null` or a quoted token.
fn p_opt_string(s: &Vec<char>, i: usize) -> (r: Option<(Option<String>, usize)>)
    requires
        i <= s@.len(),
    ensures
        match r {
            Some(p) => i < p.1 <= s@.len() && forall|q: Option<String>|
                (match q {
                    Option::Some(sv) => str_ok(sv@),
                    Option::None => true,
                }) && text_at(s@, i as int, #[trigger] enc_opt_string(q)) ==> (opt_string_like(
                    p.0,
                    q,
                ) && p.1 == i + enc_opt_string(q).len()),
            None => forall|q: Option<String>|
                !((match q {
                    Option::Some(sv) => str_ok(sv@),
                    Option::None => true,
                }) && text_at(s@, i as int, #[trigger] enc_opt_string(q))),
        },
{
    proof {
        reveal_strlit("null");
        assert forall|q: Option<String>|
            text_at(s@, i as int, #[trigger] enc_opt_string(q)) && q is Some implies s@[i as int]
            == '"' by {
            lemma_text_char(s@, i as int, enc_opt_string(q), 0);
            assert(enc_opt_string(q)[0] == '"');
        }
    }
    match expect_str(s, i, "null") {
        Some(j) => {
            proof {
                assert forall|q: Option<String>|
                    text_at(s@, i as int, #[trigger] enc_opt_string(q)) implies (q is None && j
                    == i + enc_opt_string(q).len()) by {
                    if q is Some {
                        lemma_text_char(s@, i as int, "null"@, 0);
                    } else {
                        assert(enc_opt_string(q) == "null"@);
                    }
                }
            }
            Some((None, j))
        },
        None => {
            match p_string(s, i) {
                Some((cs, j)) => {
                    let st = chars_string(&cs);
                    proof {
                        assert forall|q: Option<String>|
                            (match q {
                                Option::Some(sv) => str_ok(sv@),
                                Option::None => true,
                            }) && text_at(s@, i as int, #[trigger] enc_opt_string(q)) implies (
                        opt_string_like(Some(st), q) && j == i + enc_opt_string(q).len()) by {
                            if q is None {
                                assert(enc_opt_string(q) == "null"@);
                            } else {
                                lemma_parse_enc_string(s@, i as int, q->0@);
                            }
                        }
                    }
                    Some((Some(st), j))
                },
                None => {
                    proof {
                        assert forall|q: Option<String>|
                            !((match q {
                                Option::Some(sv) => str_ok(sv@),
                                Option::None => true,
                            }) && text_at(s@, i as int, #[trigger] enc_opt_string(q))) by {
                            if text_at(s@, i as int, enc_opt_string(q)) {
                                if q is None {
                                    assert(enc_opt_string(q) == "null"@);
                                } else {
                                    if str_ok(q->0@) {
                                        lemma_parse_enc_string(s@, i as int, q->0@);
                                    }
                                }
                            }
                        }
                    }
                    None
                },
            }
        },
    }
}


/// Where each piece of an encoded node payload stands.
pub open spec fn node_layout(s: Seq<char>, i: int, n: Node) -> bool {
    let l1 = ",\"data\":{\"id\":"@;
    let f1 = enc_u64(n.id as int);
    let l2 = ",\"label\":"@;
    let f2 = enc_string(n.label@);
    let l3 = ",\"embedding\":"@;
    let f3 = enc_i64_list(n.embedding@);
    let l4 = ",\"edges\":"@;
    let f4 = enc_edge_list(n.edges@);
    let l5 = ",\"timestamp\":"@;
    let f5 = enc_u64(n.timestamp as int);
    let l6 = ",\"agent_id\":"@;
    let f6 = enc_opt_u64(n.agent_id);
    let l7 = ",\"rule_tags\":"@;
    let f7 = enc_str_list(n.rule_tags@);
    let l8 = "}}"@;
    let b1 = i + l1.len();
    let b2 = b1 + f1.len() + l2.len();
    let b3 = b2 + f2.len() + l3.len();
    let b4 = b3 + f3.len() + l4.len();
    let b5 = b4 + f4.len() + l5.len();
    let b6 = b5 + f5.len() + l6.len();
    let b7 = b6 + f6.len() + l7.len();
    let b8 = b7 + f7.len();
    &&& text_at(s, i, l1)
    &&& sp_parse_u64(s, b1) == Some((n.id, b1 + f1.len()))
    &&& text_at(s, b1 + f1.len(), l2)
    &&& sp_parse_string(s, b2) == Some((n.label@, b2 + f2.len()))
    &&& text_at(s, b2 + f2.len(), l3)
    &&& text_at(s, b3, f3)
    &&& text_at(s, b3 + f3.len(), l4)
    &&& text_at(s, b4, f4)
    &&& text_at(s, b4 + f4.len(), l5)
    &&& sp_parse_u64(s, b5) == Some((n.timestamp, b5 + f5.len()))
    &&& text_at(s, b5 + f5.len(), l6)
    &&& text_at(s, b6, f6)
    &&& b6 + f6.len() < s.len() && !is_digit(s[b6 + f6.len()])
    &&& text_at(s, b6 + f6.len(), l7)
    &&& text_at(s, b7, f7)
    &&& text_at(s, b8, l8)
    &&& b8 + l8.len() == i + enc_payload(WalRecord::Node { data: n }).len()
}

/// An encoded node payload decomposes into its pieces.
proof fn lemma_node_layout(s: Seq<char>, i: int, n: Node)
    requires
        wf_node(n),
        text_at(s, i, enc_payload(WalRecord::Node { data: n })),
    ensures
        node_layout(s, i, n),
{
    let l1 = ",\"data\":{\"id\":"@;
    let f1 = enc_u64(n.id as int);
    let l2 = ",\"label\":"@;
    let f2 = enc_string(n.label@);
    let l3 = ",\"embedding\":"@;
    let f3 = enc_i64_list(n.embedding@);
    let l4 = ",\"edges\":"@;
    let f4 = enc_edge_list(n.edges@);
    let l5 = ",\"timestamp\":"@;
    let f5 = enc_u64(n.timestamp as int);
    let l6 = ",\"agent_id\":"@;
    let f6 = enc_opt_u64(n.agent_id);
    let l7 = ",\"rule_tags\":"@;
    let f7 = enc_str_list(n.rule_tags@);
    let l8 = "}}"@;
    let r14 = f7 + l8;
    let r13 = l7 + r14;
    let r12 = f6 + r13;
    let r11 = l6 + r12;
    let r10 = f5 + r11;
    let r9 = l5 + r10;
    let r8 = f4 + r9;
    let r7 = l4 + r8;
    let r6 = f3 + r7;
    let r5 = l3 + r6;
    let r4 = f2 + r5;
    let r3 = l2 + r4;
    let r2 = f1 + r3;
    lemma_split2(s, i, l1, r2);
    let b1 = i + l1.len();
    lemma_split2(s, b1, f1, r3);
    lemma_split2(s, b1 + f1.len(), l2, r4);
    let b2 = b1 + f1.len() + l2.len();
    lemma_split2(s, b2, f2, r5);
    lemma_split2(s, b2 + f2.len(), l3, r6);
    let b3 = b2 + f2.len() + l3.len();
    lemma_split2(s, b3, f3, r7);
    lemma_split2(s, b3 + f3.len(), l4, r8);
    let b4 = b3 + f3.len() + l4.len();
    lemma_split2(s, b4, f4, r9);
    lemma_split2(s, b4 + f4.len(), l5, r10);
    let b5 = b4 + f4.len() + l5.len();
    lemma_split2(s, b5, f5, r11);
    lemma_split2(s, b5 + f5.len(), l6, r12);
    let b6 = b5 + f5.len() + l6.len();
    lemma_split2(s, b6, f6, r13);
    lemma_split2(s, b6 + f6.len(), l7, r14);
    let b7 = b6 + f6.len() + l7.len();
    lemma_split2(s, b7, f7, l8);
    let b8 = b7 + f7.len();
    reveal_strlit(",\"label\":");
    reveal_strlit(",\"embedding\":");
    reveal_strlit(",\"timestamp\":");
    reveal_strlit(",\"agent_id\":");
    reveal_strlit(",\"rule_tags\":");
    lemma_text_char(s, b1 + f1.len(), l2, 0);
    lemma_text_char(s, b2 + f2.len(), l3, 0);
    lemma_text_char(s, b4 + f4.len(), l5, 0);
    lemma_text_char(s, b5 + f5.len(), l6, 0);
    lemma_text_char(s, b6 + f6.len(), l7, 0);
    lemma_parse_enc_u64(s, b1, n.id);
    lemma_parse_enc_string(s, b2, n.label@);
    lemma_parse_enc_u64(s, b5, n.timestamp);
}

/// Parses a node payload.
#[verifier::rlimit(100)]
fn p_payload_node(s: &Vec<char>, i: usize) -> (r: Option<(Node, usize)>)
    requires
        i <= s@.len(),
    ensures
        match r {
            Some(p) => i < p.1 <= s@.len() && forall|n: Node|
                wf_node(n) && text_at(
                    s@,
                    i as int,
                    #[trigger] enc_payload(WalRecord::Node { data: n }),
                ) ==> (node_like(p.0, n) && p.1 == i + enc_payload(
                    WalRecord::Node { data: n },
                ).len()),
            None => forall|n: Node|
                !(wf_node(n) && text_at(
                    s@,
                    i as int,
                    #[trigger] enc_payload(WalRecord::Node { data: n }),
                )),
        },
{
    proof {
        assert forall|n: Node|
            wf_node(n) && text_at(
                s@,
                i as int,
                #[trigger] enc_payload(WalRecord::Node { data: n }),
            ) implies node_layout(s@, i as int, n) by {
            lemma_node_layout(s@, i as int, n);
        }
    }
    let j1 = match expect_str(s, i, ",\"data\":{\"id\":") {
        Some(j) => j,
        None => {
            return None;
        },
    };
    let (id, j2) = match p_u64(s, j1) {
        Some(p) => p,
        None => {
            return None;
        },
    };
    let j3 = match expect_str(s, j2, ",\"label\":") {
        Some(j) => j,
        None => {
            return None;
        },
    };
    let (labelcs, j4) = match p_string(s, j3) {
        Some(p) => p,
        None => {
            return None;
        },
    };
    let j5 = match expect_str(s, j4, ",\"embedding\":") {
        Some(j) => j,
        None => {
            return None;
        },
    };
    let (emb, j6) = match p_i64_list(s, j5) {
        Some(p) => p,
        None => {
            return None;
        },
    };
    let j7 = match expect_str(s, j6, ",\"edges\":") {
        Some(j) => j,
        None => {
            return None;
        },
    };
    let (edges, j8) = match p_edge_list(s, j7) {
        Some(p) => p,
        None => {
            return None;
        },
    };
    let j9 = match expect_str(s, j8, ",\"timestamp\":") {
        Some(j) => j,
        None => {
            return None;
        },
    };
    let (ts, j10) = match p_u64(s, j9) {
        Some(p) => p,
        None => {
            return None;
        },
    };
    let j11 = match expect_str(s, j10, ",\"agent_id\":") {
        Some(j) => j,
        None => {
            return None;
        },
    };
    let (agent, j12) = match p_opt_u64(s, j11) {
        Some(p) => p,
        None => {
            return None;
        },
    };
    let j13 = match expect_str(s, j12, ",\"rule_tags\":") {
        Some(j) => j,
        None => {
            return None;
        },
    };
    let (tags, j14) = match p_str_list(s, j13) {
        Some(p) => p,
        None => {
            return None;
        },
    };
    let j15 = match expect_str(s, j14, "}}") {
        Some(j) => j,
        None => {
            return None;
        },
    };
    let nd = Node {
        id,
        label: chars_string(&labelcs),
        embedding: emb,
        edges,
        timestamp: ts,
        agent_id: agent,
        rule_tags: tags,
    };
    Some((nd, j15))
}

/// Where each piece of an encoded decision payload stands.
pub open spec fn decision_layout(s: Seq<char>, i: int, d: DecisionRecord) -> bool {
    let l1 = ",\"data\":{\"id\":"@;
    let f1 = enc_u64(d.id as int);
    let l2 = ",\"agent_id\":"@;
    let f2 = enc_u64(d.agent_id as int);
    let l3 = ",\"created_at\":"@;
    let f3 = enc_u64(d.created_at as int);
    let l4 = ",\"root_node\":"@;
    let f4 = enc_u64(d.root_node as int);
    let l5 = ",\"path\":"@;
    let f5 = enc_u64_list(d.path@);
    let l6 = ",\"score\":"@;
    let f6 = enc_fixed(d.score as int);
    let l7 = ",\"notes\":"@;
    let f7 = enc_opt_string(d.notes);
    let l8 = "}}"@;
    let b1 = i + l1.len();
    let b2 = b1 + f1.len() + l2.len();
    let b3 = b2 + f2.len() + l3.len();
    let b4 = b3 + f3.len() + l4.len();
    let b5 = b4 + f4.len() + l5.len();
    let b6 = b5 + f5.len() + l6.len();
    let b7 = b6 + f6.len() + l7.len();
    let b8 = b7 + f7.len();
    &&& text_at(s, i, l1)
    &&& sp_parse_u64(s, b1) == Some((d.id, b1 + f1.len()))
    &&& text_at(s, b1 + f1.len(), l2)
    &&& sp_parse_u64(s, b2) == Some((d.agent_id, b2 + f2.len()))
    &&& text_at(s, b2 + f2.len(), l3)
    &&& sp_parse_u64(s, b3) == Some((d.created_at, b3 + f3.len()))
    &&& text_at(s, b3 + f3.len(), l4)
    &&& sp_parse_u64(s, b4) == Some((d.root_node, b4 + f4.len()))
    &&& text_at(s, b4 + f4.len(), l5)
    &&& text_at(s, b5, f5)
    &&& text_at(s, b5 + f5.len(), l6)
    &&& sp_parse_fixed(s, b6) == Some((d.score, b6 + f6.len()))
    &&& text_at(s, b6 + f6.len(), l7)
    &&& text_at(s, b7, f7)
    &&& text_at(s, b8, l8)
    &&& b8 + l8.len() == i + enc_payload(WalRecord::Decision { data: d }).len()
}

/// An encoded decision payload decomposes into its pieces.
proof fn lemma_decision_layout(s: Seq<char>, i: int, d: DecisionRecord)
    requires
        wf_decision(d),
        text_at(s, i, enc_payload(WalRecord::Decision { data: d })),
    ensures
        decision_layout(s, i, d),
{
    let l1 = ",\"data\":{\"id\":"@;
    let f1 = enc_u64(d.id as int);
    let l2 = ",\"agent_id\":"@;
    let f2 = enc_u64(d.agent_id as int);
    let l3 = ",\"created_at\":"@;
    let f3 = enc_u64(d.created_at as int);
    let l4 = ",\"root_node\":"@;
    let f4 = enc_u64(d.root_node as int);
    let l5 = ",\"path\":"@;
    let f5 = enc_u64_list(d.path@);
    let l6 = ",\"score\":"@;
    let f6 = enc_fixed(d.score as int);
    let l7 = ",\"notes\":"@;
    let f7 = enc_opt_string(d.notes);
    let l8 = "}}"@;
    let r14 = f7 + l8;
    let r13 = l7 + r14;
    let r12 = f6 + r13;
    let r11 = l6 + r12;
    let r10 = f5 + r11;
    let r9 = l5 + r10;
    let r8 = f4 + r9;
    let r7 = l4 + r8;
    let r6 = f3 + r7;
    let r5 = l3 + r6;
    let r4 = f2 + r5;
    let r3 = l2 + r4;
    let r2 = f1 + r3;
    lemma_split2(s, i, l1, r2);
    let b1 = i + l1.len();
    lemma_split2(s, b1, f1, r3);
    lemma_split2(s, b1 + f1.len(), l2, r4);
    let b2 = b1 + f1.len() + l2.len();
    lemma_split2(s, b2, f2, r5);
    lemma_split2(s, b2 + f2.len(), l3, r6);
    let b3 = b2 + f2.len() + l3.len();
    lemma_split2(s, b3, f3, r7);
    lemma_split2(s, b3 + f3.len(), l4, r8);
    let b4 = b3 + f3.len() + l4.len();
    lemma_split2(s, b4, f4, r9);
    lemma_split2(s, b4 + f4.len(), l5, r10);
    let b5 = b4 + f4.len() + l5.len();
    lemma_split2(s, b5, f5, r11);
    lemma_split2(s, b5 + f5.len(), l6, r12);
    let b6 = b5 + f5.len() + l6.len();
    lemma_split2(s, b6, f6, r13);
    lemma_split2(s, b6 + f6.len(), l7, r14);
    let b7 = b6 + f6.len() + l7.len();
    lemma_split2(s, b7, f7, l8);
    let b8 = b7 + f7.len();
    reveal_strlit(",\"agent_id\":");
    reveal_strlit(",\"created_at\":");
    reveal_strlit(",\"root_node\":");
    reveal_strlit(",\"path\":");
    reveal_strlit(",\"score\":");
    reveal_strlit(",\"notes\":");
    lemma_text_char(s, b1 + f1.len(), l2, 0);
    lemma_text_char(s, b2 + f2.len(), l3, 0);
    lemma_text_char(s, b3 + f3.len(), l4, 0);
    lemma_text_char(s, b4 + f4.len(), l5, 0);
    lemma_text_char(s, b5 + f5.len(), l6, 0);
    lemma_text_char(s, b6 + f6.len(), l7, 0);
    lemma_parse_enc_u64(s, b1, d.id);
    lemma_parse_enc_u64(s, b2, d.agent_id);
    lemma_parse_enc_u64(s, b3, d.created_at);
    lemma_parse_enc_u64(s, b4, d.root_node);
    lemma_parse_enc_fixed(s, b6, d.score);
}

/// Parses a decision payload.
#[verifier::rlimit(100)]
fn p_payload_decision(s: &Vec<char>, i: usize) -> (r: Option<(DecisionRecord, usize)>)
    requires
        i <= s@.len(),
    ensures
        match r {
            Some(p) => i < p.1 <= s@.len() && forall|d: DecisionRecord|
                wf_decision(d) && text_at(
                    s@,
                    i as int,
                    #[trigger] enc_payload(WalRecord::Decision { data: d }),
                ) ==> (dec_like(p.0, d) && p.1 == i + enc_payload(
                    WalRecord::Decision { data: d },
                ).len()),
            None => forall|d: DecisionRecord|
                !(wf_decision(d) && text_at(
                    s@,
                    i as int,
                    #[trigger] enc_payload(WalRecord::Decision { data: d }),
                )),
        },
{
    proof {
        assert forall|d: DecisionRecord|
            wf_decision(d) && text_at(
                s@,
                i as int,
                #[trigger] enc_payload(WalRecord::Decision { data: d }),
            ) implies decision_layout(s@, i as int, d) by {
            lemma_decision_layout(s@, i as int, d);
        }
    }
    let j1 = match expect_str(s, i, ",\"data\":{\"id\":") {
        Some(j) => j,
        None => {
            return None;
        },
    };
    let (id, j2) = match p_u64(s, j1) {
        Some(p) => p,
        None => {
            return None;
        },
    };
    let j3 = match expect_str(s, j2, ",\"agent_id\":") {
        Some(j) => j,
        None => {
            return None;
        },
    };
    let (agent_id, j4) = match p_u64(s, j3) {
        Some(p) => p,
        None => {
            return None;
        },
    };
    let j5 = match expect_str(s, j4, ",\"created_at\":") {
        Some(j) => j,
        None => {
            return None;
        },
    };
    let (created_at, j6) = match p_u64(s, j5) {
        Some(p) => p,
        None => {
            return None;
        },
    };
    let j7 = match expect_str(s, j6, ",\"root_node\":") {
        Some(j) => j,
        None => {
            return None;
        },
    };
    let (root_node, j8) = match p_u64(s, j7) {
        Some(p) => p,
        None => {
            return None;
        },
    };
    let j9 = match expect_str(s, j8, ",\"path\":") {
        Some(j) => j,
        None => {
            return None;
        },
    };
    let (path, j10) = match p_u64_list(s, j9) {
        Some(p) => p,
        None => {
            return None;
        },
    };
    let j11 = match expect_str(s, j10, ",\"score\":") {
        Some(j) => j,
        None => {
            return None;
        },
    };
    let (score, j12) = match p_fixed(s, j11) {
        Some(p) => p,
        None => {
            return None;
        },
    };
    let j13 = match expect_str(s, j12, ",\"notes\":") {
        Some(j) => j,
        None => {
            return None;
        },
    };
    let (notes, j14) = match p_opt_string(s, j13) {
        Some(p) => p,
        None => {
            return None;
        },
    };
    let j15 = match expect_str(s, j14, "}}") {
        Some(j) => j,
        None => {
            return None;
        },
    };
    let dd = DecisionRecord { id, agent_id, created_at, root_node, path, score, notes };
    Some((dd, j15))
}


/// Where each piece of an encoded edge payload stands.
pub open spec fn edge_payload_layout(s: Seq<char>, i: int, from: u64, to: u64, et: String) -> bool {
    let l1 = ",\"from\":"@;
    let f1 = enc_u64(from as int);
    let l2 = ",\"to\":"@;
    let f2 = enc_u64(to as int);
    let l3 = ",\"edge_type\":"@;
    let f3 = enc_string(et@);
    let l4 = "}"@;
    let b1 = i + l1.len();
    let b2 = b1 + f1.len() + l2.len();
    let b3 = b2 + f2.len() + l3.len();
    &&& text_at(s, i, l1)
    &&& sp_parse_u64(s, b1) == Some((from, b1 + f1.len()))
    &&& text_at(s, b1 + f1.len(), l2)
    &&& sp_parse_u64(s, b2) == Some((to, b2 + f2.len()))
    &&& text_at(s, b2 + f2.len(), l3)
    &&& sp_parse_string(s, b3) == Some((et@, b3 + f3.len()))
    &&& text_at(s, b3 + f3.len(), l4)
    &&& b3 + f3.len() + l4.len() == i + enc_payload(
        WalRecord::Edge { from, to, edge_type: et },
    ).len()
}

/// An encoded edge payload decomposes into its pieces.
proof fn lemma_edge_payload_layout(s: Seq<char>, i: int, from: u64, to: u64, et: String)
    requires
        str_ok(et@),
        text_at(s, i, enc_payload(WalRecord::Edge { from, to, edge_type: et })),
    ensures
        edge_payload_layout(s, i, from, to, et),
{
    let l1 = ",\"from\":"@;
    let f1 = enc_u64(from as int);
    let l2 = ",\"to\":"@;
    let f2 = enc_u64(to as int);
    let l3 = ",\"edge_type\":"@;
    let f3 = enc_string(et@);
    let l4 = "}"@;
    let r6 = f3 + l4;
    let r5 = l3 + r6;
    let r4 = f2 + r5;
    let r3 = l2 + r4;
    let r2 = f1 + r3;
    lemma_split2(s, i, l1, r2);
    let b1 = i + l1.len();
    lemma_split2(s, b1, f1, r3);
    lemma_split2(s, b1 + f1.len(), l2, r4);
    let b2 = b1 + f1.len() + l2.len();
    lemma_split2(s, b2, f2, r5);
    lemma_split2(s, b2 + f2.len(), l3, r6);
    let b3 = b2 + f2.len() + l3.len();
    lemma_split2(s, b3, f3, l4);
    reveal_strlit(",\"to\":");
    reveal_strlit(",\"edge_type\":");
    lemma_text_char(s, b1 + f1.len(), l2, 0);
    lemma_text_char(s, b2 + f2.len(), l3, 0);
    lemma_parse_enc_u64(s, b1, from);
    lemma_parse_enc_u64(s, b2, to);
    lemma_parse_enc_string(s, b3, et@);
}

/// Parses an edge payload.
#[verifier::rlimit(100)]
fn p_payload_edge(s: &Vec<char>, i: usize) -> (r: Option<((u64, u64, String), usize)>)
    requires
        i <= s@.len(),
    ensures
        match r {
            Some(p) => i < p.1 <= s@.len() && forall|from: u64, to: u64, et: String|
                str_ok(et@) && text_at(
                    s@,
                    i as int,
                    #[trigger] enc_payload(WalRecord::Edge { from, to, edge_type: et }),
                ) ==> (p.0.0 == from && p.0.1 == to && p.0.2@ == et@ && p.1 == i + enc_payload(
                    WalRecord::Edge { from, to, edge_type: et },
                ).len()),
            None => forall|from: u64, to: u64, et: String|
                !(str_ok(et@) && text_at(
                    s@,
                    i as int,
                    #[trigger] enc_payload(WalRecord::Edge { from, to, edge_type: et }),
                )),
        },
{
    proof {
        assert forall|from: u64, to: u64, et: String|
            str_ok(et@) && text_at(
                s@,
                i as int,
                #[trigger] enc_payload(WalRecord::Edge { from, to, edge_type: et }),
            ) implies edge_payload_layout(s@, i as int, from, to, et) by {
            lemma_edge_payload_layout(s@, i as int, from, to, et);
        }
    }
    let j1 = match expect_str(s, i, ",\"from\":") {
        Some(j) => j,
        None => {
            return None;
        },
    };
    let (from, j2) = match p_u64(s, j1) {
        Some(p) => p,
        None => {
            return None;
        },
    };
    let j3 = match expect_str(s, j2, ",\"to\":") {
        Some(j) => j,
        None => {
            return None;
        },
    };
    let (to, j4) = match p_u64(s, j3) {
        Some(p) => p,
        None => {
            return None;
        },
    };
    let j5 = match expect_str(s, j4, ",\"edge_type\":") {
        Some(j) => j,
        None => {
            return None;
        },
    };
    let (etcs, j6) = match p_string(s, j5) {
        Some(p) => p,
        None => {
            return None;
        },
    };
    let j7 = match expect_str(s, j6, "}") {
        Some(j) => j,
        None => {
            return None;
        },
    };
    Some(((from, to, chars_string(&etcs)), j7))
}

/// Where each piece of an encoded embedding payload stands.
pub open spec fn embedding_layout(s: Seq<char>, i: int, id: u64, vec: Vec<i64>) -> bool {
    let l1 = ",\"id\":"@;
    let f1 = enc_u64(id as int);
    let l2 = ",\"vec\":"@;
    let f2 = enc_i64_list(vec@);
    let l3 = "}"@;
    let b1 = i + l1.len();
    let b2 = b1 + f1.len() + l2.len();
    &&& text_at(s, i, l1)
    &&& sp_parse_u64(s, b1) == Some((id, b1 + f1.len()))
    &&& text_at(s, b1 + f1.len(), l2)
    &&& text_at(s, b2, f2)
    &&& text_at(s, b2 + f2.len(), l3)
    &&& b2 + f2.len() + l3.len() == i + enc_payload(WalRecord::Embedding { id, vec }).len()
}

/// An encoded embedding payload decomposes into its pieces.
proof fn lemma_embedding_layout(s: Seq<char>, i: int, id: u64, vec: Vec<i64>)
    requires
        wf_i64s(vec@),
        text_at(s, i, enc_payload(WalRecord::Embedding { id, vec })),
    ensures
        embedding_layout(s, i, id, vec),
{
    let l1 = ",\"id\":"@;
    let f1 = enc_u64(id as int);
    let l2 = ",\"vec\":"@;
    let f2 = enc_i64_list(vec@);
    let l3 = "}"@;
    let r4 = f2 + l3;
    let r3 = l2 + r4;
    let r2 = f1 + r3;
    lemma_split2(s, i, l1, r2);
    let b1 = i + l1.len();
    lemma_split2(s, b1, f1, r3);
    lemma_split2(s, b1 + f1.len(), l2, r4);
    let b2 = b1 + f1.len() + l2.len();
    lemma_split2(s, b2, f2, l3);
    reveal_strlit(",\"vec\":");
    lemma_text_char(s, b1 + f1.len(), l2, 0);
    lemma_parse_enc_u64(s, b1, id);
}

/// Parses an embedding payload.
#[verifier::rlimit(100)]
fn p_payload_embedding(s: &Vec<char>, i: usize) -> (r: Option<((u64, Vec<i64>), usize)>)
    requires
        i <= s@.len(),
    ensures
        match r {
            Some(p) => i < p.1 <= s@.len() && forall|id: u64, vec: Vec<i64>|
                wf_i64s(vec@) && text_at(
                    s@,
                    i as int,
                    #[trigger] enc_payload(WalRecord::Embedding { id, vec }),
                ) ==> (p.0.0 == id && p.0.1@ == vec@ && p.1 == i + enc_payload(
                    WalRecord::Embedding { id, vec },
                ).len()),
            None => forall|id: u64, vec: Vec<i64>|
                !(wf_i64s(vec@) && text_at(
                    s@,
                    i as int,
                    #[trigger] enc_payload(WalRecord::Embedding { id, vec }),
                )),
        },
{
    proof {
        assert forall|id: u64, vec: Vec<i64>|
            wf_i64s(vec@) && text_at(
                s@,
                i as int,
                #[trigger] enc_payload(WalRecord::Embedding { id, vec }),
            ) implies embedding_layout(s@, i as int, id, vec) by {
            lemma_embedding_layout(s@, i as int, id, vec);
        }
    }
    let j1 = match expect_str(s, i, ",\"id\":") {
        Some(j) => j,
        None => {
            return None;
        },
    };
    let (id, j2) = match p_u64(s, j1) {
        Some(p) => p,
        None => {
            return None;
        },
    };
    let j3 = match expect_str(s, j2, ",\"vec\":") {
        Some(j) => j,
        None => {
            return None;
        },
    };
    let (vec, j4) = match p_i64_list(s, j3) {
        Some(p) => p,
        None => {
            return None;
        },
    };
    let j5 = match expect_str(s, j4, "}") {
        Some(j) => j,
        None => {
            return None;
        },
    };
    Some(((id, vec), j5))
}

/// What a successful decode promises for a given original record.
pub open spec fn dec_ok(r: Option<WalRecord>, q: WalRecord) -> bool {
    match r {
        Option::Some(x) => rec_like(x, q),
        Option::None => false,
    }
}

/// Reads one log line back into a record.
///
/// On the exact text that [`encode_record`] wrote for any well-formed
/// record, the result is that record, field for field; and nothing
/// decodes unless it opens with the record head.
#[verifier::rlimit(100)]
pub fn decode_record(line: &Vec<char>) -> (r: Option<WalRecord>)
    ensures
        forall|q: WalRecord|
            wf_record(q) && line@ == #[trigger] enc_record(q) ==> dec_ok(r, q),
        r is Some ==> line@.len() > 0 && line@[0] == '{',
{
    proof {
        reveal_strlit("node");
        reveal_strlit("edge");
        reveal_strlit("embedding");
        reveal_strlit("decision");
        assert("node"@ =~= kind_of(WalRecord::Node { data: arbitrary() }));
        assert("edge"@ =~= kind_of(
            WalRecord::Edge { from: 0, to: 0, edge_type: arbitrary() },
        ));
        assert("embedding"@ =~= kind_of(WalRecord::Embedding { id: 0, vec: arbitrary() }));
        assert("decision"@ =~= kind_of(WalRecord::Decision { data: arbitrary() }));
        assert forall|q: WalRecord|
            wf_record(q) && line@ == enc_record(q) implies (text_at(line@, 0, "{\"kind\":"@)
            && str_ok(kind_of(q)) && sp_parse_string(line@, "{\"kind\":"@.len() as int) == Some(
            (kind_of(q), "{\"kind\":"@.len() + enc_string(kind_of(q)).len() as int),
        ) && text_at(
            line@,
            "{\"kind\":"@.len() + enc_string(kind_of(q)).len() as int,
            enc_payload(q),
        ) && line@.len() == "{\"kind\":"@.len() + enc_string(kind_of(q)).len() + enc_payload(
            q,
        ).len()) by {
            assert(text_at(line@, 0, enc_record(q))) by {
                assert(line@.subrange(0, enc_record(q).len() as int) =~= enc_record(q));
            }
            lemma_split2(line@, 0, "{\"kind\":"@, enc_string(kind_of(q)) + enc_payload(q));
            lemma_split2(
                line@,
                "{\"kind\":"@.len() as int,
                enc_string(kind_of(q)),
                enc_payload(q),
            );
            assert(str_ok(kind_of(q)));
            lemma_parse_enc_string(line@, "{\"kind\":"@.len() as int, kind_of(q));
        }
    }
    let j0 = match expect_str(line, 0, "{\"kind\":") {
        Some(j) => j,
        None => {
            return None;
        },
    };
    proof {
        reveal_strlit("{\"kind\":");
        assert(line@.subrange(0, j0 as int)[0] == ("{\"kind\":"@)[0]);
        assert(line@[0] == '{');
    }
    let (kindcs, j1) = match p_string(line, j0) {
        Some(p) => p,
        None => {
            return None;
        },
    };
    let n = line.len();
    if chars_eq_lit(&kindcs, "node") {
        match p_payload_node(line, j1) {
            Some((nd, j2)) => {
                if j2 == n {
                    Some(WalRecord::Node { data: nd })
                } else {
                    None
                }
            },
            None => None,
        }
    } else if chars_eq_lit(&kindcs, "edge") {
        match p_payload_edge(line, j1) {
            Some(((from, to, et), j2)) => {
                if j2 == n {
                    Some(WalRecord::Edge { from, to, edge_type: et })
                } else {
                    None
                }
            },
            None => None,
        }
    } else if chars_eq_lit(&kindcs, "embedding") {
        match p_payload_embedding(line, j1) {
            Some(((id, vec), j2)) => {
                if j2 == n {
                    Some(WalRecord::Embedding { id, vec })
                } else {
                    None
                }
            },
            None => None,
        }
    } else if chars_eq_lit(&kindcs, "decision") {
        match p_payload_decision(line, j1) {
            Some((dd, j2)) => {
                if j2 == n {
                    Some(WalRecord::Decision { data: dd })
                } else {
                    None
                }
            },
            None => None,
        }
    } else {
        None
    }
}


// ---------------------------------------------------------------------
// Whole-log text
// ---------------------------------------------------------------------

/// True when no character of `s` is a newline.
pub open spec fn no_nl(s: Seq<char>) -> bool {
    forall|t: int| 0 <= t < s.len() ==> #[trigger] s[t] != '\n'
}

/// Newline-freedom is preserved by concatenation.
pub proof fn lemma_no_nl_concat(a: Seq<char>, b: Seq<char>)
    requires
        no_nl(a),
        no_nl(b),
    ensures
        no_nl(a + b),
{
    assert forall|t: int| 0 <= t < (a + b).len() implies #[trigger] (a + b)[t] != '\n' by {
        if t < a.len() {
            assert((a + b)[t] == a[t]);
        } else {
            assert((a + b)[t] == b[t - a.len()]);
        }
    }
}

/// Numerals hold digits only, so they hold no newline.
pub proof fn lemma_no_nl_pad(v: int, w: int)
    requires
        0 <= v,
        0 <= w,
    ensures
        no_nl(pad_digits(v, w)),
{
    lemma_pad_digits_shape(v, w);
}

/// A fixed-point numeral holds no newline.
pub proof fn lemma_no_nl_fixed(v: int)
    requires
        -FIXED_LIMIT <= v <= FIXED_LIMIT,
    ensures
        no_nl(enc_fixed(v)),
{
    let m = if v < 0 { -v } else { v };
    let fr = m % 1_000_000;
    lemma_ndigits_bound(m / 1_000_000);
    lemma_no_nl_pad(m / 1_000_000, ndigits(m / 1_000_000));
    if fr != 0 {
        assert(pow10(6) == 1_000_000) by {
            assert(pow10(0) == 1);
            assert(pow10(1) == 10);
            assert(pow10(2) == 100);
            assert(pow10(3) == 1000);
            assert(pow10(4) == 10000);
            assert(pow10(5) == 100000);
        }
        lemma_strip_zeros(fr, 6);
        lemma_no_nl_pad(fr / pow10(strip_zeros(fr, 6)), 6 - strip_zeros(fr, 6));
        lemma_no_nl_concat(seq!['.'], enc_frac(fr));
        lemma_no_nl_concat(enc_u64(m / 1_000_000), seq!['.'] + enc_frac(fr));
    }
    if v < 0 {
        lemma_no_nl_concat(
            seq!['-'],
            enc_u64(m / 1_000_000) + (if fr == 0 {
                Seq::<char>::empty()
            } else {
                seq!['.'] + enc_frac(fr)
            }),
        );
        assert(enc_fixed(v) =~= seq!['-'] + (enc_u64(m / 1_000_000) + (if fr == 0 {
            Seq::<char>::empty()
        } else {
            seq!['.'] + enc_frac(fr)
        })));
    } else {
        lemma_no_nl_concat(
            enc_u64(m / 1_000_000),
            (if fr == 0 {
                Seq::<char>::empty()
            } else {
                seq!['.'] + enc_frac(fr)
            }),
        );
        assert(enc_fixed(v) =~= enc_u64(m / 1_000_000) + (if fr == 0 {
            Seq::<char>::empty()
        } else {
            seq!['.'] + enc_frac(fr)
        }));
    }
}

/// A string token over storable characters holds no raw newline.
pub proof fn lemma_no_nl_string(cs: Seq<char>)
    requires
        str_ok(cs),
    ensures
        no_nl(enc_string(cs)),
        no_nl(enc_str_chars(cs)),
    decreases cs.len(),
{
    if cs.len() == 0 {
        assert(no_nl(enc_str_chars(cs)));
    } else {
        assert(str_ok(cs.drop_first())) by {
            assert(forall|k: int|
                0 <= k < cs.drop_first().len() ==> #[trigger] cs.drop_first()[k] == cs[k + 1]);
        }
        lemma_no_nl_string(cs.drop_first());
        assert(char_ok(cs[0]));
        assert(no_nl(esc_char(cs[0])));
        lemma_no_nl_concat(esc_char(cs[0]), enc_str_chars(cs.drop_first()));
    }
    lemma_no_nl_concat(seq!['"'], enc_str_chars(cs));
    lemma_no_nl_concat(seq!['"'] + enc_str_chars(cs), seq!['"']);
    assert(enc_string(cs) =~= (seq!['"'] + enc_str_chars(cs)) + seq!['"']);
}

/// A literal chunk of the encoder holds no newline.
proof fn lemma_no_nl_lit(l: &str)
    requires
        forall|t: int| 0 <= t < l@.len() ==> #[trigger] l@[t] != '\n',
    ensures
        no_nl(l@),
{
}

/// A whole-number numeral holds no newline.
pub proof fn lemma_no_nl_u64(v: int)
    requires
        0 <= v,
    ensures
        no_nl(enc_u64(v)),
{
    lemma_ndigits_bound(v);
    lemma_no_nl_pad(v, ndigits(v));
}

/// A list of whole numbers holds no newline.
proof fn lemma_no_nl_u64_list(v: Seq<u64>)
    ensures
        no_nl(enc_u64_list(v)),
    decreases v.len(),
{
    if v.len() == 0 {
        assert(no_nl(enc_u64_list(v)));
    } else {
        lemma_no_nl_u64_items(v);
        lemma_no_nl_concat(seq!['['], enc_u64_items(v));
    }
}

/// The elements of a whole-number list hold no newline.
proof fn lemma_no_nl_u64_items(v: Seq<u64>)
    requires
        v.len() > 0,
    ensures
        no_nl(enc_u64_items(v)),
    decreases v.len(),
{
    lemma_no_nl_u64(v[0] as int);
    if v.len() == 1 {
        lemma_no_nl_concat(enc_u64(v[0] as int), seq![']']);
    } else {
        lemma_no_nl_u64_items(v.drop_first());
        lemma_no_nl_concat(seq![','], enc_u64_items(v.drop_first()));
        lemma_no_nl_concat(enc_u64(v[0] as int), seq![','] + enc_u64_items(v.drop_first()));
    }
}

/// A list of fixed-point numbers holds no newline.
proof fn lemma_no_nl_i64_list(v: Seq<i64>)
    requires
        wf_i64s(v),
    ensures
        no_nl(enc_i64_list(v)),
    decreases v.len(),
{
    if v.len() == 0 {
        assert(no_nl(enc_i64_list(v)));
    } else {
        lemma_no_nl_i64_items(v);
        lemma_no_nl_concat(seq!['['], enc_i64_items(v));
    }
}

/// The elements of a fixed-point list hold no newline.
proof fn lemma_no_nl_i64_items(v: Seq<i64>)
    requires
        v.len() > 0,
        wf_i64s(v),
    ensures
        no_nl(enc_i64_items(v)),
    decreases v.len(),
{
    lemma_no_nl_fixed(v[0] as int);
    assert(wf_i64s(v.drop_first())) by {
        assert(forall|k: int|
            0 <= k < v.drop_first().len() ==> #[trigger] v.drop_first()[k] == v[k + 1]);
    }
    if v.len() == 1 {
        lemma_no_nl_concat(enc_fixed(v[0] as int), seq![']']);
    } else {
        lemma_no_nl_i64_items(v.drop_first());
        lemma_no_nl_concat(seq![','], enc_i64_items(v.drop_first()));
        lemma_no_nl_concat(enc_fixed(v[0] as int), seq![','] + enc_i64_items(v.drop_first()));
    }
}

/// A list of strings holds no newline.
proof fn lemma_no_nl_str_list(v: Seq<String>)
    requires
        wf_strings(v),
    ensures
        no_nl(enc_str_list(v)),
    decreases v.len(),
{
    if v.len() == 0 {
        assert(no_nl(enc_str_list(v)));
    } else {
        lemma_no_nl_str_items(v);
        lemma_no_nl_concat(seq!['['], enc_str_items(v));
    }
}

/// The elements of a string list hold no newline.
proof fn lemma_no_nl_str_items(v: Seq<String>)
    requires
        v.len() > 0,
        wf_strings(v),
    ensures
        no_nl(enc_str_items(v)),
    decreases v.len(),
{
    lemma_no_nl_string(v[0]@);
    assert(wf_strings(v.drop_first())) by {
        assert(forall|k: int|
            0 <= k < v.drop_first().len() ==> #[trigger] v.drop_first()[k] == v[k + 1]);
    }
    if v.len() == 1 {
        lemma_no_nl_concat(enc_string(v[0]@), seq![']']);
    } else {
        lemma_no_nl_str_items(v.drop_first());
        lemma_no_nl_concat(seq![','], enc_str_items(v.drop_first()));
        lemma_no_nl_concat(enc_string(v[0]@), seq![','] + enc_str_items(v.drop_first()));
    }
}

/// An edge object holds no newline.
proof fn lemma_no_nl_edge(e: Edge)
    requires
        wf_edge(e),
    ensures
        no_nl(enc_edge(e)),
{
    reveal_strlit("{\"from\":");
    reveal_strlit(",\"to\":");
    reveal_strlit(",\"edge_type\":");
    reveal_strlit("}");
    lemma_no_nl_u64(e.from as int);
    lemma_no_nl_u64(e.to as int);
    lemma_no_nl_string(e.edge_type@);
    lemma_no_nl_lit("{\"from\":");
    lemma_no_nl_lit(",\"to\":");
    lemma_no_nl_lit(",\"edge_type\":");
    lemma_no_nl_lit("}");
    lemma_no_nl_concat(enc_string(e.edge_type@), "}"@);
    lemma_no_nl_concat(",\"edge_type\":"@, enc_string(e.edge_type@) + "}"@);
    lemma_no_nl_concat(
        enc_u64(e.to as int),
        ",\"edge_type\":"@ + (enc_string(e.edge_type@) + "}"@),
    );
    lemma_no_nl_concat(
        ",\"to\":"@,
        enc_u64(e.to as int) + (",\"edge_type\":"@ + (enc_string(e.edge_type@) + "}"@)),
    );
    lemma_no_nl_concat(
        enc_u64(e.from as int),
        ",\"to\":"@ + (enc_u64(e.to as int) + (",\"edge_type\":"@ + (enc_string(e.edge_type@)
            + "}"@))),
    );
    lemma_no_nl_concat(
        "{\"from\":"@,
        enc_u64(e.from as int) + (",\"to\":"@ + (enc_u64(e.to as int) + (",\"edge_type\":"@ + (
        enc_string(e.edge_type@) + "}"@)))),
    );
}

/// A list of edge objects holds no newline.
proof fn lemma_no_nl_edge_list(v: Seq<Edge>)
    requires
        wf_edges(v),
    ensures
        no_nl(enc_edge_list(v)),
    decreases v.len(),
{
    if v.len() == 0 {
        assert(no_nl(enc_edge_list(v)));
    } else {
        lemma_no_nl_edge_items(v);
        lemma_no_nl_concat(seq!['['], enc_edge_items(v));
    }
}

/// The elements of an edge list hold no newline.
proof fn lemma_no_nl_edge_items(v: Seq<Edge>)
    requires
        v.len() > 0,
        wf_edges(v),
    ensures
        no_nl(enc_edge_items(v)),
    decreases v.len(),
{
    lemma_no_nl_edge(v[0]);
    assert(wf_edges(v.drop_first())) by {
        assert(forall|k: int|
            0 <= k < v.drop_first().len() ==> #[trigger] v.drop_first()[k] == v[k + 1]);
    }
    if v.len() == 1 {
        lemma_no_nl_concat(enc_edge(v[0]), seq![']']);
    } else {
        lemma_no_nl_edge_items(v.drop_first());
        lemma_no_nl_concat(seq![','], enc_edge_items(v.drop_first()));
        lemma_no_nl_concat(enc_edge(v[0]), seq![','] + enc_edge_items(v.drop_first()));
    }
}

/// An optional whole number holds no newline.
proof fn lemma_no_nl_opt_u64(o: Option<u64>)
    ensures
        no_nl(enc_opt_u64(o)),
{
    reveal_strlit("null");
    match o {
        Option::None => {
            lemma_no_nl_lit("null");
        },
        Option::Some(v) => {
            lemma_no_nl_u64(v as int);
        },
    }
}

/// An optional string holds no newline.
proof fn lemma_no_nl_opt_string(o: Option<String>)
    requires
        match o {
            Option::Some(sv) => str_ok(sv@),
            Option::None => true,
        },
    ensures
        no_nl(enc_opt_string(o)),
{
    reveal_strlit("null");
    match o {
        Option::None => {
            lemma_no_nl_lit("null");
        },
        Option::Some(sv) => {
            lemma_no_nl_string(sv@);
        },
    }
}

/// Glues fifteen newline-free parts.
proof fn lemma_no_nl_join15(
    p1: Seq<char>,
    p2: Seq<char>,
    p3: Seq<char>,
    p4: Seq<char>,
    p5: Seq<char>,
    p6: Seq<char>,
    p7: Seq<char>,
    p8: Seq<char>,
    p9: Seq<char>,
    p10: Seq<char>,
    p11: Seq<char>,
    p12: Seq<char>,
    p13: Seq<char>,
    p14: Seq<char>,
    p15: Seq<char>,
)
    requires
        no_nl(p1),
        no_nl(p2),
        no_nl(p3),
        no_nl(p4),
        no_nl(p5),
        no_nl(p6),
        no_nl(p7),
        no_nl(p8),
        no_nl(p9),
        no_nl(p10),
        no_nl(p11),
        no_nl(p12),
        no_nl(p13),
        no_nl(p14),
        no_nl(p15),
    ensures
        no_nl(
            p1 + (p2 + (p3 + (p4 + (p5 + (p6 + (p7 + (p8 + (p9 + (p10 + (p11 + (p12 + (p13 + (p14
                + p15))))))))))))),
        ),
{
    let r14 = p14 + p15;
    lemma_no_nl_concat(p14, p15);
    let r13 = p13 + r14;
    lemma_no_nl_concat(p13, r14);
    let r12 = p12 + r13;
    lemma_no_nl_concat(p12, r13);
    let r11 = p11 + r12;
    lemma_no_nl_concat(p11, r12);
    let r10 = p10 + r11;
    lemma_no_nl_concat(p10, r11);
    let r9 = p9 + r10;
    lemma_no_nl_concat(p9, r10);
    let r8 = p8 + r9;
    lemma_no_nl_concat(p8, r9);
    let r7 = p7 + r8;
    lemma_no_nl_concat(p7, r8);
    let r6 = p6 + r7;
    lemma_no_nl_concat(p6, r7);
    let r5 = p5 + r6;
    lemma_no_nl_concat(p5, r6);
    let r4 = p4 + r5;
    lemma_no_nl_concat(p4, r5);
    let r3 = p3 + r4;
    lemma_no_nl_concat(p3, r4);
    let r2 = p2 + r3;
    lemma_no_nl_concat(p2, r3);
    lemma_no_nl_concat(p1, r2);
}

/// The payload of a record holds no newline.
proof fn lemma_no_nl_payload(r: WalRecord)
    requires
        wf_record(r),
    ensures
        no_nl(enc_payload(r)),
{
    reveal_strlit(",\"data\":{\"id\":");
    reveal_strlit(",\"label\":");
    reveal_strlit(",\"embedding\":");
    reveal_strlit(",\"edges\":");
    reveal_strlit(",\"timestamp\":");
    reveal_strlit(",\"agent_id\":");
    reveal_strlit(",\"rule_tags\":");
    reveal_strlit(",\"from\":");
    reveal_strlit(",\"to\":");
    reveal_strlit(",\"edge_type\":");
    reveal_strlit(",\"id\":");
    reveal_strlit(",\"vec\":");
    reveal_strlit(",\"created_at\":");
    reveal_strlit(",\"root_node\":");
    reveal_strlit(",\"path\":");
    reveal_strlit(",\"score\":");
    reveal_strlit(",\"notes\":");
    reveal_strlit("}}");
    reveal_strlit("}");
    match r {
        WalRecord::Node { data: n } => {
            lemma_no_nl_lit(",\"data\":{\"id\":");
            lemma_no_nl_lit(",\"label\":");
            lemma_no_nl_lit(",\"embedding\":");
            lemma_no_nl_lit(",\"edges\":");
            lemma_no_nl_lit(",\"timestamp\":");
            lemma_no_nl_lit(",\"agent_id\":");
            lemma_no_nl_lit(",\"rule_tags\":");
            lemma_no_nl_lit("}}");
            lemma_no_nl_u64(n.id as int);
            lemma_no_nl_string(n.label@);
            lemma_no_nl_i64_list(n.embedding@);
            lemma_no_nl_edge_list(n.edges@);
            lemma_no_nl_u64(n.timestamp as int);
            lemma_no_nl_opt_u64(n.agent_id);
            lemma_no_nl_str_list(n.rule_tags@);
            lemma_no_nl_join15(
                ",\"data\":{\"id\":"@,
                enc_u64(n.id as int),
                ",\"label\":"@,
                enc_string(n.label@),
                ",\"embedding\":"@,
                enc_i64_list(n.embedding@),
                ",\"edges\":"@,
                enc_edge_list(n.edges@),
                ",\"timestamp\":"@,
                enc_u64(n.timestamp as int),
                ",\"agent_id\":"@,
                enc_opt_u64(n.agent_id),
                ",\"rule_tags\":"@,
                enc_str_list(n.rule_tags@),
                "}}"@,
            );
        },
        WalRecord::Edge { from, to, edge_type } => {
            lemma_no_nl_lit(",\"from\":");
            lemma_no_nl_lit(",\"to\":");
            lemma_no_nl_lit(",\"edge_type\":");
            lemma_no_nl_lit("}");
            lemma_no_nl_u64(from as int);
            lemma_no_nl_u64(to as int);
            lemma_no_nl_string(edge_type@);
            lemma_no_nl_concat(enc_string(edge_type@), "}"@);
            lemma_no_nl_concat(",\"edge_type\":"@, enc_string(edge_type@) + "}"@);
            lemma_no_nl_concat(
                enc_u64(to as int),
                ",\"edge_type\":"@ + (enc_string(edge_type@) + "}"@),
            );
            lemma_no_nl_concat(
                ",\"to\":"@,
                enc_u64(to as int) + (",\"edge_type\":"@ + (enc_string(edge_type@) + "}"@)),
            );
            lemma_no_nl_concat(
                enc_u64(from as int),
                ",\"to\":"@ + (enc_u64(to as int) + (",\"edge_type\":"@ + (enc_string(edge_type@)
                    + "}"@))),
            );
            lemma_no_nl_concat(
                ",\"from\":"@,
                enc_u64(from as int) + (",\"to\":"@ + (enc_u64(to as int) + (",\"edge_type\":"@ + (
                enc_string(edge_type@) + "}"@)))),
            );
        },
        WalRecord::Embedding { id, vec } => {
            lemma_no_nl_lit(",\"id\":");
            lemma_no_nl_lit(",\"vec\":");
            lemma_no_nl_lit("}");
            lemma_no_nl_u64(id as int);
            lemma_no_nl_i64_list(vec@);
            lemma_no_nl_concat(enc_i64_list(vec@), "}"@);
            lemma_no_nl_concat(",\"vec\":"@, enc_i64_list(vec@) + "}"@);
            lemma_no_nl_concat(enc_u64(id as int), ",\"vec\":"@ + (enc_i64_list(vec@) + "}"@));
            lemma_no_nl_concat(
                ",\"id\":"@,
                enc_u64(id as int) + (",\"vec\":"@ + (enc_i64_list(vec@) + "}"@)),
            );
        },
        WalRecord::Decision { data: d } => {
            lemma_no_nl_lit(",\"data\":{\"id\":");
            lemma_no_nl_lit(",\"agent_id\":");
            lemma_no_nl_lit(",\"created_at\":");
            lemma_no_nl_lit(",\"root_node\":");
            lemma_no_nl_lit(",\"path\":");
            lemma_no_nl_lit(",\"score\":");
            lemma_no_nl_lit(",\"notes\":");
            lemma_no_nl_lit("}}");
            lemma_no_nl_u64(d.id as int);
            lemma_no_nl_u64(d.agent_id as int);
            lemma_no_nl_u64(d.created_at as int);
            lemma_no_nl_u64(d.root_node as int);
            lemma_no_nl_u64_list(d.path@);
            lemma_no_nl_fixed(d.score as int);
            lemma_no_nl_opt_string(d.notes);
            lemma_no_nl_join15(
                ",\"data\":{\"id\":"@,
                enc_u64(d.id as int),
                ",\"agent_id\":"@,
                enc_u64(d.agent_id as int),
                ",\"created_at\":"@,
                enc_u64(d.created_at as int),
                ",\"root_node\":"@,
                enc_u64(d.root_node as int),
                ",\"path\":"@,
                enc_u64_list(d.path@),
                ",\"score\":"@,
                enc_fixed(d.score as int),
                ",\"notes\":"@,
                enc_opt_string(d.notes),
                "}}"@,
            );
        },
    }
}

/// A record line holds no newline, is never empty, and opens with a
/// brace.
pub proof fn lemma_no_nl_record(r: WalRecord)
    requires
        wf_record(r),
    ensures
        no_nl(enc_record(r)),
        enc_record(r).len() > 0,
        enc_record(r)[0] == '{',
{
    reveal_strlit("{\"kind\":");
    lemma_no_nl_lit("{\"kind\":");
    assert(str_ok(kind_of(r)));
    lemma_no_nl_string(kind_of(r));
    lemma_no_nl_payload(r);
    lemma_no_nl_concat(enc_string(kind_of(r)), enc_payload(r));
    lemma_no_nl_concat("{\"kind\":"@, enc_string(kind_of(r)) + enc_payload(r));
    assert(enc_record(r)[0] == ("{\"kind\":"@)[0]);
}

/// The whole log text: one line for each record, each with a trailing
/// newline.
pub open spec fn wal_join(rs: Seq<WalRecord>) -> Seq<char>
    decreases rs.len(),
{
    if rs.len() == 0 {
        Seq::<char>::empty()
    } else {
        enc_record(rs[0]) + (seq!['\n'] + wal_join(rs.drop_first()))
    }
}

/// Every record of a sequence is well formed.
pub open spec fn wf_records(rs: Seq<WalRecord>) -> bool {
    forall|k: int| 0 <= k < rs.len() ==> wf_record(#[trigger] rs[k])
}


/// Checks at run time that a string is storable.
pub fn check_str_ok(s: &String) -> (r: bool)
    ensures
        r == str_ok(s@),
{
    let cs = str_chars(s.as_str());
    let mut i: usize = 0;
    while i < cs.len()
        invariant
            cs@ == s@,
            0 <= i <= cs@.len(),
            forall|t: int| 0 <= t < i ==> char_ok(#[trigger] s@[t]),
        decreases cs@.len() - i,
    {
        let c = cs[i];
        if !(c as u32 >= 32 || c == '\n' || c == '\r' || c == '\t') {
            return false;
        }
        i = i + 1;
    }
    true
}

/// Two nodes that agree field by field encode to the same line.
pub proof fn lemma_enc_node_like(a: Node, b: Node)
    requires
        node_like(a, b),
    ensures
        enc_payload(WalRecord::Node { data: a }) == enc_payload(WalRecord::Node { data: b }),
        enc_record(WalRecord::Node { data: a }) == enc_record(WalRecord::Node { data: b }),
{
    lemma_enc_str_items_like(a.rule_tags@, b.rule_tags@);
    lemma_enc_edge_items_like(a.edges@, b.edges@);
}

/// Like string sequences encode alike.
proof fn lemma_enc_str_items_like(a: Seq<String>, b: Seq<String>)
    requires
        strings_like(a, b),
    ensures
        enc_str_list(a) == enc_str_list(b),
        a.len() > 0 ==> enc_str_items(a) == enc_str_items(b),
    decreases a.len(),
{
    if a.len() > 0 {
        assert(a[0]@ == b[0]@);
        if a.len() > 1 {
            assert(strings_like(a.drop_first(), b.drop_first())) by {
                assert(forall|k: int|
                    0 <= k < a.drop_first().len() ==> #[trigger] a.drop_first()[k] == a[k + 1]);
                assert(forall|k: int|
                    0 <= k < b.drop_first().len() ==> #[trigger] b.drop_first()[k] == b[k + 1]);
            }
            lemma_enc_str_items_like(a.drop_first(), b.drop_first());
        }
    }
}

/// Like edge sequences encode alike.
proof fn lemma_enc_edge_items_like(a: Seq<Edge>, b: Seq<Edge>)
    requires
        edges_like(a, b),
    ensures
        enc_edge_list(a) == enc_edge_list(b),
        a.len() > 0 ==> enc_edge_items(a) == enc_edge_items(b),
    decreases a.len(),
{
    if a.len() > 0 {
        assert(edge_like(a[0], b[0]));
        assert(enc_edge(a[0]) == enc_edge(b[0]));
        if a.len() > 1 {
            assert(edges_like(a.drop_first(), b.drop_first())) by {
                assert(forall|k: int|
                    0 <= k < a.drop_first().len() ==> #[trigger] a.drop_first()[k] == a[k + 1]);
                assert(forall|k: int|
                    0 <= k < b.drop_first().len() ==> #[trigger] b.drop_first()[k] == b[k + 1]);
            }
            lemma_enc_edge_items_like(a.drop_first(), b.drop_first());
        }
    }
}


/// Two decision records that agree field by field encode to the same
/// line.
pub proof fn lemma_enc_decision_like(a: DecisionRecord, b: DecisionRecord)
    requires
        dec_like(a, b),
    ensures
        enc_record(WalRecord::Decision { data: a }) == enc_record(WalRecord::Decision { data: b }),
{
    assert(enc_opt_string(a.notes) == enc_opt_string(b.notes)) by {
        match (a.notes, b.notes) {
            (Option::Some(x), Option::Some(y)) => {
                assert(x@ == y@);
            },
            _ => {},
        }
    }
}


} // verus!
