//! Token counts written as decimal numbers with an optional `k`/`m` suffix.

use vstd::prelude::*;
use crate::text::{has_suffix, is_ascii_digit, is_digit, lower, lower_chars, trim, trim_chars};

verus! {

/// `10` to the power `n`.
pub open spec fn pow10(n: nat) -> nat
    decreases n,
{
    if n == 0 {
        1
    } else {
        10 * pow10((n - 1) as nat)
    }
}

/// The number that a run of ASCII digits spells in base ten.
pub open spec fn digits_value(s: Seq<char>) -> int
    decreases s.len(),
{
    if s.len() == 0 {
        0
    } else {
        digits_value(s.drop_last()) * 10 + ((s.last() as u32) - 48)
    }
}

/// Whether every character of `s` is an ASCII digit.
pub open spec fn all_digits(s: Seq<char>) -> bool {
    forall|i: int| 0 <= i < s.len() ==> is_digit(#[trigger] s[i])
}

/// Whether `c` can be part of a decimal number: a digit or the point.
pub open spec fn is_number_char(c: char) -> bool {
    is_digit(c) || c == '.'
}

/// The digits and points of `s`, in order, everything else dropped.
pub open spec fn number_chars(s: Seq<char>) -> Seq<char>
    decreases s.len(),
{
    if s.len() == 0 {
        Seq::<char>::empty()
    } else if is_number_char(s.last()) {
        number_chars(s.drop_last()).push(s.last())
    } else {
        number_chars(s.drop_last())
    }
}

/// The position of the first `.` in `s`, or its length when there is none.
pub open spec fn first_point(s: Seq<char>) -> int
    decreases s.len(),
{
    if s.len() == 0 {
        0
    } else if s[0] == '.' {
        0
    } else {
        1 + first_point(s.drop_first())
    }
}

/// The digits before the decimal point.
pub open spec fn int_part(s: Seq<char>) -> Seq<char> {
    s.take(first_point(s))
}

/// The digits after the decimal point (none when there is no point).
pub open spec fn frac_part(s: Seq<char>) -> Seq<char> {
    if first_point(s) < s.len() {
        s.skip(first_point(s) + 1)
    } else {
        Seq::<char>::empty()
    }
}

/// Whether a string of digits and points reads as a decimal number: it holds
/// at least one digit and at most one point (".5" and "5." are numbers,
/// "." and "1.2.3" are not).
pub open spec fn decimal_ok(s: Seq<char>) -> bool {
    &&& exists|i: int| 0 <= i < s.len() && is_digit(#[trigger] s[i])
    &&& forall|i: int, j: int|
        0 <= i < j < s.len() && #[trigger] s[i] == '.' ==> #[trigger] s[j] != '.'
}

/// The first `e` fractional digits read as a whole number of `10^-e` units.
pub open spec fn frac_units(f: Seq<char>, e: nat) -> int {
    if f.len() >= e {
        digits_value(f.take(e as int))
    } else {
        digits_value(f) * pow10((e - f.len()) as nat)
    }
}

/// Whether the digits past the first `e` fractional ones make up half a
/// unit or more, so that rounding goes up.
pub open spec fn rounds_up(f: Seq<char>, e: nat) -> bool {
    f.len() > e && f[e as int] >= '5'
}

/// The decimal number `s` times `10^e`, rounded to the nearest whole
/// number with halves rounded up.
pub open spec fn scaled_round(s: Seq<char>, e: nat) -> int {
    digits_value(int_part(s)) * pow10(e) + frac_units(frac_part(s), e) + if rounds_up(
        frac_part(s),
        e,
    ) {
        1int
    } else {
        0int
    }
}

/// The decimal number `s` scaled by `10^e` and rounded, saturating at
/// `u64::MAX`; `None` when `s` is not a decimal number.
pub open spec fn decimal_value(s: Seq<char>, e: nat) -> Option<u64> {
    if decimal_ok(s) {
        let v = scaled_round(s, e);
        Some(
            if v > u64::MAX {
                u64::MAX
            } else {
                v as u64
            },
        )
    } else {
        None
    }
}

/// `s` with every trailing copy of `pat` removed (`str::trim_end_matches`).
pub open spec fn strip_all(s: Seq<char>, pat: Seq<char>) -> Seq<char>
    decreases s.len(),
{
    if pat.len() > 0 && pat.is_suffix_of(s) {
        strip_all(s.subrange(0, s.len() - pat.len()), pat)
    } else {
        s
    }
}

/// The text of a token once it is trimmed, lowercased, and rid of a
/// trailing "tokens"/"token" unit word.
pub open spec fn number_body(token: Seq<char>) -> Seq<char> {
    trim(
        strip_all(
            strip_all(lower(trim(token)), seq!['t', 'o', 'k', 'e', 'n', 's']),
            seq!['t', 'o', 'k', 'e', 'n'],
        ),
    )
}

/// The power of ten that a `k` (thousand) or `m` (million) suffix stands for.
pub open spec fn suffix_scale(t: Seq<char>) -> nat {
    if t.len() > 0 && t.last() == 'k' {
        3
    } else if t.len() > 0 && t.last() == 'm' {
        6
    } else {
        0
    }
}

/// `t` without its `k`/`m` suffix.
pub open spec fn without_suffix(t: Seq<char>) -> Seq<char> {
    if suffix_scale(t) > 0 {
        t.drop_last()
    } else {
        t
    }
}

/// The count a token stands for: the decimal number that its digits and
/// points spell, times a thousand for a `k` suffix or a million for an `m`
/// suffix, rounded half up and saturating at `u64::MAX`. `None` when the
/// token has no digits, or its digits and points do not form a number.
pub open spec fn number_value(token: Seq<char>) -> Option<u64> {
    let t = number_body(token);
    let d = number_chars(without_suffix(t));
    if d.len() == 0 {
        None
    } else {
        decimal_value(d, suffix_scale(t))
    }
}

/// `10^n` for the small exponents a suffix gives.
fn pow10_exec(n: usize) -> (r: u64)
    requires
        n <= 6,
    ensures
        r == pow10(n as nat),
        1 <= r <= 1_000_000,
{
    proof {
        reveal_with_fuel(pow10, 7);
        lemma_pow10_mono(n as nat, 6);
    }
    let mut r: u64 = 1;
    let mut i: usize = 0;
    while i < n
        invariant
            i <= n <= 6,
            r == pow10(i as nat),
            pow10(n as nat) <= 1_000_000,
        decreases n - i,
    {
        proof {
            lemma_pow10_mono((i + 1) as nat, n as nat);
        }
        r = r * 10;
        i += 1;
    }
    r
}

/// A value of `k` digits is below `10^k`.
proof fn lemma_digits_bound(s: Seq<char>)
    requires
        all_digits(s),
    ensures
        0 <= digits_value(s) < pow10(s.len()),
    decreases s.len(),
{
    if s.len() > 0 {
        let p = s.drop_last();
        assert(all_digits(p)) by {
            assert forall|i: int| 0 <= i < p.len() implies is_digit(#[trigger] p[i]) by {
                assert(p[i] == s[i]);
            }
        }
        assert(is_digit(s[s.len() - 1]));
        lemma_digits_bound(p);
    }
}

/// The digits and points of `t[..end]`.
fn keep_number_chars(t: &[char], end: usize) -> (r: Vec<char>)
    requires
        end <= t@.len(),
    ensures
        r@ == number_chars(t@.take(end as int)),
        forall|i: int| 0 <= i < r@.len() ==> is_number_char(#[trigger] r@[i]),
{
    let mut r: Vec<char> = Vec::new();
    let mut i: usize = 0;
    while i < end
        invariant
            i <= end <= t@.len(),
            r@ == number_chars(t@.take(i as int)),
            forall|k: int| 0 <= k < r@.len() ==> is_number_char(#[trigger] r@[k]),
        decreases end - i,
    {
        let c = t[i];
        assert(t@.take(i + 1).drop_last() == t@.take(i as int));
        assert(t@.take(i + 1).last() == c);
        if is_ascii_digit(c) || c == '.' {
            r.push(c);
        }
        i += 1;
    }
    r
}

/// The position of the first `.` in `d` (its length when there is none).
fn point_position(d: &[char]) -> (p: usize)
    ensures
        p == first_point(d@),
        p <= d@.len(),
        forall|k: int| 0 <= k < p ==> d@[k] != '.',
        p < d@.len() ==> d@[p as int] == '.',
{
    let n = d.len();
    let mut p: usize = 0;
    assert(d@.skip(0) == d@);
    while p < n && d[p] != '.'
        invariant
            p <= n == d@.len(),
            first_point(d@) == p + first_point(d@.skip(p as int)),
            forall|k: int| 0 <= k < p ==> d@[k] != '.',
        decreases n - p,
    {
        assert(d@.skip(p as int).drop_first() == d@.skip(p + 1));
        p += 1;
    }
    if p < n {
        assert(d@.skip(p as int)[0] == d@[p as int]);
    }
    p
}

/// Every piece of an all-digit string is all digits.
proof fn lemma_all_digits_subrange(s: Seq<char>, a: int, b: int)
    requires
        all_digits(s),
        0 <= a <= b <= s.len(),
    ensures
        all_digits(s.subrange(a, b)),
{
    assert forall|i: int| 0 <= i < b - a implies is_digit(#[trigger] s.subrange(a, b)[i]) by {
        assert(s.subrange(a, b)[i] == s[a + i]);
    }
}

/// The value of a run of digits, saturating at `2^64`.
fn whole_value(s: &[char]) -> (v: u128)
    requires
        all_digits(s@),
    ensures
        v <= 0x1_0000_0000_0000_0000,
        v < 0x1_0000_0000_0000_0000 ==> v == digits_value(s@),
        v == 0x1_0000_0000_0000_0000 ==> digits_value(s@) >= 0x1_0000_0000_0000_0000,
{
    let cap: u128 = 0x1_0000_0000_0000_0000;
    let mut acc: u128 = 0;
    let mut i: usize = 0;
    while i < s.len()
        invariant
            i <= s@.len(),
            all_digits(s@),
            cap == 0x1_0000_0000_0000_0000,
            acc <= cap,
            acc < cap ==> acc == digits_value(s@.take(i as int)),
            acc == cap ==> digits_value(s@.take(i as int)) >= cap,
        decreases s@.len() - i,
    {
        let ghost pre = s@.take(i as int);
        assert(s@.take(i + 1).drop_last() == pre);
        assert(s@.take(i + 1).last() == s@[i as int]);
        assert(is_digit(s@[i as int]));
        proof {
            lemma_all_digits_subrange(s@, 0, i as int);
            lemma_digits_bound(pre);
        }
        let digit = ((s[i] as u32) - 48) as u128;
        if acc < cap {
            let next = acc * 10 + digit;
            acc = if next >= cap {
                cap
            } else {
                next
            };
        }
        i += 1;
    }
    assert(s@.take(s@.len() as int) == s@);
    acc
}

/// The value of the first `m` digits of `s`, for `m` up to six.
fn leading_value(s: &[char], m: usize) -> (v: u64)
    requires
        all_digits(s@),
        m <= s@.len(),
        m <= 6,
    ensures
        v == digits_value(s@.take(m as int)),
        v < pow10(m as nat),
{
    let mut v: u64 = 0;
    let mut k: usize = 0;
    proof {
        lemma_pow10_mono(m as nat, 6);
        reveal_with_fuel(pow10, 7);
    }
    while k < m
        invariant
            k <= m <= 6,
            m <= s@.len(),
            all_digits(s@),
            v == digits_value(s@.take(k as int)),
            v < pow10(k as nat),
            pow10(m as nat) <= 1_000_000,
        decreases m - k,
    {
        let ghost pre = s@.take(k as int);
        assert(s@.take(k + 1).drop_last() == pre);
        assert(s@.take(k + 1).last() == s@[k as int]);
        assert(is_digit(s@[k as int]));
        proof {
            lemma_pow10_mono((k + 1) as nat, m as nat);
            assert(pow10((k + 1) as nat) == 10 * pow10(k as nat));
        }
        let digit = ((s[k] as u32) - 48) as u64;
        v = v * 10 + digit;
        k += 1;
    }
    v
}

/// Checks that a string of digits and points is a decimal number, and if
/// so returns the position of its point (its length when there is none).
fn decimal_shape(d: &[char]) -> (r: Option<usize>)
    requires
        forall|i: int| 0 <= i < d@.len() ==> is_number_char(#[trigger] d@[i]),
    ensures
        r is Some <==> decimal_ok(d@),
        r matches Some(p) ==> p == first_point(d@) && p <= d@.len() && all_digits(int_part(d@)) && all_digits(
            frac_part(d@),
        ),
{
    let n = d.len();
    let p = point_position(d);
    // A second point spoils the number.
    let mut q: usize = if p < n {
        p + 1
    } else {
        n
    };
    while q < n
        invariant
            p <= q <= n == d@.len(),
            p < n ==> p + 1 <= q && d@[p as int] == '.',
            forall|k: int| p < k < q ==> d@[k] != '.',
        decreases n - q,
    {
        if d[q] == '.' {
            assert(!decimal_ok(d@)) by {
                assert(d@[p as int] == '.');
                assert(d@[q as int] == '.');
            }
            return None;
        }
        q += 1;
    }
    if n == 0 || (n == 1 && p == 0) {
        assert(!decimal_ok(d@)) by {
            assert forall|i: int| 0 <= i < d@.len() implies !is_digit(#[trigger] d@[i]) by {
                assert(i == 0);
            }
        }
        return None;
    }
    assert(decimal_ok(d@)) by {
        let w: int = if p > 0 {
            0
        } else {
            1
        };
        assert(is_number_char(d@[w]));
        assert(is_digit(d@[w]));
        assert forall|i: int, j: int|
            0 <= i < j < d@.len() && #[trigger] d@[i] == '.' implies #[trigger] d@[j] != '.' by {
            assert(i >= p);
        }
    }
    let ghost ip = int_part(d@);
    let ghost fp = frac_part(d@);
    assert(all_digits(ip)) by {
        assert forall|i: int| 0 <= i < ip.len() implies is_digit(#[trigger] ip[i]) by {
            assert(ip[i] == d@[i]);
            assert(is_number_char(d@[i]));
        }
    }
    assert(all_digits(fp)) by {
        assert forall|i: int| 0 <= i < fp.len() implies is_digit(#[trigger] fp[i]) by {
            assert(fp[i] == d@[p + 1 + i]);
            assert(is_number_char(d@[p + 1 + i]));
        }
    }
    Some(p)
}

/// The first `e` fractional digits as a count of `10^-e` units.
fn frac_value(fp: &[char], e: usize) -> (v: u64)
    requires
        all_digits(fp@),
        e <= 6,
    ensures
        v == frac_units(fp@, e as nat),
        0 <= v < pow10(e as nat),
{
    let flen = fp.len();
    let m = if flen < e {
        flen
    } else {
        e
    };
    let units = leading_value(fp, m);
    let pad = pow10_exec(e - m);
    proof {
        lemma_pow10_split(m as nat, (e - m) as nat);
        assert(m + (e - m) as nat == e as nat);
        assert(units * pad < pow10(m as nat) * pow10((e - m) as nat)) by (nonlinear_arith)
            requires
                units < pow10(m as nat),
                pad == pow10((e - m) as nat),
                pad >= 1,
        ;
        lemma_pow10_mono(e as nat, 6);
    }
    assert(pow10(6) == 1_000_000) by {
        reveal_with_fuel(pow10, 7);
    }
    let v = units * pad;
    proof {
        if flen >= e {
            assert(m == e);
            assert(pad == 1);
            assert(units * pad == units) by (nonlinear_arith)
                requires
                    pad == 1,
            ;
        } else {
            assert(fp@.take(m as int) == fp@);
            assert(units == digits_value(fp@));
        }
    }
    v
}

/// Reads a string of digits and points as a decimal number scaled by
/// `10^e`, rounding half up and saturating at `u64::MAX`.
fn scaled_decimal(d: &[char], e: usize) -> (r: Option<u64>)
    requires
        e <= 6,
        forall|i: int| 0 <= i < d@.len() ==> is_number_char(#[trigger] d@[i]),
    ensures
        r == decimal_value(d@, e as nat),
{
    let n = d.len();
    let p = match decimal_shape(d) {
        Some(p) => p,
        None => {
            return None;
        },
    };
    let ip = &d[0..p];
    let fstart = if p < n {
        p + 1
    } else {
        n
    };
    let fp = &d[fstart..n];
    assert(ip@ == int_part(d@));
    assert(fp@ == frac_part(d@));
    let whole = whole_value(ip);
    let frac_scaled = frac_value(fp, e);
    let up = e < fp.len() && fp[e] >= '5';
    assert(up == rounds_up(fp@, e as nat));
    let scale = pow10_exec(e);
    let cap: u128 = 0x1_0000_0000_0000_0000;
    assert(whole * (scale as u128) <= cap * 1_000_000) by (nonlinear_arith)
        requires
            whole <= cap,
            scale <= 1_000_000,
            cap == 0x1_0000_0000_0000_0000,
    ;
    let total: u128 = whole * (scale as u128) + (frac_scaled as u128) + if up {
        1
    } else {
        0
    };
    let max: u128 = 0xffff_ffff_ffff_ffff;
    let ghost v = scaled_round(d@, e as nat);
    proof {
        if whole < cap {
            assert(total == v);
        } else {
            let dv = digits_value(ip@);
            assert(dv * pow10(e as nat) >= cap) by (nonlinear_arith)
                requires
                    dv >= cap,
                    pow10(e as nat) >= 1,
                    cap > 0,
            ;
            assert(v > max);
            assert(cap * scale >= cap) by (nonlinear_arith)
                requires
                    scale >= 1,
                    cap > 0,
            ;
        }
    }
    if total > max {
        Some(u64::MAX)
    } else {
        Some(total as u64)
    }
}

/// `s` with every trailing copy of `pat` removed.
fn strip_suffix_all(s: &[char], pat: &[char]) -> (r: Vec<char>)
    ensures
        r@ == strip_all(s@, pat@),
{
    let mut end = s.len();
    assert(s@.subrange(0, end as int) == s@);
    while pat.len() > 0 && end >= pat.len() && has_suffix(&s[0..end], pat)
        invariant
            end <= s@.len(),
            strip_all(s@, pat@) == strip_all(s@.subrange(0, end as int), pat@),
        decreases end,
    {
        let ghost cur = s@.subrange(0, end as int);
        assert(cur.subrange(0, cur.len() - pat@.len()) == s@.subrange(0, end - pat@.len()));
        end = end - pat.len();
    }
    let ghost cur = s@.subrange(0, end as int);
    if pat.len() > 0 && end < pat.len() {
        assert(!pat@.is_suffix_of(cur));
    }
    let mut r: Vec<char> = Vec::new();
    let mut i: usize = 0;
    while i < end
        invariant
            i <= end <= s@.len(),
            r@ == s@.subrange(0, i as int),
        decreases end - i,
    {
        r.push(s[i]);
        assert(s@.subrange(0, i + 1) == s@.subrange(0, i as int).push(s@[i as int]));
        i += 1;
    }
    r
}

/// The count a token stands for (see [`number_value`]): "300" is 300,
/// "12k" is 12000, "1.5k" is 1500, "2m" is 2000000, "4000tokens" is 4000.
pub fn parse_number(token: &[char]) -> (r: Option<u64>)
    ensures
        r == number_value(token@),
{
    let tokens_word: [char; 6] = ['t', 'o', 'k', 'e', 'n', 's'];
    let token_word: [char; 5] = ['t', 'o', 'k', 'e', 'n'];
    assert(tokens_word@ == seq!['t', 'o', 'k', 'e', 'n', 's']);
    assert(token_word@ == seq!['t', 'o', 'k', 'e', 'n']);
    let t0 = trim_chars(token);
    let t1 = lower_chars(&t0);
    let t2 = strip_suffix_all(&t1, &tokens_word);
    let t3 = strip_suffix_all(&t2, &token_word);
    let t = trim_chars(&t3);
    let n = t.len();
    let (end, e): (usize, usize) = if n > 0 && t[n - 1] == 'k' {
        (n - 1, 3)
    } else if n > 0 && t[n - 1] == 'm' {
        (n - 1, 6)
    } else {
        (n, 0)
    };
    assert(t@.take(end as int) == without_suffix(t@));
    assert(e == suffix_scale(t@));
    let d = keep_number_chars(&t, end);
    if d.len() == 0 {
        None
    } else {
        scaled_decimal(&d, e)
    }
}

/// `10^a` grows with `a`.
proof fn lemma_pow10_mono(a: nat, b: nat)
    requires
        a <= b,
    ensures
        1 <= pow10(a) <= pow10(b),
    decreases b,
{
    if a < b {
        lemma_pow10_mono(a, (b - 1) as nat);
    } else if a > 0 {
        lemma_pow10_mono((a - 1) as nat, (a - 1) as nat);
    }
}

/// `10^(a+b) = 10^a * 10^b`.
proof fn lemma_pow10_split(a: nat, b: nat)
    ensures
        pow10(a + b) == pow10(a) * pow10(b),
    decreases b,
{
    if b == 0 {
        assert(pow10(0) == 1);
        assert(a + b == a);
    } else {
        lemma_pow10_split(a, (b - 1) as nat);
        assert((a + b - 1) as nat == a + (b - 1) as nat);
        assert(pow10(a + b) == 10 * pow10((a + b - 1) as nat));
        assert(pow10(a) * pow10(b) == pow10(a) * (10 * pow10((b - 1) as nat)));
        assert(pow10(a) * (10 * pow10((b - 1) as nat)) == 10 * (pow10(a) * pow10((b - 1) as nat)))
            by (nonlinear_arith);
    }
}

} // verus!
