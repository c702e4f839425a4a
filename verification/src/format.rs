//! Decimal renderings of counts.

use vstd::prelude::*;
use crate::text::string_of;

verus! {

/// The ASCII digit for a value below ten.
pub open spec fn digit_char(d: nat) -> char {
    ((d + 48) as u32) as char
}

/// The decimal digits of `n`, most significant first, without leading
/// zeros ("0" for zero).
pub open spec fn decimal(n: nat) -> Seq<char>
    decreases n,
{
    if n < 10 {
        seq![digit_char(n)]
    } else {
        decimal(n / 10).push(digit_char(n % 10))
    }
}

/// `d` with a comma between each group of three digits, counted from the
/// right: "1234567" becomes "1,234,567".
pub open spec fn group_thousands(d: Seq<char>) -> Seq<char>
    decreases d.len(),
{
    if d.len() <= 3 {
        d
    } else {
        group_thousands(d.take(d.len() - 3)) + seq![','] + d.skip(d.len() - 3)
    }
}

/// `s` without its commas.
pub open spec fn without_commas(s: Seq<char>) -> Seq<char>
    decreases s.len(),
{
    if s.len() == 0 {
        s
    } else if s.last() == ',' {
        without_commas(s.drop_last())
    } else {
        without_commas(s.drop_last()).push(s.last())
    }
}

/// Dropping commas from a concatenation drops them from each part.
proof fn lemma_without_commas_append(a: Seq<char>, b: Seq<char>)
    ensures
        without_commas(a + b) == without_commas(a) + without_commas(b),
    decreases b.len(),
{
    if b.len() == 0 {
        assert(a + b =~= a);
        assert(without_commas(a) + without_commas(b) =~= without_commas(a));
    } else {
        lemma_without_commas_append(a, b.drop_last());
        assert((a + b).drop_last() =~= a + b.drop_last());
        assert((a + b).last() == b.last());
        if b.last() != ',' {
            assert(without_commas(a) + without_commas(b.drop_last()).push(b.last()) =~= (
            without_commas(a) + without_commas(b.drop_last())).push(b.last()));
        }
    }
}

/// A text with no commas is its own comma-free form.
proof fn lemma_without_commas_none(s: Seq<char>)
    requires
        forall|i: int| 0 <= i < s.len() ==> #[trigger] s[i] != ',',
    ensures
        without_commas(s) == s,
    decreases s.len(),
{
    if s.len() > 0 {
        let p = s.drop_last();
        assert forall|i: int| 0 <= i < p.len() implies #[trigger] p[i] != ',' by {
            assert(p[i] == s[i]);
        }
        lemma_without_commas_none(p);
        assert(s.last() == s[s.len() - 1]);
        assert(p.push(s.last()) =~= s);
    }
}

/// Grouping the digits of a number in threes only adds commas: taking them
/// out again gives the number's digits.
pub proof fn thousands_grouping_keeps_digits(d: Seq<char>)
    requires
        forall|i: int| 0 <= i < d.len() ==> #[trigger] d[i] != ',',
    ensures
        without_commas(group_thousands(d)) == d,
    decreases d.len(),
{
    if d.len() <= 3 {
        lemma_without_commas_none(d);
    } else {
        let head = d.take(d.len() - 3);
        let tail = d.skip(d.len() - 3);
        assert forall|i: int| 0 <= i < head.len() implies #[trigger] head[i] != ',' by {
            assert(head[i] == d[i]);
        }
        assert forall|i: int| 0 <= i < tail.len() implies #[trigger] tail[i] != ',' by {
            assert(tail[i] == d[d.len() - 3 + i]);
        }
        thousands_grouping_keeps_digits(head);
        lemma_without_commas_none(tail);
        lemma_without_commas_append(group_thousands(head) + seq![','], tail);
        lemma_without_commas_append(group_thousands(head), seq![',']);
        assert(without_commas(seq![',']) =~= Seq::<char>::empty()) by {
            assert(seq![','].drop_last() =~= Seq::<char>::empty());
            assert(seq![','].last() == ',');
            assert(without_commas(Seq::<char>::empty()) == Seq::<char>::empty());
        }
        assert(head + tail =~= d);
    }
}

/// The decimal digits of `n`.
pub fn decimal_chars(n: u64) -> (r: Vec<char>)
    ensures
        r@ == decimal(n as nat),
    decreases n,
{
    let d = (n % 10) as u32 + 48;
    let c = (d as u8) as char;
    if n < 10 {
        assert(c == digit_char(n as nat));
        vec![c]
    } else {
        let mut r = decimal_chars(n / 10);
        r.push(c);
        r
    }
}

/// `n` written in decimal (`u64::to_string`).
pub fn decimal_string(n: u64) -> (s: String)
    ensures
        s@ == decimal(n as nat),
{
    let v = decimal_chars(n);
    string_of(&v)
}

/// Groups digits in threes from the right.
fn grouped(d: &[char]) -> (r: Vec<char>)
    ensures
        r@ == group_thousands(d@),
    decreases d@.len(),
{
    let n = d.len();
    if n <= 3 {
        let mut r: Vec<char> = Vec::new();
        let mut i: usize = 0;
        while i < n
            invariant
                i <= n == d@.len(),
                r@ == d@.take(i as int),
            decreases n - i,
        {
            r.push(d[i]);
            assert(d@.take(i + 1) == d@.take(i as int).push(d@[i as int]));
            i += 1;
        }
        assert(d@.take(n as int) == d@);
        r
    } else {
        let mut r = grouped(&d[0..n - 3]);
        assert(d@.subrange(0, n - 3) == d@.take(n - 3));
        r.push(',');
        r.push(d[n - 3]);
        r.push(d[n - 2]);
        r.push(d[n - 1]);
        assert(d@.skip(n - 3) =~= seq![d@[n - 3], d@[n - 2], d@[n - 1]]);
        assert(r@ =~= group_thousands(d@.take(n - 3)) + seq![','] + d@.skip(n - 3));
        r
    }
}

/// Format an integer with thousands separators, e.g. 1234567 -> "1,234,567".
pub fn fmt_int(n: u64) -> (s: String)
    ensures
        s@ == group_thousands(decimal(n as nat)),
{
    let d = decimal_chars(n);
    let g = grouped(&d);
    string_of(&g)
}

} // verus!
