//! Character-level text handling over `Seq<char>` models of strings.

use vstd::prelude::*;

verus! {

/// Whether `c` has the Unicode `White_Space` property, which is what
/// `char::is_whitespace`, `str::trim` and `str::split_whitespace` go by.
pub open spec fn is_ws(c: char) -> bool {
    let u = c as u32;
    ||| 0x09 <= u <= 0x0d
    ||| u == 0x20
    ||| u == 0x85
    ||| u == 0xa0
    ||| u == 0x1680
    ||| 0x2000 <= u <= 0x200a
    ||| u == 0x2028
    ||| u == 0x2029
    ||| u == 0x202f
    ||| u == 0x205f
    ||| u == 0x3000
}

/// Whether `c` is one of the ASCII digits `0`..`9`.
pub open spec fn is_digit(c: char) -> bool {
    '0' <= c <= '9'
}

/// Lowercasing as far as ASCII text is concerned: `A`..`Z` become `a`..`z`
/// and the Kelvin sign becomes `k` (a non-ASCII letter whose lowercase is
/// ASCII); every other character is left as it is. Matching the ASCII
/// keywords of turn lines against this gives the same answers as matching
/// them against Unicode lowercasing: the one other character whose
/// lowercase holds an ASCII letter, `İ`, lowercases to `i` followed by a
/// combining dot, and no keyword has an `i` followed by a combining dot.
pub open spec fn lower_char(c: char) -> char {
    if 'A' <= c <= 'Z' {
        ((c as u32) + 32) as char
    } else if c == '\u{212a}' {
        'k'
    } else {
        c
    }
}

/// `s` with every character passed through [`lower_char`].
pub open spec fn lower(s: Seq<char>) -> Seq<char> {
    s.map_values(|c: char| lower_char(c))
}

/// Tests a character for white space.
pub fn is_whitespace(c: char) -> (b: bool)
    ensures
        b == is_ws(c),
{
    let u = c as u32;
    (0x09 <= u && u <= 0x0d) || u == 0x20 || u == 0x85 || u == 0xa0 || u == 0x1680 || (0x2000
        <= u && u <= 0x200a) || u == 0x2028 || u == 0x2029 || u == 0x202f || u == 0x205f || u
        == 0x3000
}

/// Tests a character for being an ASCII digit.
pub fn is_ascii_digit(c: char) -> (b: bool)
    ensures
        b == is_digit(c),
{
    '0' <= c && c <= '9'
}

/// Lowercases one character (see [`lower_char`]).
pub fn to_lower(c: char) -> (r: char)
    ensures
        r == lower_char(c),
{
    if 'A' <= c && c <= 'Z' {
        let u = (c as u32) + 32;
        let b = u as u8;
        b as char
    } else if c == '\u{212a}' {
        'k'
    } else {
        c
    }
}

/// The characters of `s`, in order.
pub fn chars_of(s: &str) -> (v: Vec<char>)
    ensures
        v@ == s@,
{
    let mut v: Vec<char> = Vec::new();
    for c in it: s.chars()
        invariant
            v@ == it.seq().take(it.index() as int),
    {
        v.push(c);
    }
    v
}

/// Calls `String::push`. Its contract says that the string afterwards is
/// the one before with `c` appended.
#[verifier::external_body]
pub(crate) fn push_char(s: &mut String, c: char)
    ensures
        final(s)@ == old(s)@.push(c),
{
    s.push(c);
}

/// The string made of the characters of `v`.
pub fn string_of(v: &[char]) -> (s: String)
    ensures
        s@ == v@,
{
    let mut s = String::new();
    let mut i: usize = 0;
    while i < v.len()
        invariant
            i <= v@.len(),
            s@ == v@.take(i as int),
        decreases v@.len() - i,
    {
        push_char(&mut s, v[i]);
        assert(v@.take(i + 1) == v@.take(i as int).push(v@[i as int]));
        i += 1;
    }
    assert(v@.take(v@.len() as int) == v@);
    s
}


/// `s` without its leading white space (`str::trim_start`).
pub open spec fn trim_start(s: Seq<char>) -> Seq<char>
    decreases s.len(),
{
    if s.len() > 0 && is_ws(s[0]) {
        trim_start(s.drop_first())
    } else {
        s
    }
}

/// `s` without its trailing white space (`str::trim_end`).
pub open spec fn trim_end(s: Seq<char>) -> Seq<char>
    decreases s.len(),
{
    if s.len() > 0 && is_ws(s.last()) {
        trim_end(s.drop_last())
    } else {
        s
    }
}

/// `s` without leading or trailing white space (`str::trim`).
pub open spec fn trim(s: Seq<char>) -> Seq<char> {
    trim_end(trim_start(s))
}

/// Whether `pat` occurs in `s` as a contiguous run.
pub open spec fn contains(s: Seq<char>, pat: Seq<char>) -> bool {
    exists|i: int| 0 <= i <= s.len() - pat.len() && #[trigger] s.subrange(i, i + pat.len()) == pat
}

/// Whether `c` separates the segments of a turn line.
pub open spec fn is_sep(c: char) -> bool {
    c == ',' || c == ';'
}

/// The pieces of `s` between the separators `,` and `;`, empty pieces
/// included: `str::split` with the pattern `[',', ';']`.
pub open spec fn segments(s: Seq<char>) -> Seq<Seq<char>>
    decreases s.len(),
{
    if s.len() == 0 {
        seq![Seq::<char>::empty()]
    } else {
        let prev = segments(s.drop_last());
        if is_sep(s.last()) {
            prev.push(Seq::<char>::empty())
        } else {
            prev.update(prev.len() - 1, prev.last().push(s.last()))
        }
    }
}

/// The lines of `s`: the pieces between `\n` characters, the last one
/// included even when empty.
pub open spec fn lines(s: Seq<char>) -> Seq<Seq<char>>
    decreases s.len(),
{
    if s.len() == 0 {
        seq![Seq::<char>::empty()]
    } else {
        let prev = lines(s.drop_last());
        if s.last() == '\n' {
            prev.push(Seq::<char>::empty())
        } else {
            prev.update(prev.len() - 1, prev.last().push(s.last()))
        }
    }
}

/// The maximal runs of non-white-space characters of `s`, in order:
/// `str::split_whitespace`.
pub open spec fn words(s: Seq<char>) -> Seq<Seq<char>>
    decreases s.len(),
{
    if s.len() == 0 {
        Seq::<Seq<char>>::empty()
    } else {
        let prev = words(s.drop_last());
        if is_ws(s.last()) {
            prev
        } else if s.len() >= 2 && !is_ws(s[s.len() - 2]) {
            prev.update(prev.len() - 1, prev.last().push(s.last()))
        } else {
            prev.push(seq![s.last()])
        }
    }
}

/// The pieces of `segs` joined with `sep` between each two of them.
pub open spec fn join(segs: Seq<Seq<char>>, sep: Seq<char>) -> Seq<char>
    decreases segs.len(),
{
    if segs.len() == 0 {
        Seq::<char>::empty()
    } else if segs.len() == 1 {
        segs[0]
    } else {
        join(segs.drop_last(), sep) + sep + segs.last()
    }
}

/// The character sequences held by a list of character vectors.
pub open spec fn views(v: Seq<Vec<char>>) -> Seq<Seq<char>> {
    v.map_values(|x: Vec<char>| x@)
}

/// `segments` always yields at least one piece.
pub proof fn lemma_segments_nonempty(s: Seq<char>)
    ensures
        segments(s).len() >= 1,
    decreases s.len(),
{
    if s.len() > 0 {
        lemma_segments_nonempty(s.drop_last());
    }
}

/// `lines` always yields at least one piece.
pub proof fn lemma_lines_nonempty(s: Seq<char>)
    ensures
        lines(s).len() >= 1,
    decreases s.len(),
{
    if s.len() > 0 {
        lemma_lines_nonempty(s.drop_last());
    }
}

/// A string that ends in a non-white-space character has a last word.
pub proof fn lemma_words_last(s: Seq<char>)
    ensures
        s.len() > 0 && !is_ws(s.last()) ==> words(s).len() >= 1,
    decreases s.len(),
{
    if s.len() > 0 {
        lemma_words_last(s.drop_last());
    }
}

/// Whether every character of `s` is white space.
pub open spec fn all_ws(s: Seq<char>) -> bool {
    forall|i: int| 0 <= i < s.len() ==> is_ws(#[trigger] s[i])
}

/// Whether no character of `s` is white space.
pub open spec fn no_ws(s: Seq<char>) -> bool {
    forall|i: int| 0 <= i < s.len() ==> !is_ws(#[trigger] s[i])
}

/// Whether no character of `s` is a segment separator.
pub open spec fn no_sep(s: Seq<char>) -> bool {
    forall|i: int| 0 <= i < s.len() ==> !is_sep(#[trigger] s[i])
}

/// The number of white-space characters `s` starts with.
pub open spec fn lead_ws(s: Seq<char>) -> nat
    decreases s.len(),
{
    if s.len() > 0 && is_ws(s[0]) {
        1 + lead_ws(s.drop_first())
    } else {
        0
    }
}

/// The number of white-space characters `s` ends with.
pub open spec fn trail_ws(s: Seq<char>) -> nat
    decreases s.len(),
{
    if s.len() > 0 && is_ws(s.last()) {
        1 + trail_ws(s.drop_last())
    } else {
        0
    }
}

/// `trim_start` drops exactly the leading white space.
pub proof fn lemma_trim_start_skip(s: Seq<char>)
    ensures
        lead_ws(s) <= s.len(),
        trim_start(s) == s.skip(lead_ws(s) as int),
        all_ws(s.take(lead_ws(s) as int)),
    decreases s.len(),
{
    if s.len() > 0 && is_ws(s[0]) {
        let t = s.drop_first();
        lemma_trim_start_skip(t);
        assert(s.skip(lead_ws(s) as int) =~= t.skip(lead_ws(t) as int));
        assert forall|i: int| 0 <= i < lead_ws(s) implies is_ws(#[trigger] s.take(lead_ws(s) as int)[i]) by {
            if i > 0 {
                assert(s.take(lead_ws(s) as int)[i] == t.take(lead_ws(t) as int)[i - 1]);
            }
        }
    } else {
        assert(s.skip(0) =~= s);
    }
}

/// `trim_end` drops exactly the trailing white space.
pub proof fn lemma_trim_end_take(s: Seq<char>)
    ensures
        trail_ws(s) <= s.len(),
        trim_end(s) == s.take(s.len() - trail_ws(s)),
        all_ws(s.skip(s.len() - trail_ws(s))),
    decreases s.len(),
{
    if s.len() > 0 && is_ws(s.last()) {
        let t = s.drop_last();
        lemma_trim_end_take(t);
        assert(s.take(s.len() - trail_ws(s)) =~= t.take(t.len() - trail_ws(t)));
        assert forall|i: int| 0 <= i < trail_ws(s) implies is_ws(
            #[trigger] s.skip(s.len() - trail_ws(s))[i],
        ) by {
            if i < trail_ws(s) - 1 {
                assert(s.skip(s.len() - trail_ws(s))[i] == t.skip(t.len() - trail_ws(t))[i]);
            } else {
                assert(s.skip(s.len() - trail_ws(s))[i] == s.last());
            }
        }
    } else {
        assert(s.take(s.len() as int) =~= s);
    }
}

/// `s` is its white-space head, its trim, and its white-space tail, in
/// that order.
pub proof fn lemma_trim_split(s: Seq<char>)
    ensures
        exists|a: Seq<char>, c: Seq<char>|
            all_ws(a) && all_ws(c) && s == a + trim(s) + c,
{
    lemma_trim_start_skip(s);
    let a = s.take(lead_ws(s) as int);
    let u = s.skip(lead_ws(s) as int);
    lemma_trim_end_take(u);
    let c = u.skip(u.len() - trail_ws(u));
    assert(s =~= a + trim(s) + c);
}

/// White space at the end of a text adds no word.
pub proof fn lemma_words_ws_suffix(b: Seq<char>, c: Seq<char>)
    requires
        all_ws(c),
    ensures
        words(b + c) == words(b),
    decreases c.len(),
{
    if c.len() > 0 {
        let c0 = c.drop_last();
        assert(all_ws(c0)) by {
            assert forall|i: int| 0 <= i < c0.len() implies is_ws(#[trigger] c0[i]) by {
                assert(c0[i] == c[i]);
            }
        }
        lemma_words_ws_suffix(b, c0);
        assert((b + c).drop_last() =~= b + c0);
        assert((b + c).last() == c[c.len() - 1]);
    } else {
        assert(b + c =~= b);
    }
}

/// A text of white space has no words.
pub proof fn lemma_words_all_ws(a: Seq<char>)
    requires
        all_ws(a),
    ensures
        words(a) == Seq::<Seq<char>>::empty(),
    decreases a.len(),
{
    if a.len() > 0 {
        let a0 = a.drop_last();
        assert(all_ws(a0)) by {
            assert forall|i: int| 0 <= i < a0.len() implies is_ws(#[trigger] a0[i]) by {
                assert(a0[i] == a[i]);
            }
        }
        lemma_words_all_ws(a0);
        assert(is_ws(a[a.len() - 1]));
    }
}

/// White space at the start of a text adds no word.
pub proof fn lemma_words_ws_prefix(a: Seq<char>, b: Seq<char>)
    requires
        all_ws(a),
    ensures
        words(a + b) == words(b),
    decreases b.len(),
{
    if b.len() == 0 {
        assert(a + b =~= a);
        lemma_words_all_ws(a);
    } else {
        let b0 = b.drop_last();
        lemma_words_ws_prefix(a, b0);
        let s = a + b;
        assert(s.drop_last() =~= a + b0);
        assert(s.last() == b.last());
        if s.len() >= 2 {
            if b.len() >= 2 {
                assert(s[s.len() - 2] == b[b.len() - 2]);
            } else if a.len() > 0 {
                assert(s[s.len() - 2] == a[a.len() - 1]);
            }
        }
    }
}

/// White space before a text that starts with none is all `trim_start`
/// drops.
proof fn lemma_trim_start_ws_prefix(a: Seq<char>, x: Seq<char>)
    requires
        all_ws(a),
        x.len() == 0 || !is_ws(x[0]),
    ensures
        trim_start(a + x) == x,
    decreases a.len(),
{
    if a.len() == 0 {
        assert(a + x =~= x);
    } else {
        assert((a + x)[0] == a[0]);
        assert((a + x).drop_first() =~= a.drop_first() + x);
        assert(all_ws(a.drop_first())) by {
            assert forall|i: int| 0 <= i < a.drop_first().len() implies is_ws(#[trigger] a.drop_first()[i]) by {
                assert(a.drop_first()[i] == a[i + 1]);
            }
        }
        lemma_trim_start_ws_prefix(a.drop_first(), x);
    }
}

/// White space after a text that ends with none is all `trim_end` drops.
proof fn lemma_trim_end_ws_suffix(x: Seq<char>, c: Seq<char>)
    requires
        all_ws(c),
        x.len() == 0 || !is_ws(x.last()),
    ensures
        trim_end(x + c) == x,
    decreases c.len(),
{
    if c.len() == 0 {
        assert(x + c =~= x);
    } else {
        assert((x + c).last() == c.last());
        assert(is_ws(c[c.len() - 1]));
        assert((x + c).drop_last() =~= x + c.drop_last());
        assert(all_ws(c.drop_last())) by {
            assert forall|i: int| 0 <= i < c.drop_last().len() implies is_ws(#[trigger] c.drop_last()[i]) by {
                assert(c.drop_last()[i] == c[i]);
            }
        }
        lemma_trim_end_ws_suffix(x, c.drop_last());
    }
}

/// A text between two runs of white space, with none at its own ends, is
/// what trimming the whole gives.
pub proof fn lemma_trim_of(a: Seq<char>, m: Seq<char>, c: Seq<char>)
    requires
        all_ws(a),
        all_ws(c),
        m.len() > 0,
        !is_ws(m[0]),
        !is_ws(m.last()),
    ensures
        trim(a + m + c) == m,
{
    assert(a + m + c =~= a + (m + c));
    assert((m + c)[0] == m[0]);
    lemma_trim_start_ws_prefix(a, m + c);
    lemma_trim_end_ws_suffix(m, c);
}

/// Splitting two texts put together is splitting each, the last piece of
/// the first run into the first piece of the second.
pub proof fn lemma_segments_concat(p: Seq<char>, q: Seq<char>)
    ensures
        segments(p + q) == segments(p).drop_last() + seq![segments(p).last() + segments(q)[0]]
            + segments(q).drop_first(),
    decreases q.len(),
{
    lemma_segments_nonempty(p);
    lemma_segments_nonempty(q);
    let sp = segments(p);
    if q.len() == 0 {
        assert(p + q =~= p);
        assert(segments(q) == seq![Seq::<char>::empty()]);
        assert(sp.last() + Seq::<char>::empty() =~= sp.last());
        assert(sp.drop_last() + seq![sp.last()] + seq![Seq::<char>::empty()].drop_first() =~= sp);
    } else {
        let q0 = q.drop_last();
        let c = q.last();
        lemma_segments_concat(p, q0);
        lemma_segments_nonempty(q0);
        assert((p + q).drop_last() =~= p + q0);
        assert((p + q).last() == c);
        let s0 = segments(q0);
        let a0 = segments(p + q0);
        assert(a0 == sp.drop_last() + seq![sp.last() + s0[0]] + s0.drop_first());
        if is_sep(c) {
            assert(segments(q) == s0.push(Seq::<char>::empty()));
            assert(segments(p + q) == a0.push(Seq::<char>::empty()));
            assert(segments(q)[0] == s0[0]);
            assert(segments(q).drop_first() =~= s0.drop_first().push(Seq::<char>::empty()));
            assert(segments(p + q) =~= sp.drop_last() + seq![sp.last() + segments(q)[0]] + segments(q).drop_first());
        } else {
            assert(segments(q) == s0.update(s0.len() - 1, s0.last().push(c)));
            assert(segments(p + q) == a0.update(a0.len() - 1, a0.last().push(c)));
            if s0.len() == 1 {
                assert(segments(q)[0] == s0[0].push(c));
                assert(a0.last() == sp.last() + s0[0]);
                assert((sp.last() + s0[0]).push(c) =~= sp.last() + s0[0].push(c));
                assert(segments(p + q) =~= sp.drop_last() + seq![sp.last() + segments(q)[0]] + segments(q).drop_first());
            } else {
                assert(segments(q)[0] == s0[0]);
                assert(segments(q).drop_first() =~= s0.drop_first().update(
                    s0.len() - 2,
                    s0.last().push(c),
                ));
                assert(segments(p + q) =~= sp.drop_last() + seq![sp.last() + segments(q)[0]] + segments(q).drop_first());
            }
        }
    }
}

/// A text of white space trims to nothing, and a text that trims to
/// nothing is all white space.
pub proof fn lemma_trim_empty(s: Seq<char>)
    ensures
        trim(s).len() == 0 ==> all_ws(s),
{
    lemma_trim_split(s);
    let (a, c) = choose|a: Seq<char>, c: Seq<char>|
        all_ws(a) && all_ws(c) && s == a + trim(s) + c;
    if trim(s).len() == 0 {
        assert forall|i: int| 0 <= i < s.len() implies is_ws(#[trigger] s[i]) by {
            if i < a.len() {
                assert(s[i] == a[i]);
            } else {
                assert(s[i] == c[i - a.len()]);
            }
        }
    }
}

/// Lowercasing keeps white space white space, and other characters not.
pub proof fn lemma_lower_ws(c: char)
    ensures
        is_ws(lower_char(c)) == is_ws(c),
{
}

/// A keyword with no white space occurs in a lowercased text padded with
/// white space exactly when it occurs in the lowercased text itself.
pub proof fn lemma_contains_padded(a: Seq<char>, m: Seq<char>, c: Seq<char>, kw: Seq<char>)
    requires
        all_ws(a),
        all_ws(c),
        kw.len() > 0,
        no_ws(kw),
    ensures
        contains(lower(a + m + c), kw) == contains(lower(m), kw),
{
    let big = lower(a + m + c);
    let small = lower(m);
    assert(big =~= lower(a) + small + lower(c));
    if contains(big, kw) {
        let i = choose|i: int| 0 <= i <= big.len() - kw.len() && #[trigger] big.subrange(i, i + kw.len()) == kw;
        assert(big.subrange(i, i + kw.len())[0] == kw[0]);
        assert(!is_ws(kw[0]));
        if i < a.len() {
            assert(big[i] == lower_char(a[i]));
            lemma_lower_ws(a[i]);
            assert(false);
        }
        let e = i + kw.len() - 1;
        assert(big.subrange(i, i + kw.len())[kw.len() - 1] == kw[kw.len() - 1]);
        assert(!is_ws(kw[kw.len() - 1]));
        if e >= a.len() + m.len() {
            assert(big[e] == lower_char(c[e - a.len() - m.len()]));
            lemma_lower_ws(c[e - a.len() - m.len()]);
            assert(false);
        }
        let j = i - a.len();
        assert(small.subrange(j, j + kw.len()) =~= big.subrange(i, i + kw.len()));
    }
    if contains(small, kw) {
        let j = choose|j: int| 0 <= j <= small.len() - kw.len() && #[trigger] small.subrange(j, j + kw.len()) == kw;
        let i = j + a.len();
        assert(big.subrange(i, i + kw.len()) =~= small.subrange(j, j + kw.len()));
    }
}

/// Pieces with no separator append to the last segment.
pub proof fn lemma_segments_plain_suffix(z: Seq<char>, y: Seq<char>)
    requires
        no_sep(y),
    ensures
        segments(z + y) == segments(z).update(
            segments(z).len() - 1,
            segments(z).last() + y,
        ),
    decreases y.len(),
{
    lemma_segments_nonempty(z);
    if y.len() == 0 {
        assert(z + y =~= z);
        assert(segments(z).last() + y =~= segments(z).last());
        assert(segments(z).update(segments(z).len() - 1, segments(z).last()) =~= segments(z));
    } else {
        let y0 = y.drop_last();
        assert(no_sep(y0)) by {
            assert forall|i: int| 0 <= i < y0.len() implies !is_sep(#[trigger] y0[i]) by {
                assert(y0[i] == y[i]);
            }
        }
        lemma_segments_plain_suffix(z, y0);
        let s = z + y;
        assert(s.drop_last() =~= z + y0);
        assert(s.last() == y[y.len() - 1]);
        assert(!is_sep(y[y.len() - 1]));
        assert(segments(z).last() + y0 + seq![y.last()] =~= segments(z).last() + y);
        let zs = segments(z);
        let prev = segments(z + y0);
        assert(prev.len() == zs.len());
        assert(prev.last() == zs.last() + y0);
        assert(segments(s) == prev.update(prev.len() - 1, prev.last().push(y.last())));
        assert((zs.last() + y0).push(y.last()) =~= zs.last() + y);
        assert(segments(s) =~= zs.update(zs.len() - 1, zs.last() + y));
    }
}

/// Characters with no newline append to the last line.
pub proof fn lemma_lines_plain_suffix(z: Seq<char>, y: Seq<char>)
    requires
        forall|i: int| 0 <= i < y.len() ==> #[trigger] y[i] != '\n',
    ensures
        lines(z + y) == lines(z).update(lines(z).len() - 1, lines(z).last() + y),
    decreases y.len(),
{
    lemma_lines_nonempty(z);
    if y.len() == 0 {
        assert(z + y =~= z);
        assert(lines(z).last() + y =~= lines(z).last());
        assert(lines(z).update(lines(z).len() - 1, lines(z).last()) =~= lines(z));
    } else {
        let y0 = y.drop_last();
        assert forall|i: int| 0 <= i < y0.len() implies #[trigger] y0[i] != '\n' by {
            assert(y0[i] == y[i]);
        }
        lemma_lines_plain_suffix(z, y0);
        let s = z + y;
        assert(s.drop_last() =~= z + y0);
        assert(s.last() == y[y.len() - 1]);
        let zs = lines(z);
        let prev = lines(z + y0);
        assert(prev.len() == zs.len());
        assert(prev.last() == zs.last() + y0);
        assert(lines(s) == prev.update(prev.len() - 1, prev.last().push(y.last())));
        assert((zs.last() + y0).push(y.last()) =~= zs.last() + y);
        assert(lines(s) =~= zs.update(zs.len() - 1, zs.last() + y));
    }
}

/// Every segment is free of separators.
pub proof fn lemma_segments_no_sep(s: Seq<char>)
    ensures
        forall|i: int| 0 <= i < segments(s).len() ==> no_sep(#[trigger] segments(s)[i]),
    decreases s.len(),
{
    if s.len() > 0 {
        lemma_segments_no_sep(s.drop_last());
        lemma_segments_nonempty(s.drop_last());
        let prev = segments(s.drop_last());
        if !is_sep(s.last()) {
            assert forall|i: int| 0 <= i < segments(s).len() implies no_sep(#[trigger] segments(s)[i]) by {
                if i == prev.len() - 1 {
                    let x = prev.last().push(s.last());
                    assert(segments(s)[i] == x);
                    assert forall|k: int| 0 <= k < x.len() implies !is_sep(#[trigger] x[k]) by {
                        if k < x.len() - 1 {
                            assert(x[k] == prev.last()[k]);
                            assert(no_sep(prev[prev.len() - 1]));
                        }
                    }
                } else {
                    assert(segments(s)[i] == prev[i]);
                }
            }
        } else {
            assert forall|i: int| 0 <= i < segments(s).len() implies no_sep(#[trigger] segments(s)[i]) by {
                if i < prev.len() {
                    assert(segments(s)[i] == prev[i]);
                }
            }
        }
    }
}

/// A trimmed text keeps no character its source lacked.
pub proof fn lemma_trim_sub(s: Seq<char>)
    ensures
        no_sep(s) ==> no_sep(trim(s)),
        no_ws(trim(s).take(0)),
{
    lemma_trim_split(s);
    let (a, c) = choose|a: Seq<char>, c: Seq<char>|
        all_ws(a) && all_ws(c) && s == a + trim(s) + c;
    if no_sep(s) {
        assert forall|i: int| 0 <= i < trim(s).len() implies !is_sep(#[trigger] trim(s)[i]) by {
            assert(trim(s)[i] == s[a.len() + i]);
        }
    }
}

/// The characters of `s` without leading and trailing white space.
pub fn trim_chars(s: &[char]) -> (r: Vec<char>)
    ensures
        r@ == trim(s@),
{
    let n = s.len();
    let mut a: usize = 0;
    assert(s@.subrange(0, n as int) == s@);
    while a < n && is_whitespace(s[a])
        invariant
            a <= n == s@.len(),
            trim_start(s@) == trim_start(s@.subrange(a as int, n as int)),
        decreases n - a,
    {
        assert(s@.subrange(a as int, n as int).drop_first() == s@.subrange(a + 1, n as int));
        a += 1;
    }
    assert(trim_start(s@) == s@.subrange(a as int, n as int));
    let ghost t = s@.subrange(a as int, n as int);
    let mut b: usize = n;
    while b > a && is_whitespace(s[b - 1])
        invariant
            a <= b <= n == s@.len(),
            t == s@.subrange(a as int, n as int),
            trim_end(t) == trim_end(s@.subrange(a as int, b as int)),
        decreases b - a,
    {
        assert(s@.subrange(a as int, b as int).drop_last() == s@.subrange(a as int, b - 1));
        b -= 1;
    }
    let mut r: Vec<char> = Vec::new();
    let mut i: usize = a;
    while i < b
        invariant
            a <= i <= b <= n == s@.len(),
            r@ == s@.subrange(a as int, i as int),
        decreases b - i,
    {
        r.push(s[i]);
        assert(s@.subrange(a as int, i + 1) == s@.subrange(a as int, i as int).push(s@[i as int]));
        i += 1;
    }
    r
}

/// The characters of `s`, lowercased (see [`lower_char`]).
pub fn lower_chars(s: &[char]) -> (r: Vec<char>)
    ensures
        r@ == lower(s@),
{
    let mut r: Vec<char> = Vec::new();
    let mut i: usize = 0;
    while i < s.len()
        invariant
            i <= s@.len(),
            r@ == lower(s@.take(i as int)),
        decreases s@.len() - i,
    {
        r.push(to_lower(s[i]));
        assert(lower(s@.take(i + 1)) == lower(s@.take(i as int)).push(lower_char(s@[i as int])));
        i += 1;
    }
    assert(s@.take(s@.len() as int) == s@);
    r
}

/// Whether `pat` occurs in `s` starting at position `at`.
fn matches_at(s: &[char], pat: &[char], at: usize) -> (b: bool)
    requires
        at + pat@.len() <= s@.len(),
    ensures
        b == (s@.subrange(at as int, at + pat@.len()) == pat@),
{
    let n = s.len();
    let mut j: usize = 0;
    while j < pat.len()
        invariant
            j <= pat@.len(),
            n == s@.len(),
            at + pat@.len() <= s@.len(),
            forall|k: int| 0 <= k < j ==> s@[at + k] == pat@[k],
        decreases pat@.len() - j,
    {
        if s[at + j] != pat[j] {
            assert(s@.subrange(at as int, at + pat@.len())[j as int] != pat@[j as int]);
            return false;
        }
        j += 1;
    }
    assert(s@.subrange(at as int, at + pat@.len()) == pat@);
    true
}

/// Whether `pat` occurs in `s`.
pub fn has_sub(s: &[char], pat: &[char]) -> (b: bool)
    ensures
        b == contains(s@, pat@),
{
    if pat.len() > s.len() {
        return false;
    }
    if pat.len() == 0 {
        assert(s@.subrange(0int, 0int + pat@.len()) == pat@);
        return true;
    }
    let count = s.len() - pat.len() + 1;
    let mut i: usize = 0;
    while i < count
        invariant
            count + pat@.len() == s@.len() + 1,
            i <= count,
            forall|k: int| 0 <= k < i ==> #[trigger] s@.subrange(k, k + pat@.len()) != pat@,
        decreases count - i,
    {
        if matches_at(s, pat, i) {
            return true;
        }
        i += 1;
    }
    false
}

/// Whether `s` begins with `pat`.
pub fn has_prefix(s: &[char], pat: &[char]) -> (b: bool)
    ensures
        b == pat@.is_prefix_of(s@),
{
    if pat.len() > s.len() {
        return false;
    }
    let b = matches_at(s, pat, 0);
    assert(b == (s@.subrange(0, pat@.len() as int) == pat@));
    b
}

/// Whether `s` ends with `pat`.
pub fn has_suffix(s: &[char], pat: &[char]) -> (b: bool)
    ensures
        b == pat@.is_suffix_of(s@),
{
    if pat.len() > s.len() {
        return false;
    }
    matches_at(s, pat, s.len() - pat.len())
}

/// Splits `s` at every `,` and `;`.
pub fn split_segments(s: &[char]) -> (r: Vec<Vec<char>>)
    ensures
        views(r@) == segments(s@),
{
    let mut done: Vec<Vec<char>> = Vec::new();
    let mut cur: Vec<char> = Vec::new();
    let mut i: usize = 0;
    while i < s.len()
        invariant
            i <= s@.len(),
            views(done@).push(cur@) == segments(s@.take(i as int)),
        decreases s@.len() - i,
    {
        let c = s[i];
        let ghost before = s@.take(i as int);
        let ghost now = s@.take(i + 1);
        assert(now.drop_last() == before);
        assert(now.last() == c);
        proof {
            lemma_segments_nonempty(before);
        }
        let ghost old_done = views(done@);
        let ghost old_cur = cur@;
        if c == ',' || c == ';' {
            let finished = cur;
            done.push(finished);
            cur = Vec::new();
            assert(views(done@) =~= old_done.push(old_cur));
            assert(views(done@).push(cur@) =~= segments(before).push(Seq::<char>::empty()));
        } else {
            cur.push(c);
            assert(views(done@).push(cur@) =~= segments(before).update(
                segments(before).len() - 1,
                segments(before).last().push(c),
            ));
        }
        i += 1;
    }
    assert(s@.take(s@.len() as int) == s@);
    let ghost old_done = views(done@);
    let ghost last = cur@;
    done.push(cur);
    assert(views(done@) =~= old_done.push(last));
    done
}

/// Splits `s` at every `\n`.
pub fn split_lines(s: &[char]) -> (r: Vec<Vec<char>>)
    ensures
        views(r@) == lines(s@),
{
    let mut done: Vec<Vec<char>> = Vec::new();
    let mut cur: Vec<char> = Vec::new();
    let mut i: usize = 0;
    while i < s.len()
        invariant
            i <= s@.len(),
            views(done@).push(cur@) == lines(s@.take(i as int)),
        decreases s@.len() - i,
    {
        let c = s[i];
        let ghost before = s@.take(i as int);
        let ghost now = s@.take(i + 1);
        assert(now.drop_last() == before);
        assert(now.last() == c);
        proof {
            lemma_lines_nonempty(before);
        }
        let ghost old_done = views(done@);
        let ghost old_cur = cur@;
        if c == '\n' {
            let finished = cur;
            done.push(finished);
            cur = Vec::new();
            assert(views(done@) =~= old_done.push(old_cur));
            assert(views(done@).push(cur@) =~= lines(before).push(Seq::<char>::empty()));
        } else {
            cur.push(c);
            assert(views(done@).push(cur@) =~= lines(before).update(
                lines(before).len() - 1,
                lines(before).last().push(c),
            ));
        }
        i += 1;
    }
    assert(s@.take(s@.len() as int) == s@);
    let ghost old_done = views(done@);
    let ghost last = cur@;
    done.push(cur);
    assert(views(done@) =~= old_done.push(last));
    done
}

/// Splits `s` into its words (runs of non-white-space characters).
pub fn split_words(s: &[char]) -> (r: Vec<Vec<char>>)
    ensures
        views(r@) == words(s@),
{
    let mut done: Vec<Vec<char>> = Vec::new();
    let mut cur: Vec<char> = Vec::new();
    let mut i: usize = 0;
    while i < s.len()
        invariant
            i <= s@.len(),
            cur@.len() > 0 ==> i > 0 && !is_ws(s@[i - 1]) && views(done@).push(cur@)
                == words(s@.take(i as int)),
            cur@.len() == 0 ==> (i == 0 || is_ws(s@[i - 1])) && views(done@) == words(
                s@.take(i as int),
            ),
        decreases s@.len() - i,
    {
        let c = s[i];
        let ghost before = s@.take(i as int);
        let ghost now = s@.take(i + 1);
        assert(now.drop_last() == before);
        assert(now.last() == c);
        let ghost old_done = views(done@);
        let ghost old_cur = cur@;
        if is_whitespace(c) {
            if cur.len() > 0 {
                let finished = cur;
                done.push(finished);
                cur = Vec::new();
                assert(views(done@) =~= old_done.push(old_cur));
            }
            assert(words(now) == words(before));
        } else {
            proof {
                lemma_words_last(before);
            }
            cur.push(c);
            if i > 0 {
                assert(now[now.len() - 2] == s@[i - 1]);
            }
            if cur.len() > 1 {
                assert(views(done@).push(cur@) =~= words(before).update(
                    words(before).len() - 1,
                    words(before).last().push(c),
                ));
            } else {
                assert(cur@ =~= seq![c]);
                assert(!(now.len() >= 2 && !is_ws(now[now.len() - 2])));
                assert(views(done@).push(cur@) =~= words(before).push(seq![c]));
            }
        }
        i += 1;
    }
    assert(s@.take(s@.len() as int) == s@);
    if cur.len() > 0 {
        let ghost old_done = views(done@);
        let ghost last = cur@;
        done.push(cur);
        assert(views(done@) =~= old_done.push(last));
    }
    done
}

/// The pieces of `segs` joined with `sep` between each two of them.
pub fn join_pieces(segs: &Vec<Vec<char>>, sep: &[char]) -> (r: Vec<char>)
    ensures
        r@ == join(views(segs@), sep@),
{
    let mut r: Vec<char> = Vec::new();
    let mut i: usize = 0;
    while i < segs.len()
        invariant
            i <= segs@.len(),
            r@ == join(views(segs@).take(i as int), sep@),
        decreases segs@.len() - i,
    {
        let ghost prev = views(segs@).take(i as int);
        assert(views(segs@).take(i + 1).drop_last() == prev);
        if i > 0 {
            let mut k: usize = 0;
            let ghost r0 = r@;
            while k < sep.len()
                invariant
                    k <= sep@.len(),
                    r@ == r0 + sep@.take(k as int),
                decreases sep@.len() - k,
            {
                r.push(sep[k]);
                assert(sep@.take(k + 1) == sep@.take(k as int).push(sep@[k as int]));
                k += 1;
            }
            assert(sep@.take(sep@.len() as int) == sep@);
        }
        let piece = &segs[i];
        let ghost r1 = r@;
        let mut k: usize = 0;
        while k < piece.len()
            invariant
                k <= piece@.len(),
                r@ == r1 + piece@.take(k as int),
            decreases piece@.len() - k,
        {
            r.push(piece[k]);
            assert(piece@.take(k + 1) == piece@.take(k as int).push(piece@[k as int]));
            k += 1;
        }
        assert(piece@.take(piece@.len() as int) == piece@);
        assert(views(segs@)[i as int] == piece@);
        i += 1;
    }
    assert(views(segs@).take(segs@.len() as int) == views(segs@));
    r
}

/// `a` followed by `b`.
pub fn concat(a: &str, b: &str) -> (r: String)
    ensures
        r@ == a@ + b@,
{
    let mut v = chars_of(a);
    let w = chars_of(b);
    let ghost head = v@;
    let mut i: usize = 0;
    while i < w.len()
        invariant
            i <= w@.len(),
            v@ == head + w@.take(i as int),
        decreases w@.len() - i,
    {
        v.push(w[i]);
        assert(w@.take(i + 1) == w@.take(i as int).push(w@[i as int]));
        i += 1;
    }
    assert(w@.take(w@.len() as int) == w@);
    string_of(&v)
}

} // verus!
