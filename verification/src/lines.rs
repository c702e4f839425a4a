//! Turn lines as typed or saved: markers, inline markers, repeat directives.

use vstd::prelude::*;
use crate::parser::{
    is_repeat, is_repeat_segment, lemma_step_padded, lemma_step_trim, line_tally, parse_in_range,
    parse_result, segment_number, tally, tally_step, empty_tally, ParsedTurn, Tally,
};
use crate::text::{
    all_ws, chars_of, has_prefix, is_ws, join, join_pieces, lemma_segments_no_sep,
    lemma_segments_nonempty, lemma_segments_plain_suffix, lemma_trim_empty, lemma_trim_sub,
    lemma_words_all_ws, lower, lower_chars, no_sep, segments, split_segments, string_of, trim,
    trim_chars, views, words,
};

verus! {

/// A positional marker dropped into the conversation. `after` is the number
/// of turns that preceded it (so it sits between turn `after` and `after+1`);
/// `label` is optional free text shown alongside it.
#[derive(Clone, Debug)]
pub struct Marker {
    pub after: usize,
    pub label: String,
}

impl View for Marker {
    type V = (usize, Seq<char>);

    open spec fn view(&self) -> (usize, Seq<char>) {
        (self.after, self.label@)
    }
}

impl Marker {
    /// An exact copy of this marker.
    pub fn duplicate(&self) -> (m: Marker)
        ensures
            m@ == self@,
    {
        Marker { after: self.after, label: self.label.clone() }
    }
}

/// `c` with an ASCII capital turned into its small letter.
pub open spec fn ascii_lower(c: char) -> char {
    if 'A' <= c <= 'Z' {
        ((c as u32) + 32) as char
    } else {
        c
    }
}

/// Whether `a` and `b` are equal once ASCII letters are compared without
/// case (`str::eq_ignore_ascii_case`).
pub open spec fn eq_ignore_ascii_case(a: Seq<char>, b: Seq<char>) -> bool {
    &&& a.len() == b.len()
    &&& forall|i: int| 0 <= i < a.len() ==> ascii_lower(#[trigger] a[i]) == ascii_lower(b[i])
}

/// How many bytes `c` takes in UTF-8.
pub open spec fn utf8_len(c: char) -> int {
    let u = c as u32;
    if u < 0x80 {
        1
    } else if u < 0x800 {
        2
    } else if u < 0x10000 {
        3
    } else {
        4
    }
}

/// What is left of `s` once its first `n` bytes (in UTF-8) are skipped.
pub open spec fn skip_bytes(s: Seq<char>, n: int) -> Seq<char>
    decreases s.len(),
{
    if n <= 0 || s.len() == 0 {
        s
    } else {
        skip_bytes(s.drop_first(), n - utf8_len(s[0]))
    }
}

/// The word `marker`.
pub open spec fn marker_word() -> Seq<char> {
    seq!['m', 'a', 'r', 'k', 'e', 'r']
}

/// If `input` is a `marker` command, its (possibly empty) label: the
/// trimmed input equal to "marker" up to ASCII case gives the empty label;
/// one whose lowercase starts with "marker:" or "marker " gives the trimmed
/// text after those seven bytes.
pub open spec fn marker_label_of(input: Seq<char>) -> Option<Seq<char>> {
    let t = trim(input);
    if eq_ignore_ascii_case(t, marker_word()) {
        Some(Seq::<char>::empty())
    } else if marker_word().push(':').is_prefix_of(lower(t)) || marker_word().push(
        ' ',
    ).is_prefix_of(lower(t)) {
        Some(trim(skip_bytes(t, 7)))
    } else {
        None
    }
}

/// The raw line that persists a marker with the given label.
pub open spec fn marker_raw_of(label: Seq<char>) -> Seq<char> {
    if label.len() == 0 {
        marker_word()
    } else {
        marker_word() + seq![':', ' '] + label
    }
}

/// Whether a text has no white space at either end.
pub open spec fn is_trimmed(s: Seq<char>) -> bool {
    s.len() == 0 || (!is_ws(s[0]) && !is_ws(s.last()))
}

/// The state of the scan for an inline marker: the segments kept so far and
/// the label of the marker found, if any.
pub open spec fn extract_step(
    state: (Seq<Seq<char>>, Option<Seq<char>>),
    segment: Seq<char>,
) -> (Seq<Seq<char>>, Option<Seq<char>>) {
    let s = trim(segment);
    if s.len() == 0 {
        state
    } else if state.1 is None && marker_label_of(s) is Some {
        (state.0, marker_label_of(s))
    } else {
        (state.0.push(s), state.1)
    }
}

/// The scan for an inline marker over a list of segments, left to right.
pub open spec fn extract_scan(segs: Seq<Seq<char>>) -> (Seq<Seq<char>>, Option<Seq<char>>)
    decreases segs.len(),
{
    if segs.len() == 0 {
        (Seq::<Seq<char>>::empty(), None)
    } else {
        extract_step(extract_scan(segs.drop_last()), segs.last())
    }
}

/// The separator that rejoins kept segments.
pub open spec fn comma_space() -> Seq<char> {
    seq![',', ' ']
}

/// A line with its first marker segment taken out: the other non-empty
/// trimmed segments rejoined with ", ", and the marker's label.
pub open spec fn extract_inline_marker_of(line: Seq<char>) -> (Seq<char>, Option<Seq<char>>) {
    let (kept, label) = extract_scan(segments(line));
    (join(kept, comma_space()), label)
}

/// The non-empty trimmed segments of a line that are not repeat directives.
pub open spec fn plain_segments(segs: Seq<Seq<char>>) -> Seq<Seq<char>>
    decreases segs.len(),
{
    if segs.len() == 0 {
        Seq::<Seq<char>>::empty()
    } else {
        let prev = plain_segments(segs.drop_last());
        let s = trim(segs.last());
        if s.len() > 0 && !is_repeat_segment(s) {
            prev.push(s)
        } else {
            prev
        }
    }
}

/// A turn line without its `repeat N` / `N times` segments.
pub open spec fn strip_repeat_of(raw: Seq<char>) -> Seq<char> {
    join(plain_segments(segments(raw)), comma_space())
}

/// A trimmed text is its own trim.
pub(crate) proof fn lemma_trimmed_trim(s: Seq<char>)
    requires
        is_trimmed(s),
    ensures
        trim(s) == s,
{
    assert(crate::text::trim_start(s) == s);
    assert(crate::text::trim_end(s) == s);
}

/// A marker persisted by [`marker_raw`] reads back as the same marker:
/// for every label with no white space at its ends (every label that
/// [`marker_label`] produces), the raw line's label is that label.
pub proof fn marker_raw_round_trip(label: Seq<char>)
    requires
        is_trimmed(label),
    ensures
        marker_label_of(marker_raw_of(label)) == Some(label),
        trim(marker_raw_of(label)) == marker_raw_of(label),
{
    let r = marker_raw_of(label);
    if label.len() == 0 {
        assert(is_trimmed(r));
        lemma_trimmed_trim(r);
        assert(eq_ignore_ascii_case(r, marker_word()));
    } else {
        assert(r[0] == 'm');
        assert(r.last() == label.last());
        assert(is_trimmed(r));
        lemma_trimmed_trim(r);
        assert(!eq_ignore_ascii_case(r, marker_word()));
        assert(marker_word().push(':').is_prefix_of(lower(r))) by {
            assert(lower(r).subrange(0, 7) =~= marker_word().push(':'));
        }
        let tail = seq![' '] + label;
        assert(skip_bytes(r, 7) == tail) by {
            reveal_with_fuel(skip_bytes, 8);
            assert(r.drop_first().drop_first().drop_first().drop_first().drop_first().drop_first(
            ).drop_first() =~= tail);
        }
        assert(crate::text::trim_start(tail) == crate::text::trim_start(label)) by {
            assert(tail.drop_first() == label);
        }
        lemma_trimmed_trim(label);
        assert(crate::text::trim_start(label) == label);
    }
}

/// The totals with the repeat count set back to one.
pub open spec fn without_repeat(t: Tally) -> Tally {
    Tally { repeat: 1, ..t }
}

/// Dropping blank and repeat segments (and trimming the others) leaves the
/// totals as they were, with the repeat count at one.
proof fn lemma_plain_tally(segs: Seq<Seq<char>>)
    ensures
        tally(plain_segments(segs)) == without_repeat(tally(segs)),
    decreases segs.len(),
{
    if segs.len() > 0 {
        let p = segs.drop_last();
        let s = segs.last();
        lemma_plain_tally(p);
        let t = tally(p);
        lemma_step_trim(t, s);
        lemma_step_trim(without_repeat(t), s);
        let q = plain_segments(p);
        if trim(s).len() > 0 && !is_repeat_segment(trim(s)) {
            assert(plain_segments(segs) == q.push(trim(s)));
            assert(q.push(trim(s)).drop_last() == q);
            assert(tally(plain_segments(segs)) == tally_step(tally(q), trim(s)));
            assert(tally_step(without_repeat(t), s) == without_repeat(tally_step(t, s)));
        } else {
            assert(plain_segments(segs) == q);
            if trim(s).len() == 0 {
                lemma_trim_empty(s);
                lemma_words_all_ws(s);
                assert(segment_number(s) is None);
                assert(tally_step(t, s) == t);
            } else {
                assert(is_repeat_segment(s));
                assert(without_repeat(tally_step(t, s)) == without_repeat(t));
            }
        }
    }
}

/// Segments that pass the strip keep no separator.
pub(crate) proof fn lemma_plain_no_sep(segs: Seq<Seq<char>>)
    requires
        forall|i: int| 0 <= i < segs.len() ==> no_sep(#[trigger] segs[i]),
    ensures
        forall|i: int| 0 <= i < plain_segments(segs).len() ==> no_sep(#[trigger] plain_segments(segs)[i]),
    decreases segs.len(),
{
    if segs.len() > 0 {
        let p = segs.drop_last();
        assert forall|i: int| 0 <= i < p.len() implies no_sep(#[trigger] p[i]) by {
            assert(p[i] == segs[i]);
        }
        lemma_plain_no_sep(p);
        assert(no_sep(segs[segs.len() - 1]));
        lemma_trim_sub(segs.last());
        let q = plain_segments(p);
        assert forall|i: int| 0 <= i < plain_segments(segs).len() implies no_sep(
            #[trigger] plain_segments(segs)[i],
        ) by {
            if i < q.len() {
                assert(plain_segments(segs)[i] == q[i]);
            }
        }
    }
}

/// The segments of pieces joined with ", ": the first piece, then each
/// other piece after a space.
pub open spec fn spaced(ks: Seq<Seq<char>>) -> Seq<Seq<char>>
    decreases ks.len(),
{
    if ks.len() == 0 {
        seq![Seq::<char>::empty()]
    } else if ks.len() == 1 {
        seq![ks[0]]
    } else {
        spaced(ks.drop_last()).push(seq![' '] + ks.last())
    }
}

/// Splitting pieces joined with ", " at the separators gives the pieces
/// back, each but the first after a space.
pub(crate) proof fn lemma_segments_join(ks: Seq<Seq<char>>)
    requires
        forall|i: int| 0 <= i < ks.len() ==> no_sep(#[trigger] ks[i]),
    ensures
        segments(join(ks, comma_space())) == spaced(ks),
    decreases ks.len(),
{
    if ks.len() == 1 {
        assert(join(ks, comma_space()) == ks[0]);
        lemma_segments_plain_suffix(Seq::<char>::empty(), ks[0]);
        assert(Seq::<char>::empty() + ks[0] =~= ks[0]);
        assert(segments(Seq::<char>::empty()).last() + ks[0] =~= ks[0]);
        assert(segments(ks[0]) =~= seq![ks[0]]);
    } else if ks.len() > 1 {
        let k0 = ks.drop_last();
        assert forall|i: int| 0 <= i < k0.len() implies no_sep(#[trigger] k0[i]) by {
            assert(k0[i] == ks[i]);
        }
        lemma_segments_join(k0);
        let x = join(k0, comma_space());
        let k = ks.last();
        assert(no_sep(ks[ks.len() - 1]));
        let tail = seq![' '] + k;
        assert(no_sep(tail)) by {
            assert forall|i: int| 0 <= i < tail.len() implies !crate::text::is_sep(#[trigger] tail[i]) by {
                if i > 0 {
                    assert(tail[i] == k[i - 1]);
                }
            }
        }
        let xc = x.push(',');
        assert(xc.drop_last() == x);
        lemma_segments_nonempty(x);
        assert(segments(xc) == segments(x).push(Seq::<char>::empty()));
        lemma_segments_plain_suffix(xc, tail);
        assert(join(ks, comma_space()) =~= xc + tail);
        assert(Seq::<char>::empty() + tail =~= tail);
        assert(segments(xc + tail) =~= segments(x).push(tail));
    } else {
        assert(join(ks, comma_space()) == Seq::<char>::empty());
    }
}

/// Joined pieces count exactly as the pieces do.
proof fn lemma_spaced_tally(ks: Seq<Seq<char>>)
    ensures
        tally(spaced(ks)) == tally(ks),
    decreases ks.len(),
{
    if ks.len() == 0 {
        let e = Seq::<char>::empty();
        assert(words(e) == Seq::<Seq<char>>::empty());
        assert(segment_number(e) is None);
        assert(spaced(ks) == seq![e]);
        assert(seq![e].drop_last() =~= Seq::<Seq<char>>::empty());
        assert(seq![e].last() == e);
        assert(tally(Seq::<Seq<char>>::empty()) == empty_tally());
        assert(tally(seq![e]) == tally_step(tally(seq![e].drop_last()), seq![e].last()));
        assert(tally(seq![e]) == tally_step(empty_tally(), e));
    } else if ks.len() == 1 {
        assert(spaced(ks) =~= ks);
    } else {
        let k0 = ks.drop_last();
        lemma_spaced_tally(k0);
        let k = ks.last();
        let sp = seq![' '];
        assert(all_ws(sp)) by {
            assert(is_ws(sp[0]));
        }
        assert(all_ws(Seq::<char>::empty()));
        lemma_step_padded(tally(k0), sp, k, Seq::<char>::empty());
        assert(sp + k + Seq::<char>::empty() =~= sp + k);
        assert(spaced(ks).drop_last() == spaced(k0));
        assert(spaced(ks).last() == sp + k);
    }
}

/// Removing the repeat directives from a turn line leaves a line that counts
/// the same tokens (in the same places, cached override included) and is
/// billed once: so a turn expanded from `repeat N` and stored without it is
/// not multiplied again when the conversation is reloaded.
pub proof fn strip_repeat_keeps_counts(raw: Seq<char>)
    ensures
        line_tally(strip_repeat_of(raw)) == without_repeat(line_tally(raw)),
        parse_in_range(strip_repeat_of(raw)) == parse_in_range(raw),
        parse_result(strip_repeat_of(raw)) == match parse_result(raw) {
            Some(p) => Some(ParsedTurn { repeat: 1, ..p }),
            None => None,
        },
{
    let segs = segments(raw);
    let ks = plain_segments(segs);
    lemma_segments_no_sep(raw);
    lemma_plain_no_sep(segs);
    lemma_segments_join(ks);
    lemma_spaced_tally(ks);
    lemma_plain_tally(segs);
}

/// What `trim_start` leaves starts with no white space.
proof fn lemma_trim_start_head(s: Seq<char>)
    ensures
        crate::text::trim_start(s).len() == 0 || !is_ws(crate::text::trim_start(s)[0]),
    decreases s.len(),
{
    if s.len() > 0 && is_ws(s[0]) {
        lemma_trim_start_head(s.drop_first());
    }
}

/// What `trim_end` leaves ends with no white space and starts where its
/// source starts.
proof fn lemma_trim_end_shape(s: Seq<char>)
    ensures
        crate::text::trim_end(s).len() == 0 || (!is_ws(crate::text::trim_end(s).last())
            && crate::text::trim_end(s)[0] == s[0]),
    decreases s.len(),
{
    if s.len() > 0 && is_ws(s.last()) {
        lemma_trim_end_shape(s.drop_last());
    }
}

/// A trimmed text has no white space at either end.
pub proof fn lemma_trim_trimmed(s: Seq<char>)
    ensures
        is_trimmed(trim(s)),
{
    lemma_trim_start_head(s);
    lemma_trim_end_shape(crate::text::trim_start(s));
}

/// A marker's label has no white space at either end.
pub proof fn lemma_label_trimmed(input: Seq<char>)
    ensures
        marker_label_of(input) matches Some(l) ==> is_trimmed(l),
{
    let t = trim(input);
    lemma_trim_trimmed(skip_bytes(t, 7));
}

/// A label found by the inline-marker scan has no white space at either end.
pub proof fn lemma_scan_label_trimmed(segs: Seq<Seq<char>>)
    ensures
        extract_scan(segs).1 matches Some(l) ==> is_trimmed(l),
    decreases segs.len(),
{
    if segs.len() > 0 {
        lemma_scan_label_trimmed(segs.drop_last());
        lemma_label_trimmed(trim(segs.last()));
    }
}

/// A trimmed text after one space trims back to itself.
proof fn lemma_trim_after_space(k: Seq<char>)
    requires
        is_trimmed(k),
    ensures
        trim(seq![' '] + k) == k,
{
    let sk = seq![' '] + k;
    assert(is_ws(sk[0]));
    assert(sk.drop_first() =~= k);
    assert(crate::text::trim_start(sk) == crate::text::trim_start(k));
    lemma_trimmed_trim(k);
}

/// Pieces with no white space at their ends, none empty, joined with ", ",
/// have no white space at their ends either.
proof fn lemma_join_trimmed(ks: Seq<Seq<char>>)
    requires
        ks.len() > 0,
        forall|i: int| 0 <= i < ks.len() ==> is_trimmed(#[trigger] ks[i]) && ks[i].len() > 0,
    ensures
        is_trimmed(join(ks, comma_space())),
        join(ks, comma_space()).len() > 0,
        join(ks, comma_space())[0] == ks[0][0],
    decreases ks.len(),
{
    if ks.len() > 1 {
        let k0 = ks.drop_last();
        assert forall|i: int| 0 <= i < k0.len() implies is_trimmed(#[trigger] k0[i]) && k0[i].len() > 0 by {
            assert(k0[i] == ks[i]);
        }
        lemma_join_trimmed(k0);
        let j = join(ks, comma_space());
        let x = join(k0, comma_space());
        assert(j == x + comma_space() + ks.last());
        assert(ks[ks.len() - 1].len() > 0);
        assert(j.last() == ks.last().last());
        assert(j[0] == x[0]);
        assert(k0[0] == ks[0]);
    } else {
        assert(ks[0].len() > 0);
    }
}

/// The pieces that the strip keeps have no white space at their ends, are
/// not empty, and are no repeat directives.
pub(crate) proof fn lemma_plain_shape(segs: Seq<Seq<char>>)
    ensures
        forall|i: int| 0 <= i < plain_segments(segs).len() ==> is_trimmed(#[trigger] plain_segments(segs)[i])
            && plain_segments(segs)[i].len() > 0 && !is_repeat_segment(plain_segments(segs)[i]),
    decreases segs.len(),
{
    if segs.len() > 0 {
        let p = segs.drop_last();
        lemma_plain_shape(p);
        lemma_trim_trimmed(segs.last());
        let q = plain_segments(p);
        assert forall|i: int| 0 <= i < plain_segments(segs).len() implies is_trimmed(
            #[trigger] plain_segments(segs)[i],
        ) && plain_segments(segs)[i].len() > 0 && !is_repeat_segment(plain_segments(segs)[i]) by {
            if i < q.len() {
                assert(plain_segments(segs)[i] == q[i]);
            }
        }
    }
}

/// Scanning pieces joined with ", " for an inline marker, when no piece is
/// a marker, keeps every piece and finds no marker.
proof fn lemma_scan_spaced(ks: Seq<Seq<char>>)
    requires
        forall|i: int| 0 <= i < ks.len() ==> is_trimmed(#[trigger] ks[i]) && ks[i].len() > 0
            && marker_label_of(ks[i]) is None,
    ensures
        ks.len() > 0 ==> extract_scan(spaced(ks)) == (ks, Option::<Seq<char>>::None),
    decreases ks.len(),
{
    if ks.len() == 1 {
        assert(spaced(ks) == seq![ks[0]]);
        assert(seq![ks[0]].drop_last() =~= Seq::<Seq<char>>::empty());
        lemma_trimmed_trim(ks[0]);
        assert(extract_scan(seq![ks[0]]) == extract_step(extract_scan(Seq::<Seq<char>>::empty()), ks[0]));
        assert(Seq::<Seq<char>>::empty().push(ks[0]) =~= ks);
    } else if ks.len() > 1 {
        let k0 = ks.drop_last();
        assert forall|i: int| 0 <= i < k0.len() implies is_trimmed(#[trigger] k0[i]) && k0[i].len() > 0
            && marker_label_of(k0[i]) is None by {
            assert(k0[i] == ks[i]);
        }
        lemma_scan_spaced(k0);
        assert(is_trimmed(ks[ks.len() - 1]));
        assert(marker_label_of(ks[ks.len() - 1]) is None);
        lemma_trim_after_space(ks.last());
        let sp = spaced(ks);
        assert(sp.drop_last() == spaced(k0));
        assert(sp.last() == seq![' '] + ks.last());
        assert(extract_scan(sp) == extract_step(extract_scan(spaced(k0)), seq![' '] + ks.last()));
        assert(k0.push(ks.last()) =~= ks);
    }
}

/// Stripping pieces joined with ", ", when no piece is a repeat directive,
/// keeps every piece.
proof fn lemma_plain_spaced(ks: Seq<Seq<char>>)
    requires
        forall|i: int| 0 <= i < ks.len() ==> is_trimmed(#[trigger] ks[i]) && ks[i].len() > 0
            && !is_repeat_segment(ks[i]),
    ensures
        ks.len() > 0 ==> plain_segments(spaced(ks)) == ks,
    decreases ks.len(),
{
    if ks.len() == 1 {
        assert(spaced(ks) == seq![ks[0]]);
        assert(seq![ks[0]].drop_last() =~= Seq::<Seq<char>>::empty());
        lemma_trimmed_trim(ks[0]);
        assert(plain_segments(seq![ks[0]]) == plain_segments(Seq::<Seq<char>>::empty()).push(ks[0]));
        assert(Seq::<Seq<char>>::empty().push(ks[0]) =~= ks);
    } else if ks.len() > 1 {
        let k0 = ks.drop_last();
        assert forall|i: int| 0 <= i < k0.len() implies is_trimmed(#[trigger] k0[i]) && k0[i].len() > 0
            && !is_repeat_segment(k0[i]) by {
            assert(k0[i] == ks[i]);
        }
        lemma_plain_spaced(k0);
        assert(is_trimmed(ks[ks.len() - 1]));
        assert(!is_repeat_segment(ks[ks.len() - 1]));
        lemma_trim_after_space(ks.last());
        let sp = spaced(ks);
        assert(sp.drop_last() == spaced(k0));
        assert(sp.last() == seq![' '] + ks.last());
        assert(plain_segments(sp) == plain_segments(spaced(k0)).push(ks.last()));
        assert(k0.push(ks.last()) =~= ks);
    }
}

/// Pieces joined with ", " start with the first piece, and the separator
/// follows it when there is more than one.
proof fn lemma_join_head(ks: Seq<Seq<char>>)
    requires
        ks.len() >= 1,
    ensures
        ks[0].len() <= join(ks, comma_space()).len(),
        forall|i: int| 0 <= i < ks[0].len() ==> #[trigger] join(ks, comma_space())[i] == ks[0][i],
        ks.len() >= 2 ==> ks[0].len() < join(ks, comma_space()).len() && join(ks, comma_space())[ks[0].len() as int] == ',',
    decreases ks.len(),
{
    if ks.len() >= 2 {
        let k0 = ks.drop_last();
        lemma_join_head(k0);
        assert(k0[0] == ks[0]);
        let x = join(k0, comma_space());
        assert(join(ks, comma_space()) == x + comma_space() + ks.last());
        if ks.len() == 2 {
            assert(x == ks[0]);
        }
    }
}

/// A line whose first piece is no marker is no marker either, once more
/// pieces are joined to it with ", ".
proof fn lemma_join_not_marker(ks: Seq<Seq<char>>)
    requires
        ks.len() >= 1,
        forall|i: int| 0 <= i < ks.len() ==> is_trimmed(#[trigger] ks[i]) && ks[i].len() > 0,
        marker_label_of(ks[0]) is None,
    ensures
        marker_label_of(join(ks, comma_space())) is None,
{
    let j = join(ks, comma_space());
    let a = ks[0];
    let n = a.len() as int;
    lemma_join_trimmed(ks);
    lemma_trimmed_trim(j);
    lemma_trimmed_trim(a);
    lemma_join_head(ks);
    if ks.len() >= 2 {
        assert(j[n] == ',');
        let mw = marker_word();
        assert(!eq_ignore_ascii_case(j, mw)) by {
            if j.len() == mw.len() {
                assert(ascii_lower(j[n]) == ',');
                assert(ascii_lower(mw[n]) != ',');
            }
        }
        let p1 = mw.push(':');
        let p2 = mw.push(' ');
        assert(lower(j)[n] == ',');
        assert forall|i: int| 0 <= i < n implies #[trigger] lower(j)[i] == lower(a)[i] by {
            assert(j[i] == a[i]);
        }
        if n >= 7 {
            assert(lower(a).subrange(0, 7) =~= lower(j).subrange(0, 7));
        } else {
            assert(!p1.is_prefix_of(lower(j))) by {
                if p1.is_prefix_of(lower(j)) {
                    assert(lower(j).subrange(0, 7)[n] == lower(j)[n]);
                }
            }
            assert(!p2.is_prefix_of(lower(j))) by {
                if p2.is_prefix_of(lower(j)) {
                    assert(lower(j).subrange(0, 7)[n] == lower(j)[n]);
                }
            }
        }
    } else {
        assert(j == a);
    }
}

/// A stored turn line (a line with its repeat directives stripped) that
/// holds no marker directive reads back as itself: not blank, no marker,
/// nothing to extract, nothing more to strip, and the same counts billed
/// once.
pub proof fn lemma_stored_line_stable(line: Seq<char>)
    requires
        parse_result(line) is Some,
        forall|i: int| 0 <= i < plain_segments(segments(line)).len() ==> marker_label_of(
            #[trigger] plain_segments(segments(line))[i],
        ) is None,
    ensures
        ({
            let s = strip_repeat_of(line);
            &&& s.len() > 0
            &&& trim(s) == s
            &&& marker_label_of(s) is None
            &&& extract_inline_marker_of(s) == (s, Option::<Seq<char>>::None)
            &&& strip_repeat_of(s) == s
            &&& parse_result(s) == Some(ParsedTurn { repeat: 1, ..parse_result(line)->0 })
        }),
{
    let ks = plain_segments(segments(line));
    let s = strip_repeat_of(line);
    strip_repeat_keeps_counts(line);
    lemma_plain_shape(segments(line));
    lemma_segments_no_sep(line);
    lemma_plain_no_sep(segments(line));
    lemma_segments_join(ks);
    if ks.len() == 0 {
        assert(s == Seq::<char>::empty());
        lemma_spaced_tally(ks);
        assert(!line_tally(s).found) by {
            assert(spaced(ks) == seq![Seq::<char>::empty()]);
        }
        assert(false);
    }
    lemma_join_trimmed(ks);
    lemma_trimmed_trim(s);
    assert(marker_label_of(ks[0]) is None);
    lemma_join_not_marker(ks);
    lemma_scan_spaced(ks);
    lemma_plain_spaced(ks);
}

/// Stripping the repeat directives of a line a second time changes nothing:
/// a stored turn line is its own stored form.
pub proof fn strip_repeat_idempotent(raw: Seq<char>)
    ensures
        strip_repeat_of(strip_repeat_of(raw)) == strip_repeat_of(raw),
{
    let ks = plain_segments(segments(raw));
    let s = strip_repeat_of(raw);
    lemma_plain_shape(segments(raw));
    lemma_segments_no_sep(raw);
    lemma_plain_no_sep(segments(raw));
    lemma_segments_join(ks);
    if ks.len() == 0 {
        assert(s == Seq::<char>::empty());
        assert(spaced(ks) == seq![Seq::<char>::empty()]);
        let e = Seq::<char>::empty();
        assert(seq![e].drop_last() =~= Seq::<Seq<char>>::empty());
        lemma_trim_trimmed(e);
        assert(trim(e).len() == 0);
        assert(plain_segments(seq![e]) == plain_segments(Seq::<Seq<char>>::empty()));
        assert(plain_segments(segments(s)) =~= Seq::<Seq<char>>::empty());
    } else {
        lemma_plain_spaced(ks);
    }
}

/// ASCII-case-insensitive equality of two character runs.
pub fn same_ignoring_ascii_case(a: &[char], b: &[char]) -> (r: bool)
    ensures
        r == eq_ignore_ascii_case(a@, b@),
{
    if a.len() != b.len() {
        return false;
    }
    let mut i: usize = 0;
    while i < a.len()
        invariant
            i <= a@.len() == b@.len(),
            forall|k: int| 0 <= k < i ==> ascii_lower(#[trigger] a@[k]) == ascii_lower(b@[k]),
        decreases a@.len() - i,
    {
        let x = a[i];
        let y = b[i];
        let lx = if 'A' <= x && x <= 'Z' {
            ((x as u32 + 32) as u8) as char
        } else {
            x
        };
        let ly = if 'A' <= y && y <= 'Z' {
            ((y as u32 + 32) as u8) as char
        } else {
            y
        };
        if lx != ly {
            return false;
        }
        i += 1;
    }
    true
}

/// The bytes `c` takes in UTF-8.
fn utf8_width(c: char) -> (n: usize)
    ensures
        n == utf8_len(c),
{
    let u = c as u32;
    if u < 0x80 {
        1
    } else if u < 0x800 {
        2
    } else if u < 0x10000 {
        3
    } else {
        4
    }
}

/// The characters after the first `n` bytes of `s`.
fn after_bytes(s: &[char], n: usize) -> (r: Vec<char>)
    ensures
        r@ == skip_bytes(s@, n as int),
{
    let mut i: usize = 0;
    let mut left: usize = n;
    assert(s@.skip(0) == s@);
    while left > 0 && i < s.len()
        invariant
            i <= s@.len(),
            left <= n,
            skip_bytes(s@, n as int) == skip_bytes(s@.skip(i as int), left as int),
        decreases s@.len() - i,
    {
        let w = utf8_width(s[i]);
        assert(s@.skip(i as int).drop_first() == s@.skip(i + 1));
        assert(s@.skip(i as int)[0] == s@[i as int]);
        let ghost rest = s@.skip(i + 1);
        assert(skip_bytes(s@.skip(i as int), left as int) == skip_bytes(rest, left - w));
        if w >= left {
            assert(skip_bytes(rest, left - w) == rest);
            assert(skip_bytes(rest, 0) == rest);
            left = 0;
        } else {
            left = left - w;
        }
        i += 1;
    }
    let mut r: Vec<char> = Vec::new();
    let mut j: usize = i;
    while j < s.len()
        invariant
            i <= j <= s@.len(),
            r@ == s@.subrange(i as int, j as int),
        decreases s@.len() - j,
    {
        r.push(s[j]);
        assert(s@.subrange(i as int, j + 1) == s@.subrange(i as int, j as int).push(s@[j as int]));
        j += 1;
    }
    assert(s@.subrange(i as int, s@.len() as int) == s@.skip(i as int));
    r
}

/// The label of a `marker` command, over characters.
fn marker_label_chars(input: &[char]) -> (r: Option<Vec<char>>)
    ensures
        match r {
            Some(v) => marker_label_of(input@) == Some(v@),
            None => marker_label_of(input@) is None,
        },
{
    let t = trim_chars(input);
    let word: [char; 6] = ['m', 'a', 'r', 'k', 'e', 'r'];
    assert(word@ == marker_word());
    if same_ignoring_ascii_case(&t, &word) {
        return Some(Vec::new());
    }
    let low = lower_chars(&t);
    let colon: [char; 7] = ['m', 'a', 'r', 'k', 'e', 'r', ':'];
    let space: [char; 7] = ['m', 'a', 'r', 'k', 'e', 'r', ' '];
    assert(colon@ == marker_word().push(':'));
    assert(space@ == marker_word().push(' '));
    if has_prefix(&low, &colon) || has_prefix(&low, &space) {
        let rest = after_bytes(&t, 7);
        return Some(trim_chars(&rest));
    }
    None
}

/// If `input` is a `marker` command, return its (possibly empty) label.
/// Accepts `marker`, `marker some text`, and `marker: some text`.
pub fn marker_label(input: &str) -> (r: Option<String>)
    ensures
        match r {
            Some(s) => marker_label_of(input@) == Some(s@),
            None => marker_label_of(input@) is None,
        },
{
    let chars = chars_of(input);
    match marker_label_chars(&chars) {
        Some(v) => Some(string_of(&v)),
        None => None,
    }
}

/// The raw line that persists a marker with the given label.
pub fn marker_raw(label: &str) -> (r: String)
    ensures
        r@ == marker_raw_of(label@),
{
    let l = chars_of(label);
    let mut v: Vec<char> = vec!['m', 'a', 'r', 'k', 'e', 'r'];
    assert(v@ == marker_word());
    if l.len() > 0 {
        v.push(':');
        v.push(' ');
        let ghost head = v@;
        let mut i: usize = 0;
        while i < l.len()
            invariant
                i <= l@.len(),
                v@ == head + l@.take(i as int),
            decreases l@.len() - i,
        {
            v.push(l[i]);
            assert(l@.take(i + 1) == l@.take(i as int).push(l@[i as int]));
            i += 1;
        }
        assert(l@.take(l@.len() as int) == l@);
        assert(head == marker_word() + seq![':', ' ']);
    }
    string_of(&v)
}

/// Pull an inline marker out of a turn line. If any comma/semicolon-separated
/// segment is a `marker` / `marker: text` directive, return the line with that
/// segment removed together with the marker's label; otherwise return the line
/// (rejoined) and `None`. Only the first such segment is treated as a marker.
pub fn extract_inline_marker(line: &str) -> (r: (String, Option<String>))
    ensures
        r.0@ == extract_inline_marker_of(line@).0,
        match r.1 {
            Some(l) => extract_inline_marker_of(line@).1 == Some(l@),
            None => extract_inline_marker_of(line@).1 is None,
        },
{
    let chars = chars_of(line);
    let segs = split_segments(&chars);
    let ghost all = views(segs@);
    let mut kept: Vec<Vec<char>> = Vec::new();
    let mut label: Option<Vec<char>> = None;
    let mut i: usize = 0;
    assert(all.take(0) =~= Seq::<Seq<char>>::empty());
    while i < segs.len()
        invariant
            i <= segs@.len(),
            all == views(segs@),
            all == segments(line@),
            extract_scan(all.take(i as int)).0 == views(kept@),
            extract_scan(all.take(i as int)).1 == match label {
                Some(v) => Some(v@),
                None => None,
            },
        decreases segs@.len() - i,
    {
        let ghost before = all.take(i as int);
        assert(all.take(i + 1).drop_last() == before);
        assert(all.take(i + 1).last() == segs@[i as int]@);
        let seg = trim_chars(&segs[i]);
        if seg.len() > 0 {
            let mut taken = false;
            if label.is_none() {
                if let Some(l) = marker_label_chars(&seg) {
                    label = Some(l);
                    taken = true;
                }
            }
            if !taken {
                let ghost old_kept = views(kept@);
                let ghost s = seg@;
                kept.push(seg);
                assert(views(kept@) =~= old_kept.push(s));
            }
        }
        i += 1;
    }
    assert(all.take(segs@.len() as int) == all);
    let sep: [char; 2] = [',', ' '];
    assert(sep@ == comma_space());
    let joined = join_pieces(&kept, &sep);
    let line_out = string_of(&joined);
    match label {
        Some(l) => (line_out, Some(string_of(&l))),
        None => (line_out, None),
    }
}

/// Remove any `repeat N` / `N times` segments from a turn line, leaving a
/// plain single-turn description. Used so an expanded repeat is stored (and
/// later saved) as individual turns rather than re-multiplying on reload.
pub fn strip_repeat(raw: &str) -> (r: String)
    ensures
        r@ == strip_repeat_of(raw@),
{
    let chars = chars_of(raw);
    let segs = split_segments(&chars);
    let ghost all = views(segs@);
    let mut kept: Vec<Vec<char>> = Vec::new();
    let mut i: usize = 0;
    assert(all.take(0) =~= Seq::<Seq<char>>::empty());
    while i < segs.len()
        invariant
            i <= segs@.len(),
            all == views(segs@),
            all == segments(raw@),
            plain_segments(all.take(i as int)) == views(kept@),
        decreases segs@.len() - i,
    {
        let ghost before = all.take(i as int);
        assert(all.take(i + 1).drop_last() == before);
        assert(all.take(i + 1).last() == segs@[i as int]@);
        let seg = trim_chars(&segs[i]);
        if seg.len() > 0 && !is_repeat(&seg) {
            let ghost old_kept = views(kept@);
            let ghost s = seg@;
            kept.push(seg);
            assert(views(kept@) =~= old_kept.push(s));
        }
        i += 1;
    }
    assert(all.take(segs@.len() as int) == all);
    let sep: [char; 2] = [',', ' '];
    assert(sep@ == comma_space());
    let joined = join_pieces(&kept, &sep);
    string_of(&joined)
}

} // verus!
