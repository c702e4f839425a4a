//! Parsing a free-form turn description into token counts.
//!
//! Examples it understands:
//!   "300 tokens prompt, 12000 tokens tool inputs, 4000 tokens response"
//!   "300 prompt, 12k tool input, 4k response"
//!   "input 500, output 2000, cached 10000"

use vstd::prelude::*;
use crate::number::{number_value, parse_number};
use crate::text::{
    is_ws, lemma_segments_concat, lemma_segments_nonempty, all_ws, contains, has_sub, is_ascii_digit, is_digit, lemma_contains_padded, lemma_trim_split,
    lemma_words_ws_prefix, lemma_words_ws_suffix, lower, lower_chars, no_ws, segments,
    split_segments, split_words, trim, views, words,
};

verus! {

/// Token counts extracted from a turn description.
#[derive(Debug, Clone, PartialEq, Eq)]
pub struct ParsedTurn {
    /// Fresh (non-cached) input tokens this turn: prompts + tool inputs.
    pub input: u64,
    /// Output / response tokens this turn.
    pub output: u64,
    /// Thinking / reasoning tokens this turn. Billed at the output rate, but
    /// they don't carry into the next turn's context (unlike `output`).
    pub thinking: u64,
    /// Explicit cached-token override. When `None`, the conversation's
    /// carried-over cache is used instead.
    pub cached_override: Option<u64>,
    /// How many times to apply this turn (from a `repeat N` segment).
    pub repeat: u64,
}

/// What the number in a segment of a turn line counts toward.
#[derive(Debug, Clone, Copy, PartialEq, Eq)]
pub enum Kind {
    Input,
    Output,
    Thinking,
    Cached,
}

/// The classification of a segment by the keywords its lowercase holds:
/// anything with "cach" is cached; "think"/"reason" is thinking;
/// "out"/"response"/"completion"/"answer" is output; everything else
/// (prompt, input, tools, instructions, ...) is input.
pub open spec fn kind_of(segment: Seq<char>) -> Kind {
    let s = lower(segment);
    if contains(s, seq!['c', 'a', 'c', 'h']) {
        Kind::Cached
    } else if contains(s, seq!['t', 'h', 'i', 'n', 'k']) || contains(
        s,
        seq!['r', 'e', 'a', 's', 'o', 'n'],
    ) {
        Kind::Thinking
    } else if contains(s, seq!['o', 'u', 't']) || contains(
        s,
        seq!['r', 'e', 's', 'p', 'o', 'n', 's', 'e'],
    ) || contains(s, seq!['c', 'o', 'm', 'p', 'l', 'e', 't', 'i', 'o', 'n']) || contains(
        s,
        seq!['a', 'n', 's', 'w', 'e', 'r'],
    ) {
        Kind::Output
    } else {
        Kind::Input
    }
}

/// The count of the first of `ws` that starts with a digit and reads as a
/// number.
pub open spec fn first_number_of(ws: Seq<Seq<char>>) -> Option<u64>
    decreases ws.len(),
{
    if ws.len() == 0 {
        None
    } else if ws[0].len() > 0 && is_digit(ws[0][0]) && number_value(ws[0]) is Some {
        number_value(ws[0])
    } else {
        first_number_of(ws.drop_first())
    }
}

/// The first number-like word of a segment, read as a count.
pub open spec fn segment_number(segment: Seq<char>) -> Option<u64> {
    first_number_of(words(segment))
}

/// Whether a segment sets the repeat count ("repeat N" / "N times") rather
/// than contributing tokens.
pub open spec fn is_repeat_segment(segment: Seq<char>) -> bool {
    let s = lower(segment);
    contains(s, seq!['r', 'e', 'p', 'e', 'a', 't']) || contains(s, seq!['t', 'i', 'm', 'e', 's'])
}

/// Running totals over the segments of a turn line, in unbounded integers.
pub struct Tally {
    pub input: nat,
    pub output: nat,
    pub thinking: nat,
    pub cached: Option<nat>,
    pub repeat: nat,
    pub found: bool,
}

/// The totals before any segment.
pub open spec fn empty_tally() -> Tally {
    Tally { input: 0, output: 0, thinking: 0, cached: None, repeat: 1, found: false }
}

/// The totals after one more segment: a repeat segment with a number sets
/// the repeat count (at least one); any other segment with a number adds
/// it to the total its keywords name; a segment without a number is skipped.
pub open spec fn tally_step(t: Tally, segment: Seq<char>) -> Tally {
    if is_repeat_segment(segment) {
        match segment_number(segment) {
            Some(n) => Tally {
                repeat: if n >= 1 {
                    n as nat
                } else {
                    1
                },
                ..t
            },
            None => t,
        }
    } else {
        match segment_number(segment) {
            None => t,
            Some(n) => match kind_of(segment) {
                Kind::Input => Tally { input: t.input + n as nat, found: true, ..t },
                Kind::Output => Tally { output: t.output + n as nat, found: true, ..t },
                Kind::Thinking => Tally { thinking: t.thinking + n as nat, found: true, ..t },
                Kind::Cached => Tally {
                    cached: Some(
                        match t.cached {
                            Some(c) => c + n as nat,
                            None => n as nat,
                        },
                    ),
                    found: true,
                    ..t
                },
            },
        }
    }
}

/// The totals over a list of segments, left to right.
pub open spec fn tally(segs: Seq<Seq<char>>) -> Tally
    decreases segs.len(),
{
    if segs.len() == 0 {
        empty_tally()
    } else {
        tally_step(tally(segs.drop_last()), segs.last())
    }
}

/// The totals over the `,`/`;` segments of a turn line.
pub open spec fn line_tally(line: Seq<char>) -> Tally {
    tally(segments(line))
}

/// Whether every total of a turn line fits in a `u64`: the sums are added
/// in `u64`, which would overflow otherwise.
pub open spec fn parse_in_range(line: Seq<char>) -> bool {
    let t = line_tally(line);
    &&& t.input <= u64::MAX
    &&& t.output <= u64::MAX
    &&& t.thinking <= u64::MAX
    &&& t.cached matches Some(c) ==> c <= u64::MAX
}

/// What a turn line parses to: its totals, or `None` when no segment other
/// than a repeat segment held a number.
pub open spec fn parse_result(line: Seq<char>) -> Option<ParsedTurn> {
    let t = line_tally(line);
    if t.found {
        Some(
            ParsedTurn {
                input: t.input as u64,
                output: t.output as u64,
                thinking: t.thinking as u64,
                cached_override: match t.cached {
                    Some(c) => Some(c as u64),
                    None => None,
                },
                repeat: t.repeat as u64,
            },
        )
    } else {
        None
    }
}


/// A cached total, zero when there is none.
pub open spec fn cached_or_zero(c: Option<nat>) -> nat {
    match c {
        Some(n) => n,
        None => 0,
    }
}

/// The totals of two runs of segments put together, the first run's
/// repeat count kept: counts add, a cached total is there when either run
/// has one.
pub open spec fn tally_sum(t: Tally, u: Tally) -> Tally {
    Tally {
        input: t.input + u.input,
        output: t.output + u.output,
        thinking: t.thinking + u.thinking,
        cached: if t.cached is None && u.cached is None {
            None
        } else {
            Some(cached_or_zero(t.cached) + cached_or_zero(u.cached))
        },
        repeat: t.repeat,
        found: t.found || u.found,
    }
}

/// The totals of `segs` counted on from `t`.
pub open spec fn tally_from(t: Tally, segs: Seq<Seq<char>>) -> Tally
    decreases segs.len(),
{
    if segs.len() == 0 {
        t
    } else {
        tally_step(tally_from(t, segs.drop_last()), segs.last())
    }
}

/// Whether no segment of `segs` is a repeat directive.
pub open spec fn no_repeat(segs: Seq<Seq<char>>) -> bool {
    forall|i: int| 0 <= i < segs.len() ==> !is_repeat_segment(#[trigger] segs[i])
}

/// Two turn lines' counts added (see [`tally_sum`]), billed once.
pub open spec fn joined_turn(p: ParsedTurn, q: ParsedTurn) -> ParsedTurn {
    ParsedTurn {
        input: (p.input + q.input) as u64,
        output: (p.output + q.output) as u64,
        thinking: (p.thinking + q.thinking) as u64,
        cached_override: if p.cached_override is None && q.cached_override is None {
            None
        } else {
            Some(
                (match p.cached_override {
                    Some(c) => c as int,
                    None => 0,
                } + match q.cached_override {
                    Some(c) => c as int,
                    None => 0,
                }) as u64,
            )
        },
        repeat: 1,
    }
}

/// Counting the segments of two runs is counting the second on from the
/// first.
proof fn lemma_tally_concat(s1: Seq<Seq<char>>, s2: Seq<Seq<char>>)
    ensures
        tally(s1 + s2) == tally_from(tally(s1), s2),
    decreases s2.len(),
{
    if s2.len() == 0 {
        assert(s1 + s2 =~= s1);
    } else {
        lemma_tally_concat(s1, s2.drop_last());
        assert((s1 + s2).drop_last() =~= s1 + s2.drop_last());
        assert((s1 + s2).last() == s2.last());
    }
}

/// A segment that sets no repeat count adds to a sum as to its second part.
proof fn lemma_step_sum(t: Tally, u: Tally, seg: Seq<char>)
    requires
        !is_repeat_segment(seg),
    ensures
        tally_step(tally_sum(t, u), seg) == tally_sum(t, tally_step(u, seg)),
{
}

/// Counting segments without repeat directives on from `t` adds their
/// totals to `t`, and alone they keep the repeat count at one.
proof fn lemma_tally_from_sum(t: Tally, segs: Seq<Seq<char>>)
    requires
        no_repeat(segs),
    ensures
        tally_from(t, segs) == tally_sum(t, tally(segs)),
        tally(segs).repeat == 1,
    decreases segs.len(),
{
    if segs.len() == 0 {
        assert(tally_sum(t, empty_tally()) == t);
    } else {
        let dl = segs.drop_last();
        assert(no_repeat(dl)) by {
            assert forall|i: int| 0 <= i < dl.len() implies !is_repeat_segment(#[trigger] dl[i]) by {
                assert(dl[i] == segs[i]);
            }
        }
        lemma_tally_from_sum(t, dl);
        assert(!is_repeat_segment(segs[segs.len() - 1]));
        lemma_step_sum(t, tally(dl), segs.last());
    }
}

/// The segments of `a`, then `b` after ", ": those of `a`, the first of `b`
/// after a space, and the rest of `b`.
proof fn lemma_joined_segments(a: Seq<char>, b: Seq<char>)
    ensures
        segments(a + seq![',', ' '] + b) == segments(a) + (seq![seq![' '] + segments(b)[0]]
            + segments(b).drop_first()),
{
    let p = a.push(',');
    let q = seq![' '] + b;
    assert(a + seq![',', ' '] + b =~= p + q);
    assert(p.drop_last() =~= a);
    assert(segments(p) == segments(a).push(Seq::<char>::empty()));
    lemma_segments_nonempty(a);
    let sp = seq![' '];
    assert(sp.drop_last() =~= Seq::<char>::empty());
    assert(segments(sp) =~= seq![sp]) by {
        assert(segments(Seq::<char>::empty()) == seq![Seq::<char>::empty()]);
        assert(Seq::<char>::empty().push(' ') =~= sp);
    }
    lemma_segments_concat(sp, b);
    lemma_segments_concat(p, q);
    lemma_segments_nonempty(b);
    assert(seq![sp].drop_last() =~= Seq::<Seq<char>>::empty());
    assert(segments(q) =~= seq![sp + segments(b)[0]] + segments(b).drop_first());
    assert(segments(p).drop_last() =~= segments(a));
    assert(Seq::<char>::empty() + (sp + segments(b)[0]) =~= sp + segments(b)[0]);
    assert(segments(q).drop_first() =~= segments(b).drop_first());
}

/// The totals of a line joined after `a` with ", " are `a`'s and `b`'s
/// added, when neither has a repeat directive.
proof fn lemma_joined_tally(a: Seq<char>, b: Seq<char>)
    requires
        no_repeat(segments(a)),
        no_repeat(segments(b)),
    ensures
        line_tally(a + seq![',', ' '] + b) == tally_sum(line_tally(a), line_tally(b)),
        line_tally(a).repeat == 1,
        line_tally(b).repeat == 1,
{
    let sa = segments(a);
    let sb = segments(b);
    lemma_segments_nonempty(b);
    lemma_joined_segments(a, b);
    let b0 = sb[0];
    let rest = sb.drop_first();
    let sp = seq![' '];
    let e = Seq::<char>::empty();
    assert(all_ws(sp)) by {
        assert(is_ws(sp[0]));
    }
    assert(all_ws(e));
    assert(sp + b0 + e =~= sp + b0);
    lemma_step_padded(empty_tally(), sp, b0, e);
    let t = seq![sp + b0] + rest;
    assert(!is_repeat_segment(sb[0]));
    assert(no_repeat(rest)) by {
        assert forall|i: int| 0 <= i < rest.len() implies !is_repeat_segment(#[trigger] rest[i]) by {
            assert(rest[i] == sb[i + 1]);
        }
    }
    assert(no_repeat(t)) by {
        assert forall|i: int| 0 <= i < t.len() implies !is_repeat_segment(#[trigger] t[i]) by {
            if i > 0 {
                assert(t[i] == rest[i - 1]);
            }
        }
    }
    lemma_tally_concat(sa, t);
    lemma_tally_from_sum(line_tally(a), t);
    lemma_tally_from_sum(empty_tally(), sa);
    lemma_tally_from_sum(empty_tally(), sb);
    lemma_tally_concat(seq![sp + b0], rest);
    lemma_tally_concat(seq![b0], rest);
    assert(seq![b0] + rest =~= sb);
    assert(seq![sp + b0].drop_last() =~= Seq::<Seq<char>>::empty());
    assert(seq![b0].drop_last() =~= Seq::<Seq<char>>::empty());
    let x = sp + b0;
    assert(seq![x].last() == x);
    assert(tally(Seq::<Seq<char>>::empty()) == empty_tally());
    assert(tally(seq![x]) == tally_step(tally(seq![x].drop_last()), seq![x].last()));
    assert(tally(seq![sp + b0]) == tally_step(empty_tally(), sp + b0));
    assert(tally(seq![b0]) == tally_step(empty_tally(), b0));
    assert(tally(t) == tally(sb));
}

/// Two turn lines without repeat directives, joined with ", " either way
/// round, bill once what the two bill together: the input, output and
/// thinking counts add, and so do the cached counts when either line has
/// one. This holds whenever the sums fit in a `u64`.
pub proof fn parse_joined_adds(a: Seq<char>, b: Seq<char>)
    requires
        no_repeat(segments(a)),
        no_repeat(segments(b)),
        parse_in_range(a),
        parse_in_range(b),
        parse_result(a) is Some,
        parse_result(b) is Some,
        parse_result(a)->0.input + parse_result(b)->0.input <= u64::MAX,
        parse_result(a)->0.output + parse_result(b)->0.output <= u64::MAX,
        parse_result(a)->0.thinking + parse_result(b)->0.thinking <= u64::MAX,
        cached_or_zero(line_tally(a).cached) + cached_or_zero(line_tally(b).cached) <= u64::MAX,
    ensures
        parse_result(a + seq![',', ' '] + b) == Some(joined_turn(parse_result(a)->0, parse_result(b)->0)),
        parse_result(b + seq![',', ' '] + a) == Some(joined_turn(parse_result(a)->0, parse_result(b)->0)),
{
    lemma_joined_tally(a, b);
    lemma_joined_tally(b, a);
    let ta = line_tally(a);
    let tb = line_tally(b);
    assert(tally_sum(tb, ta) == tally_sum(ta, tb));
}


/// How a segment is classified, by the keywords its lowercase holds:
/// anything holding "cach" is a cached count; otherwise "think" or
/// "reason" make it thinking; otherwise "out", "response", "completion" or
/// "answer" make it output; a segment with none of these is input.
pub proof fn segment_kinds(segment: Seq<char>)
    ensures
        contains(lower(segment), seq!['c', 'a', 'c', 'h']) ==> kind_of(segment) == Kind::Cached,
        !contains(lower(segment), seq!['c', 'a', 'c', 'h']) && (contains(
            lower(segment),
            seq!['t', 'h', 'i', 'n', 'k'],
        ) || contains(lower(segment), seq!['r', 'e', 'a', 's', 'o', 'n'])) ==> kind_of(segment)
            == Kind::Thinking,
        !contains(lower(segment), seq!['c', 'a', 'c', 'h']) && !contains(
            lower(segment),
            seq!['t', 'h', 'i', 'n', 'k'],
        ) && !contains(lower(segment), seq!['r', 'e', 'a', 's', 'o', 'n']) && (contains(
            lower(segment),
            seq!['o', 'u', 't'],
        ) || contains(lower(segment), seq!['r', 'e', 's', 'p', 'o', 'n', 's', 'e']) || contains(
            lower(segment),
            seq!['c', 'o', 'm', 'p', 'l', 'e', 't', 'i', 'o', 'n'],
        ) || contains(lower(segment), seq!['a', 'n', 's', 'w', 'e', 'r'])) ==> kind_of(segment)
            == Kind::Output,
        !contains(lower(segment), seq!['c', 'a', 'c', 'h']) && !contains(
            lower(segment),
            seq!['t', 'h', 'i', 'n', 'k'],
        ) && !contains(lower(segment), seq!['r', 'e', 'a', 's', 'o', 'n']) && !contains(
            lower(segment),
            seq!['o', 'u', 't'],
        ) && !contains(lower(segment), seq!['r', 'e', 's', 'p', 'o', 'n', 's', 'e']) && !contains(
            lower(segment),
            seq!['c', 'o', 'm', 'p', 'l', 'e', 't', 'i', 'o', 'n'],
        ) && !contains(lower(segment), seq!['a', 'n', 's', 'w', 'e', 'r']) ==> kind_of(segment)
            == Kind::Input,
{
}

/// A segment that is no repeat directive and holds a count adds that count
/// to the total its kind names, and to no other: input, output, thinking
/// or the cached count; the repeat count is left alone.
pub proof fn segment_counts_where_its_kind_says(t: Tally, segment: Seq<char>)
    requires
        !is_repeat_segment(segment),
        segment_number(segment) is Some,
    ensures
        ({
            let n = segment_number(segment)->0 as nat;
            let u = tally_step(t, segment);
            &&& u.found
            &&& u.repeat == t.repeat
            &&& u.input == t.input + if kind_of(segment) == Kind::Input { n } else { 0 }
            &&& u.output == t.output + if kind_of(segment) == Kind::Output { n } else { 0 }
            &&& u.thinking == t.thinking + if kind_of(segment) == Kind::Thinking { n } else { 0 }
            &&& u.cached == if kind_of(segment) == Kind::Cached {
                Some(cached_or_zero(t.cached) + n)
            } else {
                t.cached
            }
        }),
{
}

/// A keyword matches the same way in a text and in that text padded with
/// white space.
proof fn lemma_keyword_padded(a: Seq<char>, m: Seq<char>, c: Seq<char>, kw: Seq<char>)
    requires
        all_ws(a),
        all_ws(c),
        kw.len() > 0,
        forall|i: int| 0 <= i < kw.len() ==> 'a' <= #[trigger] kw[i] <= 'z',
    ensures
        contains(lower(a + m + c), kw) == contains(lower(m), kw),
{
    assert(no_ws(kw)) by {
        assert forall|i: int| 0 <= i < kw.len() implies !crate::text::is_ws(#[trigger] kw[i]) by {
            assert('a' <= kw[i] <= 'z');
        }
    }
    lemma_contains_padded(a, m, c, kw);
}

/// A segment padded with white space counts exactly as the segment does.
pub proof fn lemma_step_padded(t: Tally, a: Seq<char>, m: Seq<char>, c: Seq<char>)
    requires
        all_ws(a),
        all_ws(c),
    ensures
        tally_step(t, a + m + c) == tally_step(t, m),
        is_repeat_segment(a + m + c) == is_repeat_segment(m),
        segment_number(a + m + c) == segment_number(m),
{
    let s = a + m + c;
    lemma_words_ws_prefix(a, m + c);
    lemma_words_ws_suffix(m, c);
    assert(a + m + c =~= a + (m + c));
    assert(words(s) == words(m));
    lemma_keyword_padded(a, m, c, seq!['c', 'a', 'c', 'h']);
    lemma_keyword_padded(a, m, c, seq!['t', 'h', 'i', 'n', 'k']);
    lemma_keyword_padded(a, m, c, seq!['r', 'e', 'a', 's', 'o', 'n']);
    lemma_keyword_padded(a, m, c, seq!['o', 'u', 't']);
    lemma_keyword_padded(a, m, c, seq!['r', 'e', 's', 'p', 'o', 'n', 's', 'e']);
    lemma_keyword_padded(a, m, c, seq!['c', 'o', 'm', 'p', 'l', 'e', 't', 'i', 'o', 'n']);
    lemma_keyword_padded(a, m, c, seq!['a', 'n', 's', 'w', 'e', 'r']);
    lemma_keyword_padded(a, m, c, seq!['r', 'e', 'p', 'e', 'a', 't']);
    lemma_keyword_padded(a, m, c, seq!['t', 'i', 'm', 'e', 's']);
    assert(kind_of(s) == kind_of(m));
    assert(is_repeat_segment(s) == is_repeat_segment(m));
}

/// A segment counts exactly as its trim does.
pub proof fn lemma_step_trim(t: Tally, s: Seq<char>)
    ensures
        tally_step(t, trim(s)) == tally_step(t, s),
        is_repeat_segment(trim(s)) == is_repeat_segment(s),
        segment_number(trim(s)) == segment_number(s),
{
    lemma_trim_split(s);
    let (a, c) = choose|a: Seq<char>, c: Seq<char>|
        all_ws(a) && all_ws(c) && s == a + trim(s) + c;
    lemma_step_padded(t, a, trim(s), c);
}

/// The repeat count of any tally is at least one.
proof fn lemma_tally_repeat(segs: Seq<Seq<char>>)
    ensures
        1 <= tally(segs).repeat <= u64::MAX,
    decreases segs.len(),
{
    if segs.len() > 0 {
        lemma_tally_repeat(segs.drop_last());
    }
}

/// A parsed turn is always billed at least once: the repeat count is one
/// unless a "repeat N" / "N times" segment sets it, and a count of zero is
/// raised to one.
pub proof fn parsed_repeat_at_least_one(line: Seq<char>)
    ensures
        parse_result(line) matches Some(p) ==> p.repeat >= 1,
{
    lemma_tally_repeat(segments(line));
}

/// A line with no token counts parses to nothing: when no segment of the
/// line has a word that starts with a digit and reads as a number, there
/// is no turn.
pub proof fn no_numbers_no_turn(line: Seq<char>)
    requires
        forall|i: int| 0 <= i < segments(line).len() ==> #[trigger] segment_number(segments(line)[i]) is None,
    ensures
        parse_result(line) is None,
{
    lemma_no_number_found(segments(line));
}

/// Segments without numbers leave nothing found.
proof fn lemma_no_number_found(segs: Seq<Seq<char>>)
    requires
        forall|i: int| 0 <= i < segs.len() ==> #[trigger] segment_number(segs[i]) is None,
    ensures
        !tally(segs).found,
    decreases segs.len(),
{
    if segs.len() > 0 {
        let p = segs.drop_last();
        assert forall|i: int| 0 <= i < p.len() implies #[trigger] segment_number(p[i]) is None by {
            assert(p[i] == segs[i]);
        }
        lemma_no_number_found(p);
        assert(segment_number(segs[segs.len() - 1]) is None);
    }
}

/// One more segment never lowers a total.
proof fn lemma_step_grows(t: Tally, segment: Seq<char>)
    ensures
        tally_step(t, segment).input >= t.input,
        tally_step(t, segment).output >= t.output,
        tally_step(t, segment).thinking >= t.thinking,
        t.cached matches Some(c) ==> tally_step(t, segment).cached matches Some(d) && d >= c,
{
}

/// The totals over a prefix of the segments are at most the totals over all
/// of them.
proof fn lemma_tally_prefix(segs: Seq<Seq<char>>, i: int)
    requires
        0 <= i <= segs.len(),
    ensures
        tally(segs.take(i)).input <= tally(segs).input,
        tally(segs.take(i)).output <= tally(segs).output,
        tally(segs.take(i)).thinking <= tally(segs).thinking,
        tally(segs.take(i)).cached matches Some(c) ==> tally(segs).cached matches Some(d) && c
            <= d,
    decreases segs.len(),
{
    if i == segs.len() {
        assert(segs.take(i) == segs);
    } else {
        let p = segs.drop_last();
        assert(p.take(i) == segs.take(i));
        lemma_tally_prefix(p, i);
        lemma_step_grows(tally(p), segs.last());
    }
}

/// Classifies a segment by its keywords (see [`kind_of`]).
pub fn classify(segment: &[char]) -> (k: Kind)
    ensures
        k == kind_of(segment@),
{
    let s = lower_chars(segment);
    let cach: [char; 4] = ['c', 'a', 'c', 'h'];
    let think: [char; 5] = ['t', 'h', 'i', 'n', 'k'];
    let reason: [char; 6] = ['r', 'e', 'a', 's', 'o', 'n'];
    let out: [char; 3] = ['o', 'u', 't'];
    let response: [char; 8] = ['r', 'e', 's', 'p', 'o', 'n', 's', 'e'];
    let completion: [char; 10] = ['c', 'o', 'm', 'p', 'l', 'e', 't', 'i', 'o', 'n'];
    let answer: [char; 6] = ['a', 'n', 's', 'w', 'e', 'r'];
    assert(cach@ == seq!['c', 'a', 'c', 'h']);
    assert(think@ == seq!['t', 'h', 'i', 'n', 'k']);
    assert(reason@ == seq!['r', 'e', 'a', 's', 'o', 'n']);
    assert(out@ == seq!['o', 'u', 't']);
    assert(response@ == seq!['r', 'e', 's', 'p', 'o', 'n', 's', 'e']);
    assert(completion@ == seq!['c', 'o', 'm', 'p', 'l', 'e', 't', 'i', 'o', 'n']);
    assert(answer@ == seq!['a', 'n', 's', 'w', 'e', 'r']);
    if has_sub(&s, &cach) {
        Kind::Cached
    } else if has_sub(&s, &think) || has_sub(&s, &reason) {
        Kind::Thinking
    } else if has_sub(&s, &out) || has_sub(&s, &response) || has_sub(&s, &completion) || has_sub(
        &s,
        &answer,
    ) {
        Kind::Output
    } else {
        Kind::Input
    }
}

/// Whether a segment is a repeat directive (see [`is_repeat_segment`]).
pub fn is_repeat(segment: &[char]) -> (b: bool)
    ensures
        b == is_repeat_segment(segment@),
{
    let s = lower_chars(segment);
    let repeat: [char; 6] = ['r', 'e', 'p', 'e', 'a', 't'];
    let times: [char; 5] = ['t', 'i', 'm', 'e', 's'];
    assert(repeat@ == seq!['r', 'e', 'p', 'e', 'a', 't']);
    assert(times@ == seq!['t', 'i', 'm', 'e', 's']);
    has_sub(&s, &repeat) || has_sub(&s, &times)
}

/// The first number-like word inside a segment (see [`segment_number`]).
pub fn first_number(segment: &[char]) -> (r: Option<u64>)
    ensures
        r == segment_number(segment@),
{
    let ws = split_words(segment);
    let ghost all = views(ws@);
    let mut i: usize = 0;
    assert(all.skip(0) == all);
    while i < ws.len()
        invariant
            i <= ws@.len(),
            all == views(ws@),
            all == words(segment@),
            first_number_of(all) == first_number_of(all.skip(i as int)),
        decreases ws@.len() - i,
    {
        let word = &ws[i];
        let ghost rest = all.skip(i as int);
        assert(rest[0] == word@);
        assert(rest.drop_first() == all.skip(i + 1));
        if word.len() > 0 && is_ascii_digit(word[0]) {
            let n = parse_number(word);
            if n.is_some() {
                return n;
            }
        }
        i += 1;
    }
    None
}

/// A turn line whose token totals do not fit in a `u64`.
#[derive(Debug, Clone, Copy, PartialEq, Eq)]
pub struct OutOfRange;

/// Parses a turn line like [`parse`], but reports totals that would
/// overflow a `u64` as an error instead of requiring that they do not.
pub fn parse_checked(line: &str) -> (r: Result<Option<ParsedTurn>, OutOfRange>)
    ensures
        r is Ok <==> parse_in_range(line@),
        r matches Ok(p) ==> p == parse_result(line@),
{
    let chars = crate::text::chars_of(line);
    let segs = split_segments(&chars);
    let ghost all = views(segs@);
    let mut out = ParsedTurn { input: 0, output: 0, thinking: 0, cached_override: None, repeat: 1 };
    let mut found = false;
    let mut i: usize = 0;
    assert(all.take(0) =~= Seq::<Seq<char>>::empty());
    while i < segs.len()
        invariant
            i <= segs@.len(),
            all == views(segs@),
            all == segments(line@),
            tally(all.take(i as int)) == (Tally {
                input: out.input as nat,
                output: out.output as nat,
                thinking: out.thinking as nat,
                cached: match out.cached_override {
                    Some(c) => Some(c as nat),
                    None => None,
                },
                repeat: out.repeat as nat,
                found,
            }),
        decreases segs@.len() - i,
    {
        let segment = &segs[i];
        let ghost before = all.take(i as int);
        assert(all.take(i + 1).drop_last() == before);
        assert(all.take(i + 1).last() == segment@);
        proof {
            lemma_tally_prefix(all, i + 1);
        }
        if is_repeat(segment) {
            if let Some(n) = first_number(segment) {
                out.repeat = if n >= 1 {
                    n
                } else {
                    1
                };
            }
        } else {
            match first_number(segment) {
                None => {},
                Some(n) => {
                    found = true;
                    match classify(segment) {
                        Kind::Input => match out.input.checked_add(n) {
                            Some(v) => out.input = v,
                            None => {
                                return Err(OutOfRange);
                            },
                        },
                        Kind::Output => match out.output.checked_add(n) {
                            Some(v) => out.output = v,
                            None => {
                                return Err(OutOfRange);
                            },
                        },
                        Kind::Thinking => match out.thinking.checked_add(n) {
                            Some(v) => out.thinking = v,
                            None => {
                                return Err(OutOfRange);
                            },
                        },
                        Kind::Cached => {
                            let c = match out.cached_override {
                                Some(c) => c,
                                None => 0,
                            };
                            match c.checked_add(n) {
                                Some(v) => out.cached_override = Some(v),
                                None => {
                                    return Err(OutOfRange);
                                },
                            }
                        },
                    }
                },
            }
        }
        i += 1;
    }
    assert(all.take(segs@.len() as int) == all);
    if found {
        Ok(Some(out))
    } else {
        Ok(None)
    }
}

/// Parse the whole line: split it at `,` and `;`, and add each segment's
/// first number to the total its keywords name; a "repeat N" or "N times"
/// segment sets the repeat count instead. Returns `None` if no numbers were
/// found at all.
pub fn parse(line: &str) -> (r: Option<ParsedTurn>)
    requires
        parse_in_range(line@),
    ensures
        r == parse_result(line@),
{
    match parse_checked(line) {
        Ok(p) => p,
        Err(_) => None,
    }
}

} // verus!
