//! Saving and reopening a conversation: the lines that `history_raws`
//! writes, loaded into a fresh conversation, rebuild it, and so does the
//! file they are saved in.

use vstd::prelude::*;
use crate::app::{
    billed_turns, carried_after, carried_replay, context_accumulates, first_cached,
    history_raws_of, lemma_load_fold_carried, load_fold, load_step, loaded_of, marker_lines_at,
    replay_fits, reps, turn_effect, turn_fits, turn_load, with_history, woven, AppView, TurnEffect,
    TurnRecord, applied, submitted_of, clear_word,
};
use crate::lines::eq_ignore_ascii_case;
use crate::lines::{
    extract_inline_marker_of, is_trimmed, lemma_label_trimmed, lemma_scan_label_trimmed,
    lemma_stored_line_stable, marker_label_of, marker_raw_of, marker_raw_round_trip,
    plain_segments, strip_repeat_of,
};
use crate::parser::{parse_result, ParsedTurn};
use crate::storage::{
    conversation_text_of, is_turn_line, no_newline, read_conversation_of,
    saved_conversation_reads_back,
};
use crate::text::{segments, trim};

verus! {

/// Whether a typed line is stored so that it reads back as it was billed,
/// `has_model` telling whether a model is chosen. Blank lines, marker lines,
/// lines without counts and every line billed without a model always are.
/// A billed line is when its stored form (its segments without the inline
/// marker and the repeat directives) holds no marker directive, and an
/// explicit cached count does not meet a repetition that adds to the
/// context: each stored repetition would carry that same cached count again.
pub open spec fn stores_faithfully(raw: Seq<char>, has_model: bool) -> bool {
    let t = trim(raw);
    let line = extract_inline_marker_of(t).0;
    let ks = plain_segments(segments(line));
    !has_model || t.len() == 0 || marker_label_of(t) is Some || match parse_result(line) {
        None => true,
        Some(p) => {
            &&& (p.cached_override is None || reps(p) == 1 || turn_load(p) == 0)
            &&& forall|i: int| 0 <= i < ks.len() ==> marker_label_of(#[trigger] ks[i]) is None
        },
    }
}

/// The cache carried into turn `k`: none into the first, then what the
/// turn before held in context.
pub open spec fn carried_before(turns: Seq<TurnRecord>, k: int) -> u64 {
    if k <= 0 {
        0
    } else {
        (turns[k - 1].cached + turns[k - 1].input + turns[k - 1].output) as u64
    }
}

/// Whether a turn's stored line, applied with `c` tokens carried and model
/// `m` chosen, bills that same turn once, drops no marker, and carries what
/// the turn holds.
#[verifier::opaque]
pub open spec fn replays_as(t: TurnRecord, c: u64, m: usize) -> bool {
    match turn_effect(t.raw, true) {
        TurnEffect::Billed { parsed, stored, inline } => {
            &&& stored == t.raw
            &&& inline is None
            &&& billed_turns(parsed, c, stored, m) == seq![t]
            &&& carried_after(parsed, c) == t.cached + t.input + t.output
        },
        _ => false,
    }
}

/// Whether the line `s`, applied with a model chosen, bills the counts of
/// `p` once and stores itself.
#[verifier::opaque]
pub open spec fn bills_once(s: Seq<char>, p: ParsedTurn) -> bool {
    turn_effect(s, true) == (TurnEffect::Billed {
        parsed: ParsedTurn { repeat: 1, ..p },
        stored: s,
        inline: None,
    })
}

/// The markers placed before turn `k` (after fewer than `k` turns), in order.
pub open spec fn markers_before(ms: Seq<(usize, Seq<char>)>, k: int) -> Seq<(usize, Seq<char>)>
    decreases ms.len(),
{
    if ms.len() == 0 {
        Seq::empty()
    } else if ms.last().0 < k {
        markers_before(ms.drop_last(), k).push(ms.last())
    } else {
        markers_before(ms.drop_last(), k)
    }
}

/// The markers placed after exactly `k` turns, in order.
pub open spec fn markers_at(ms: Seq<(usize, Seq<char>)>, k: int) -> Seq<(usize, Seq<char>)>
    decreases ms.len(),
{
    if ms.len() == 0 {
        Seq::empty()
    } else if ms.last().0 == k {
        markers_at(ms.drop_last(), k).push(ms.last())
    } else {
        markers_at(ms.drop_last(), k)
    }
}

/// Whether markers are in order of position.
pub open spec fn markers_sorted(ms: Seq<(usize, Seq<char>)>) -> bool {
    forall|i: int, j: int| 0 <= i <= j < ms.len() ==> ms[i].0 <= ms[j].0
}

/// The shape of a conversation built line by line with model `m`: every
/// turn reads back from its stored line with the cache carried into it,
/// the cache is what the last turn left, and the markers are in order,
/// none past the last turn, each label without white space at its ends;
/// and the turns can be counted in a `usize`.
pub open spec fn replayable(turns: Seq<TurnRecord>, ms: Seq<(usize, Seq<char>)>, carried: u64, m: usize) -> bool {
    &&& forall|k: int| 0 <= k < turns.len() ==> replays_as(#[trigger] turns[k], carried_before(turns, k), m)
    &&& carried == carried_before(turns, turns.len() as int)
    &&& turns.len() <= usize::MAX
    &&& markers_sorted(ms)
    &&& forall|i: int| 0 <= i < ms.len() ==> (#[trigger] ms[i]).0 <= turns.len() && is_trimmed(ms[i].1)
}

/// Whether `u` is an empty conversation whose model, when one is chosen,
/// is `m`.
pub open spec fn empty_with_model(u: AppView, m: usize) -> bool {
    &&& u.has_model() ==> u.active_model == Some(m)
    &&& u.turns.len() == 0
    &&& u.markers.len() == 0
    &&& u.carried_cached == 0
}

/// What applying a line does, as far as the law needs it: a marker line
/// gives its label, a billed line gives its counts and stored form.
proof fn lemma_effect_cases(raw: Seq<char>)
    ensures
        turn_effect(raw, false) matches TurnEffect::MarkerOnly(l) ==> marker_label_of(trim(raw))
            == Some(l),
        !(turn_effect(raw, false) is Billed),
        turn_effect(raw, true) matches TurnEffect::MarkerOnly(l) ==> marker_label_of(trim(raw))
            == Some(l),
        turn_effect(raw, true) matches TurnEffect::Billed { parsed, stored, inline } ==> {
            let line = extract_inline_marker_of(trim(raw)).0;
            &&& trim(raw).len() > 0
            &&& marker_label_of(trim(raw)) is None
            &&& parse_result(line) == Some(parsed)
            &&& stored == strip_repeat_of(line)
            &&& inline == extract_inline_marker_of(trim(raw)).1
        },
{
}

/// A billed line's stored form, applied again, bills the same counts once
/// and stores itself.
proof fn lemma_stored_effect(line: Seq<char>, p: ParsedTurn)
    requires
        parse_result(line) == Some(p),
        forall|i: int| 0 <= i < plain_segments(segments(line)).len() ==> marker_label_of(
            #[trigger] plain_segments(segments(line))[i],
        ) is None,
    ensures
        bills_once(strip_repeat_of(line), p),
{
    reveal(bills_once);
    lemma_stored_line_stable(line);
}

/// A turn whose line bills exactly its counts once, with its cached count
/// the one that line is billed with `c` carried, replays as itself.
proof fn lemma_replays_intro(t: TurnRecord, c: u64, m: usize, p: ParsedTurn)
    requires
        bills_once(t.raw, p),
        first_cached(p, c) == t.cached,
        t.input == p.input,
        t.output == p.output,
        t.thinking == p.thinking,
        t.model == m,
    ensures
        replays_as(t, c, m),
{
    reveal(replays_as);
    reveal(bills_once);
    let p1 = ParsedTurn { repeat: 1, ..p };
    let bb = billed_turns(p1, c, t.raw, m);
    assert(reps(p1) == 1);
    assert(bb.len() == 1);
    assert(0 * turn_load(p1) == 0);
    assert(bb[0] == t);
    assert(bb =~= seq![t]);
}

/// Loading the line of a turn that replays bills that turn again.
proof fn lemma_replays_elim(h: AppView, t: TurnRecord, m: usize)
    requires
        replays_as(t, h.carried_cached, m),
        h.has_model(),
        h.active_model == Some(m),
    ensures
        load_step(h, t.raw).turns == h.turns.push(t),
        load_step(h, t.raw).markers == h.markers,
        load_step(h, t.raw).carried_cached == (t.cached + t.input + t.output) as u64,
        load_step(h, t.raw).active_model == h.active_model,
        load_step(h, t.raw).models == h.models,
{
    reveal(replays_as);
    lemma_load_step_counts(h, t.raw);
    assert(h.turns + seq![t] =~= h.turns.push(t));
}

/// Loading a line bills it as applying it does; recording it for recall
/// changes nothing else. No line takes a turn away.
proof fn lemma_load_step_counts(w: AppView, raw: Seq<char>)
    ensures
        load_step(w, raw).turns == applied(w, raw).turns,
        load_step(w, raw).markers == applied(w, raw).markers,
        load_step(w, raw).carried_cached == applied(w, raw).carried_cached,
        load_step(w, raw).active_model == applied(w, raw).active_model,
        load_step(w, raw).models == applied(w, raw).models,
        load_step(w, raw).turns.len() >= w.turns.len(),
{
    reveal(load_step);
}

/// Loading the line written for a marker places that marker again and
/// changes nothing else that counts.
proof fn lemma_marker_line_loads(u: AppView, l: Seq<char>)
    requires
        is_trimmed(l),
    ensures
        load_step(u, marker_raw_of(l)).markers == u.markers.push((u.turns.len() as usize, l)),
        load_step(u, marker_raw_of(l)).turns == u.turns,
        load_step(u, marker_raw_of(l)).carried_cached == u.carried_cached,
        load_step(u, marker_raw_of(l)).active_model == u.active_model,
        load_step(u, marker_raw_of(l)).models == u.models,
{
    marker_raw_round_trip(l);
    lemma_load_step_counts(u, marker_raw_of(l));
    assert(marker_raw_of(l).len() > 0);
    assert(turn_effect(marker_raw_of(l), u.has_model()) == TurnEffect::MarkerOnly(l));
}

/// The turns billed for one line, each taken alone, replay as themselves.
proof fn lemma_billed_each_replays(p: ParsedTurn, c: u64, s: Seq<char>, m: usize, i: int, ci: u64)
    requires
        bills_once(s, p),
        p.cached_override is None || reps(p) == 1 || turn_load(p) == 0,
        carried_after(p, c) <= u64::MAX,
        0 <= i < reps(p),
        i == 0 ==> ci == c,
        i > 0 ==> ci == billed_turns(p, c, s, m)[i].cached,
    ensures
        replays_as(billed_turns(p, c, s, m)[i], ci, m),
{
    let b = billed_turns(p, c, s, m);
    context_accumulates(p, c, s, m);
    let first = first_cached(p, c);
    let load = turn_load(p);
    assert(b[i].cached == (first + i * load) as u64);
    if p.cached_override is Some && i > 0 {
        assert(i * load == 0) by (nonlinear_arith)
            requires
                load == 0,
        ;
    }
    assert(first_cached(p, ci) == b[i].cached);
    lemma_replays_intro(b[i], ci, m, p);
}

/// Billing a line that stores faithfully keeps a conversation replayable.
#[verifier::spinoff_prover]
#[verifier::rlimit(40)]
proof fn lemma_billed_replayable(
    turns: Seq<TurnRecord>,
    ms: Seq<(usize, Seq<char>)>,
    c: u64,
    m: usize,
    p: ParsedTurn,
    s: Seq<char>,
    inline: Option<Seq<char>>,
)
    requires
        replayable(turns, ms, c, m),
        bills_once(s, p),
        p.cached_override is None || reps(p) == 1 || turn_load(p) == 0,
        carried_after(p, c) <= u64::MAX,
        turns.len() + reps(p) <= usize::MAX,
        inline matches Some(l) ==> is_trimmed(l),
    ensures
        ({
            let nt = turns + billed_turns(p, c, s, m);
            let nm = match inline {
                Some(l) => ms.push((nt.len() as usize, l)),
                None => ms,
            };
            replayable(nt, nm, carried_after(p, c) as u64, m)
        }),
{
    let b = billed_turns(p, c, s, m);
    context_accumulates(p, c, s, m);
    let nt = turns + b;
    let kk = turns.len() as int;
    assert forall|k: int| 0 <= k < nt.len() implies replays_as(#[trigger] nt[k], carried_before(nt, k), m) by {
        if k < kk {
            assert(nt[k] == turns[k]);
            if k > 0 {
                assert(nt[k - 1] == turns[k - 1]);
            }
            assert(carried_before(nt, k) == carried_before(turns, k));
        } else {
            let i = k - kk;
            assert(nt[k] == b[i]);
            if i == 0 {
                if kk > 0 {
                    assert(nt[kk - 1] == turns[kk - 1]);
                }
                assert(carried_before(nt, k) == c);
            } else {
                assert(nt[k - 1] == b[i - 1]);
                assert(b[i].cached == b[i - 1].cached + p.input + p.output);
                assert(carried_before(nt, k) == b[i].cached);
            }
            lemma_billed_each_replays(p, c, s, m, i, carried_before(nt, k));
        }
    }
    assert(nt[nt.len() - 1] == b[b.len() - 1]);
    let nm = match inline {
        Some(l) => ms.push((nt.len() as usize, l)),
        None => ms,
    };
    assert forall|i: int, j: int| 0 <= i <= j < nm.len() implies nm[i].0 <= nm[j].0 by {
        if j < ms.len() {
            assert(nm[i] == ms[i] && nm[j] == ms[j]);
        } else {
            assert(nm[i] == ms[i] || i == j);
        }
    }
    assert forall|i: int| 0 <= i < nm.len() implies (#[trigger] nm[i]).0 <= nt.len() && is_trimmed(
        nm[i].1,
    ) by {
        if i < ms.len() {
            assert(nm[i] == ms[i]);
        }
    }
}

/// Loading a line that stores faithfully keeps a conversation replayable.
#[verifier::spinoff_prover]
proof fn lemma_step_replayable(w: AppView, raw: Seq<char>, m: usize)
    requires
        w.has_model() ==> w.active_model == Some(m),
        !w.has_model() ==> w.turns.len() == 0,
        replayable(w.turns, w.markers, w.carried_cached, m),
        stores_faithfully(raw, w.has_model()),
        turn_fits(raw, w.has_model(), w.carried_cached),
        load_step(w, raw).turns.len() <= usize::MAX,
    ensures
        load_step(w, raw).active_model == w.active_model,
        load_step(w, raw).models == w.models,
        load_step(w, raw).has_model() == w.has_model(),
        !w.has_model() ==> load_step(w, raw).turns.len() == 0,
        replayable(load_step(w, raw).turns, load_step(w, raw).markers, load_step(w, raw).carried_cached, m),
{
    lemma_load_step_counts(w, raw);
    lemma_effect_cases(raw);
    let t = trim(raw);
    match turn_effect(raw, w.has_model()) {
        TurnEffect::Rejected => {},
        TurnEffect::MarkerOnly(l) => {
            lemma_label_trimmed(t);
            let nm = w.markers.push((w.turns.len() as usize, l));
            assert forall|i: int, j: int| 0 <= i <= j < nm.len() implies nm[i].0 <= nm[j].0 by {
                if j < w.markers.len() {
                    assert(nm[i] == w.markers[i] && nm[j] == w.markers[j]);
                } else {
                    assert(nm[i] == w.markers[i] || i == j);
                }
            }
            assert forall|i: int| 0 <= i < nm.len() implies (#[trigger] nm[i]).0 <= w.turns.len()
                && is_trimmed(nm[i].1) by {
                if i < w.markers.len() {
                    assert(nm[i] == w.markers[i]);
                }
            }
        },
        TurnEffect::Billed { parsed, stored, inline } => {
            let line = extract_inline_marker_of(t).0;
            lemma_scan_label_trimmed(segments(t));
            lemma_stored_effect(line, parsed);
            assert(billed_turns(parsed, w.carried_cached, stored, m).len() == reps(parsed));
            lemma_billed_replayable(w.turns, w.markers, w.carried_cached, m, parsed, stored, inline);
        },
    }
}

/// Loading lines that store faithfully, and fit, into an empty conversation
/// builds a replayable one.
proof fn lemma_fold_replayable(u0: AppView, raws: Seq<Seq<char>>, m: usize)
    requires
        empty_with_model(u0, m),
        replay_fits(u0.has_model(), 0, raws),
        forall|i: int| 0 <= i < raws.len() ==> stores_faithfully(#[trigger] raws[i], u0.has_model()),
        load_fold(u0, raws).turns.len() <= usize::MAX,
    ensures
        load_fold(u0, raws).active_model == u0.active_model,
        load_fold(u0, raws).models == u0.models,
        load_fold(u0, raws).has_model() == u0.has_model(),
        !u0.has_model() ==> load_fold(u0, raws).turns.len() == 0,
        replayable(load_fold(u0, raws).turns, load_fold(u0, raws).markers, load_fold(u0, raws).carried_cached, m),
    decreases raws.len(),
{
    if raws.len() > 0 {
        let dl = raws.drop_last();
        assert forall|i: int| 0 <= i < dl.len() implies stores_faithfully(#[trigger] dl[i], u0.has_model()) by {
            assert(dl[i] == raws[i]);
        }
        lemma_load_step_counts(load_fold(u0, dl), raws.last());
        lemma_fold_replayable(u0, dl, m);
        lemma_load_fold_carried(u0, dl);
        assert(stores_faithfully(raws[raws.len() - 1], u0.has_model()));
        lemma_step_replayable(load_fold(u0, dl), raws.last(), m);
    }
}

/// Loading two runs of lines is loading the first, then the second.
proof fn lemma_load_concat(v: AppView, a: Seq<Seq<char>>, b: Seq<Seq<char>>)
    ensures
        load_fold(v, a + b) == load_fold(load_fold(v, a), b),
    decreases b.len(),
{
    if b.len() == 0 {
        assert(a + b =~= a);
    } else {
        lemma_load_concat(v, a, b.drop_last());
        assert((a + b).drop_last() =~= a + b.drop_last());
        assert((a + b).last() == b.last());
    }
}

/// Loading the marker lines written for position `pos`, with `pos` turns
/// loaded, places those markers again and changes nothing else that counts.
proof fn lemma_load_marker_lines(u: AppView, ms: Seq<(usize, Seq<char>)>, pos: int)
    requires
        u.turns.len() == pos,
        forall|i: int| 0 <= i < ms.len() ==> is_trimmed((#[trigger] ms[i]).1),
    ensures
        load_fold(u, marker_lines_at(ms, pos)).turns == u.turns,
        load_fold(u, marker_lines_at(ms, pos)).carried_cached == u.carried_cached,
        load_fold(u, marker_lines_at(ms, pos)).active_model == u.active_model,
        load_fold(u, marker_lines_at(ms, pos)).models == u.models,
        load_fold(u, marker_lines_at(ms, pos)).markers == u.markers + markers_at(ms, pos),
    decreases ms.len(),
{
    if ms.len() == 0 {
        assert(u.markers + Seq::<(usize, Seq<char>)>::empty() =~= u.markers);
    } else {
        let dl = ms.drop_last();
        assert forall|i: int| 0 <= i < dl.len() implies is_trimmed((#[trigger] dl[i]).1) by {
            assert(dl[i] == ms[i]);
        }
        lemma_load_marker_lines(u, dl, pos);
        let x = marker_lines_at(dl, pos);
        if ms.last().0 == pos {
            let l = ms.last().1;
            let raw = marker_raw_of(l);
            assert(is_trimmed(ms[ms.len() - 1].1));
            assert(x.push(raw).drop_last() == x);
            assert(marker_lines_at(ms, pos) == x.push(raw));
            lemma_marker_line_loads(load_fold(u, x), l);
            assert(u.markers + markers_at(ms, pos) =~= (u.markers + markers_at(dl, pos)).push(ms.last()));
        }
    }
}

/// Loading one line is one load step.
proof fn lemma_load_single(v: AppView, raw: Seq<char>)
    ensures
        load_fold(v, seq![raw]) == load_step(v, raw),
{
    let one = seq![raw];
    assert(one.drop_last() =~= Seq::<Seq<char>>::empty());
    assert(one.last() == raw);
    assert(load_fold(v, one.drop_last()) == v);
}

/// With no marker at position `k`, none is placed there.
proof fn lemma_markers_at_none(ms: Seq<(usize, Seq<char>)>, k: int)
    requires
        forall|i: int| 0 <= i < ms.len() ==> (#[trigger] ms[i]).0 != k,
    ensures
        markers_at(ms, k) == Seq::<(usize, Seq<char>)>::empty(),
    decreases ms.len(),
{
    if ms.len() > 0 {
        let dl = ms.drop_last();
        assert forall|i: int| 0 <= i < dl.len() implies (#[trigger] dl[i]).0 != k by {
            assert(dl[i] == ms[i]);
        }
        lemma_markers_at_none(dl, k);
        assert(ms[ms.len() - 1].0 != k);
    }
}

/// In order of position, the markers before `k + 1` are those before `k`,
/// then those at `k`.
proof fn lemma_markers_split(ms: Seq<(usize, Seq<char>)>, k: int)
    requires
        markers_sorted(ms),
    ensures
        markers_before(ms, k + 1) == markers_before(ms, k) + markers_at(ms, k),
    decreases ms.len(),
{
    if ms.len() == 0 {
        assert(Seq::<(usize, Seq<char>)>::empty() + Seq::<(usize, Seq<char>)>::empty() =~= Seq::<
            (usize, Seq<char>),
        >::empty());
    } else {
        let dl = ms.drop_last();
        let x = ms.last();
        assert(markers_sorted(dl)) by {
            assert forall|i: int, j: int| 0 <= i <= j < dl.len() implies dl[i].0 <= dl[j].0 by {
                assert(dl[i] == ms[i] && dl[j] == ms[j]);
            }
        }
        lemma_markers_split(dl, k);
        if x.0 < k {
            assert forall|i: int| 0 <= i < dl.len() implies (#[trigger] dl[i]).0 != k by {
                assert(dl[i] == ms[i]);
                assert(ms[i].0 <= ms[ms.len() - 1].0);
            }
            lemma_markers_at_none(dl, k);
            assert(markers_before(dl, k) + Seq::<(usize, Seq<char>)>::empty() =~= markers_before(dl, k));
            assert(markers_before(dl, k).push(x) + Seq::<(usize, Seq<char>)>::empty() =~= markers_before(
                dl,
                k,
            ).push(x));
        } else if x.0 == k {
            assert((markers_before(dl, k) + markers_at(dl, k)).push(x) =~= markers_before(dl, k)
                + markers_at(dl, k).push(x));
        }
    }
}

/// No marker sits before the first turn.
proof fn lemma_markers_before_start(ms: Seq<(usize, Seq<char>)>)
    ensures
        markers_before(ms, 0) == Seq::<(usize, Seq<char>)>::empty(),
    decreases ms.len(),
{
    if ms.len() > 0 {
        lemma_markers_before_start(ms.drop_last());
    }
}

/// When every marker sits before `k`, the markers before `k` are all of them.
proof fn lemma_markers_before_all(ms: Seq<(usize, Seq<char>)>, k: int)
    requires
        forall|i: int| 0 <= i < ms.len() ==> (#[trigger] ms[i]).0 < k,
    ensures
        markers_before(ms, k) == ms,
    decreases ms.len(),
{
    if ms.len() > 0 {
        let dl = ms.drop_last();
        assert forall|i: int| 0 <= i < dl.len() implies (#[trigger] dl[i]).0 < k by {
            assert(dl[i] == ms[i]);
        }
        lemma_markers_before_all(dl, k);
        assert(ms[ms.len() - 1].0 < k);
        assert(dl.push(ms.last()) =~= ms);
    }
}

/// Loading the saved lines of the first `k` turns (with the markers before
/// each) into an empty conversation rebuilds those turns, those markers
/// and the cache they carry.
#[verifier::spinoff_prover]
#[verifier::rlimit(40)]
proof fn lemma_reload_prefix(
    u0: AppView,
    turns: Seq<TurnRecord>,
    ms: Seq<(usize, Seq<char>)>,
    c: u64,
    m: usize,
    k: int,
)
    requires
        empty_with_model(u0, m),
        turns.len() > 0 ==> u0.has_model(),
        replayable(turns, ms, c, m),
        0 <= k <= turns.len(),
    ensures
        load_fold(u0, woven(turns, ms, k)).turns == turns.take(k),
        load_fold(u0, woven(turns, ms, k)).markers == markers_before(ms, k),
        load_fold(u0, woven(turns, ms, k)).carried_cached == carried_before(turns, k),
        load_fold(u0, woven(turns, ms, k)).active_model == u0.active_model,
        load_fold(u0, woven(turns, ms, k)).models == u0.models,
    decreases k,
{
    if k == 0 {
        assert(turns.take(0) =~= Seq::<TurnRecord>::empty());
        lemma_markers_before_start(ms);
        assert(u0.turns =~= Seq::<TurnRecord>::empty());
        assert(u0.markers =~= Seq::<(usize, Seq<char>)>::empty());
    } else {
        lemma_reload_prefix(u0, turns, ms, c, m, k - 1);
        let a = woven(turns, ms, k - 1);
        let mid = marker_lines_at(ms, k - 1);
        let raw = turns[k - 1].raw;
        assert(woven(turns, ms, k) == a + mid + seq![raw]);
        lemma_load_concat(u0, a + mid, seq![raw]);
        lemma_load_concat(u0, a, mid);
        let r1 = load_fold(u0, a);
        assert forall|i: int| 0 <= i < ms.len() implies is_trimmed((#[trigger] ms[i]).1) by {}
        lemma_load_marker_lines(r1, ms, k - 1);
        let r2 = load_fold(r1, mid);
        lemma_load_single(r2, raw);
        assert(replays_as(turns[k - 1], carried_before(turns, k - 1), m));
        lemma_replays_elim(r2, turns[k - 1], m);
        lemma_markers_split(ms, k - 1);
        assert(turns.take(k - 1) + seq![turns[k - 1]] =~= turns.take(k));
        assert(r2.markers == markers_before(ms, k - 1) + markers_at(ms, k - 1));
    }
}

/// A saved conversation reopens as it was: load lines into a conversation,
/// write it out as `history_raws` does, load those lines into a fresh
/// conversation, and the turns, the markers and the cache carried are the
/// same. This holds for every conversation loaded from lines that fit and
/// store faithfully (see [`stores_faithfully`]).
pub proof fn reload_restores_conversation(v: AppView, raws: Seq<Seq<char>>)
    requires
        replay_fits(v.has_model(), 0, raws),
        forall|i: int| 0 <= i < raws.len() ==> stores_faithfully(#[trigger] raws[i], v.has_model()),
        loaded_of(v, raws).turns.len() <= usize::MAX,
    ensures
        ({
            let w = loaded_of(v, raws);
            let r = loaded_of(w, history_raws_of(w));
            &&& r.turns == w.turns
            &&& r.markers == w.markers
            &&& r.carried_cached == w.carried_cached
        }),
{
    let m = match v.active_model {
        Some(i) => i,
        None => 0,
    };
    let u0 = v.reset();
    assert(empty_with_model(u0, m));
    lemma_fold_replayable(u0, raws, m);
    replayable_conversation_reloads(loaded_of(v, raws), m);
}

/// A conversation saved to a file reopens as it was: write a loaded
/// conversation (see [`reload_restores_conversation`]) as a conversation
/// file under any single-line header values, read the file back, and the
/// headers come back as written (trimmed) while loading its lines
/// rebuilds the same turns, markers and cache. The lines written must each
/// be able to stand as a turn line (see [`is_turn_line`]): a line starting
/// with `#` would read back as a header, one holding a newline as two lines.
pub proof fn saved_file_reopens(
    v: AppView,
    raws: Seq<Seq<char>>,
    name: Seq<char>,
    model_name: Seq<char>,
    input: Seq<char>,
    output: Seq<char>,
    cached: Seq<char>,
    context: u64,
    stem: Seq<char>,
)
    requires
        replay_fits(v.has_model(), 0, raws),
        forall|i: int| 0 <= i < raws.len() ==> stores_faithfully(#[trigger] raws[i], v.has_model()),
        loaded_of(v, raws).turns.len() <= usize::MAX,
        no_newline(name),
        no_newline(model_name),
        no_newline(input),
        no_newline(output),
        no_newline(cached),
        forall|i: int|
            0 <= i < history_raws_of(loaded_of(v, raws)).len() ==> is_turn_line(
                #[trigger] history_raws_of(loaded_of(v, raws))[i],
            ),
    ensures
        ({
            let w = loaded_of(v, raws);
            let f = read_conversation_of(
                conversation_text_of(name, model_name, input, output, cached, context, history_raws_of(w)),
                stem,
            );
            let r = loaded_of(w, f.turns);
            &&& f.name == trim(name)
            &&& f.model_name == trim(model_name)
            &&& f.input == Some(trim(input))
            &&& f.output == Some(trim(output))
            &&& f.cached == Some(trim(cached))
            &&& f.context == context
            &&& r.turns == w.turns
            &&& r.markers == w.markers
            &&& r.carried_cached == w.carried_cached
        }),
{
    let w = loaded_of(v, raws);
    saved_conversation_reads_back(name, model_name, input, output, cached, context, history_raws_of(w), stem);
    reload_restores_conversation(v, raws);
}

/// Submitting a line that is not `clear` changes the conversation (its
/// turns, markers and cache) as loading that line does.
proof fn lemma_submit_as_load(v: AppView)
    requires
        !eq_ignore_ascii_case(trim(v.input), clear_word()),
    ensures
        submitted_of(v).turns == load_step(v, v.input).turns,
        submitted_of(v).markers == load_step(v, v.input).markers,
        submitted_of(v).carried_cached == load_step(v, v.input).carried_cached,
        submitted_of(v).active_model == v.active_model,
        submitted_of(v).models == v.models,
{
    reveal(load_step);
}

/// Whatever conversation is replayable reloads as it was: loading the
/// lines `history_raws` writes of it into a fresh conversation gives back
/// its turns, its markers and its cache.
pub proof fn replayable_conversation_reloads(w: AppView, m: usize)
    requires
        replayable(w.turns, w.markers, w.carried_cached, m),
        w.turns.len() > 0 ==> w.has_model() && w.active_model == Some(m),
    ensures
        loaded_of(w, history_raws_of(w)).turns == w.turns,
        loaded_of(w, history_raws_of(w)).markers == w.markers,
        loaded_of(w, history_raws_of(w)).carried_cached == w.carried_cached,
{
    let u1 = w.reset();
    let mm = if w.turns.len() > 0 {
        m
    } else {
        match w.active_model {
            Some(i) => i,
            None => m,
        }
    };
    assert(replayable(w.turns, w.markers, w.carried_cached, mm));
    assert(empty_with_model(u1, mm));
    let n = w.turns.len() as int;
    lemma_reload_prefix(u1, w.turns, w.markers, w.carried_cached, mm, n);
    let a = woven(w.turns, w.markers, n);
    let b = marker_lines_at(w.markers, n);
    lemma_load_concat(u1, a, b);
    let r1 = load_fold(u1, a);
    assert forall|i: int| 0 <= i < w.markers.len() implies is_trimmed((#[trigger] w.markers[i]).1) by {}
    lemma_load_marker_lines(r1, w.markers, n);
    lemma_markers_split(w.markers, n);
    assert forall|i: int| 0 <= i < w.markers.len() implies (#[trigger] w.markers[i]).0 < n + 1 by {}
    lemma_markers_before_all(w.markers, n + 1);
    assert(w.turns.take(n) == w.turns);
}

/// A conversation typed in the chat stays replayable: an empty one is,
/// and submitting a line that fits and stores faithfully (see
/// [`stores_faithfully`]) keeps it so, with the model it was billed at.
/// With [`replayable_conversation_reloads`], a conversation built by
/// submitting such lines reopens as it was.
pub proof fn submitting_keeps_replayable(v: AppView, m: usize)
    requires
        v.has_model() ==> v.active_model == Some(m),
        !v.has_model() ==> v.turns.len() == 0,
        replayable(v.turns, v.markers, v.carried_cached, m),
        stores_faithfully(v.input, v.has_model()),
        turn_fits(v.input, v.has_model(), v.carried_cached),
        submitted_of(v).turns.len() <= usize::MAX,
    ensures
        replayable(Seq::empty(), Seq::empty(), 0, m),
        submitted_of(v).active_model == v.active_model,
        submitted_of(v).has_model() == v.has_model(),
        !v.has_model() ==> submitted_of(v).turns.len() == 0,
        replayable(submitted_of(v).turns, submitted_of(v).markers, submitted_of(v).carried_cached, m),
{
    assert(markers_sorted(Seq::<(usize, Seq<char>)>::empty()));
    if eq_ignore_ascii_case(trim(v.input), clear_word()) {
        assert(submitted_of(v).turns.len() == 0);
        assert(submitted_of(v).markers.len() == 0);
    } else {
        lemma_submit_as_load(v);
        lemma_step_replayable(v, v.input, m);
    }
}

} // verus!
