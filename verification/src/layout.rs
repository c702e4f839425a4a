//! Where things go on screen, as plain values: the rows of the turn
//! history, how far it scrolls, the segments that markers cut the cost
//! chart into, and centred boxes.

use vstd::prelude::*;
use crate::lines::Marker;

verus! {

/// The smaller of two counts.
pub open spec fn min_of(a: int, b: int) -> int {
    if a <= b {
        a
    } else {
        b
    }
}

/// Whether `x` bounds a segment of a conversation of `n` turns cut by the
/// markers `ms`: the start, the end, or a marker's position (a position
/// past the end counts as the end).
pub open spec fn is_bound(ms: Seq<(usize, Seq<char>)>, n: int, x: int) -> bool {
    x == 0 || x == n || exists|i: int| 0 <= i < ms.len() && x == min_of(ms[i].0 as int, n)
}

/// The markers as plain values.
pub open spec fn marker_views(ms: Seq<Marker>) -> Seq<(usize, Seq<char>)> {
    ms.map_values(|m: Marker| m@)
}

/// The first segment bound after `last`.
fn next_bound(markers: &Vec<Marker>, n: usize, last: usize) -> (r: usize)
    requires
        last < n,
    ensures
        last < r <= n,
        is_bound(marker_views(markers@), n as int, r as int),
        forall|x: int| #[trigger] is_bound(marker_views(markers@), n as int, x) && last < x ==> r <= x,
{
    let ghost ms = marker_views(markers@);
    let mut best = n;
    let mut j: usize = 0;
    while j < markers.len()
        invariant
            j <= markers@.len(),
            ms == marker_views(markers@),
            last < best <= n,
            is_bound(ms, n as int, best as int),
            forall|i: int|
                0 <= i < j && last < min_of(ms[i].0 as int, n as int) ==> best <= min_of(
                    #[trigger] ms[i].0 as int,
                    n as int,
                ),
        decreases markers@.len() - j,
    {
        assert(ms[j as int] == markers@[j as int]@);
        let a = if markers[j].after < n {
            markers[j].after
        } else {
            n
        };
        if a > last && a < best {
            best = a;
        }
        j += 1;
    }
    assert forall|x: int| #[trigger] is_bound(ms, n as int, x) && last < x implies best <= x by {
        if x != 0 && x != n {
            let i = choose|i: int| 0 <= i < ms.len() && x == min_of(ms[i].0 as int, n as int);
            assert(best <= min_of(ms[i].0 as int, n as int));
        }
    }
    best
}

/// The bounds of the segments that the markers cut a conversation of `n`
/// turns into: every bound (the start, the end, each marker's position,
/// past the end counting as the end) once, in increasing order.
pub fn segment_bounds(markers: &Vec<Marker>, n: usize) -> (r: Vec<usize>)
    ensures
        r@.len() >= 1,
        r@[0] == 0,
        r@.last() == n,
        forall|i: int, j: int| 0 <= i < j < r@.len() ==> r@[i] < r@[j],
        forall|i: int| 0 <= i < r@.len() ==> is_bound(marker_views(markers@), n as int, #[trigger] r@[i] as int),
        forall|x: int| #[trigger] is_bound(marker_views(markers@), n as int, x) ==> r@.contains(x as usize),
{
    let ghost ms = marker_views(markers@);
    let mut out: Vec<usize> = Vec::new();
    out.push(0);
    let mut last: usize = 0;
    assert forall|x: int| #[trigger] is_bound(ms, n as int, x) && x <= last implies out@.contains(x as usize) by {
        if x != 0 && x != n {
            let i = choose|i: int| 0 <= i < ms.len() && x == min_of(ms[i].0 as int, n as int);
        }
        assert(out@[0] == 0usize);
    }
    while last < n
        invariant
            ms == marker_views(markers@),
            out@.len() >= 1,
            out@[0] == 0,
            out@.last() == last,
            last <= n,
            forall|i: int, j: int| 0 <= i < j < out@.len() ==> out@[i] < out@[j],
            forall|i: int| 0 <= i < out@.len() ==> is_bound(ms, n as int, #[trigger] out@[i] as int),
            forall|x: int| #[trigger] is_bound(ms, n as int, x) && x <= last ==> out@.contains(x as usize),
        decreases n - last,
    {
        let b = next_bound(markers, n, last);
        let ghost before = out@;
        out.push(b);
        assert forall|x: int| #[trigger] is_bound(ms, n as int, x) && x <= b implies out@.contains(x as usize) by {
            if x <= last {
                assert(before.contains(x as usize));
                let k = choose|k: int| 0 <= k < before.len() && before[k] == x as usize;
                assert(out@[k] == before[k]);
            } else {
                assert(out@[out@.len() - 1] == b);
            }
        }
        last = b;
    }
    assert forall|x: int| #[trigger] is_bound(ms, n as int, x) implies out@.contains(x as usize) by {
        if x != 0 && x != n {
            let i = choose|i: int| 0 <= i < ms.len() && x == min_of(ms[i].0 as int, n as int);
        }
    }
    out
}

/// A row of the turn history as shown: a marker's separator line (by the
/// marker's index), a turn's line, a turn's detail line (by the turn's
/// index), or the hint shown when there is nothing yet.
#[derive(PartialEq, Eq, Structural, Clone, Copy, Debug)]
pub enum HistoryRow {
    Marker(usize),
    Turn(usize),
    Detail(usize),
    Placeholder,
}

/// The separator rows of the markers placed after `pos` turns, in order.
pub open spec fn marker_rows_at(ms: Seq<(usize, Seq<char>)>, pos: int) -> Seq<HistoryRow>
    decreases ms.len(),
{
    if ms.len() == 0 {
        Seq::empty()
    } else {
        let prev = marker_rows_at(ms.drop_last(), pos);
        if ms.last().0 == pos {
            prev.push(HistoryRow::Marker((ms.len() - 1) as usize))
        } else {
            prev
        }
    }
}

/// The rows of the first `k` turns, each turn's line and detail line after
/// the markers placed just before it.
pub open spec fn turn_rows(ms: Seq<(usize, Seq<char>)>, k: int) -> Seq<HistoryRow>
    decreases k,
{
    if k <= 0 {
        Seq::empty()
    } else {
        turn_rows(ms, k - 1) + marker_rows_at(ms, k - 1) + seq![
            HistoryRow::Turn((k - 1) as usize),
            HistoryRow::Detail((k - 1) as usize),
        ]
    }
}

/// The history of a conversation of `n` turns with markers `ms`: the turn
/// rows, then the markers placed after the last turn; the hint alone when
/// that is nothing.
pub open spec fn history_rows_of(ms: Seq<(usize, Seq<char>)>, n: int) -> Seq<HistoryRow> {
    let rows = turn_rows(ms, n) + marker_rows_at(ms, n);
    if rows.len() == 0 {
        seq![HistoryRow::Placeholder]
    } else {
        rows
    }
}

/// Appends the separator rows of the markers placed after `pos` turns.
fn push_marker_rows(markers: &Vec<Marker>, pos: usize, out: &mut Vec<HistoryRow>)
    ensures
        final(out)@ == old(out)@ + marker_rows_at(marker_views(markers@), pos as int),
{
    let ghost base = out@;
    let ghost ms = marker_views(markers@);
    let mut j: usize = 0;
    assert(ms.take(0) =~= Seq::<(usize, Seq<char>)>::empty());
    while j < markers.len()
        invariant
            j <= markers@.len(),
            ms == marker_views(markers@),
            out@ == base + marker_rows_at(ms.take(j as int), pos as int),
        decreases markers@.len() - j,
    {
        assert(ms.take(j + 1).drop_last() == ms.take(j as int));
        assert(ms.take(j + 1).last() == markers@[j as int]@);
        if markers[j].after == pos {
            let ghost before = out@;
            out.push(HistoryRow::Marker(j));
            assert(out@ =~= before.push(HistoryRow::Marker(j)));
        }
        j += 1;
    }
    assert(ms.take(markers@.len() as int) == ms);
}

/// The rows of the turn history of a conversation of `n` turns.
pub fn history_rows(markers: &Vec<Marker>, n: usize) -> (r: Vec<HistoryRow>)
    ensures
        r@ == history_rows_of(marker_views(markers@), n as int),
{
    let ghost ms = marker_views(markers@);
    let mut out: Vec<HistoryRow> = Vec::new();
    let mut i: usize = 0;
    assert(out@ =~= turn_rows(ms, 0));
    while i < n
        invariant
            i <= n,
            ms == marker_views(markers@),
            out@ == turn_rows(ms, i as int),
        decreases n - i,
    {
        push_marker_rows(markers, i, &mut out);
        let ghost before = out@;
        out.push(HistoryRow::Turn(i));
        out.push(HistoryRow::Detail(i));
        assert(out@ =~= before + seq![HistoryRow::Turn(i), HistoryRow::Detail(i)]);
        i += 1;
    }
    push_marker_rows(markers, n, &mut out);
    if out.len() == 0 {
        out.push(HistoryRow::Placeholder);
        assert(out@ =~= seq![HistoryRow::Placeholder]);
    }
    out
}

/// How far the history can scroll: the rows that do not fit in a box of
/// `box_height` (its border takes two), as a `u16` as the scroll offset is
/// kept.
pub open spec fn history_bottom(rows: int, box_height: int) -> u16 {
    let inner = if box_height >= 2 {
        box_height - 2
    } else {
        0
    };
    (if rows > inner {
        rows - inner
    } else {
        0
    }) as u16
}

/// The furthest the history can scroll and where it is scrolled to: the
/// bottom, pulled back up by `scroll_up` rows, no further than the top.
pub fn history_scroll(rows: usize, box_height: u16, scroll_up: u16) -> (r: (u16, u16))
    ensures
        r.0 == history_bottom(rows as int, box_height as int),
        r.1 == if scroll_up <= r.0 {
            r.0 - scroll_up
        } else {
            0
        },
{
    let inner = box_height.saturating_sub(2) as usize;
    let bottom = rows.saturating_sub(inner) as u16;
    let up = if scroll_up < bottom {
        scroll_up
    } else {
        bottom
    };
    (bottom, bottom - up)
}

/// A rectangle of the screen.
#[derive(PartialEq, Eq, Structural, Clone, Copy, Debug)]
pub struct Area {
    pub x: u16,
    pub y: u16,
    pub width: u16,
    pub height: u16,
}

/// A box of the given size centred in `area`, no larger than `area`.
pub fn centered(area: Area, width: u16, height: u16) -> (r: Area)
    requires
        area.x + (area.width - min_of(width as int, area.width as int)) / 2 <= u16::MAX,
        area.y + (area.height - min_of(height as int, area.height as int)) / 2 <= u16::MAX,
    ensures
        r.width == min_of(width as int, area.width as int),
        r.height == min_of(height as int, area.height as int),
        r.x == area.x + (area.width - r.width) / 2,
        r.y == area.y + (area.height - r.height) / 2,
{
    let w = if width < area.width {
        width
    } else {
        area.width
    };
    let h = if height < area.height {
        height
    } else {
        area.height
    };
    let x = area.x + (area.width - w) / 2;
    let y = area.y + (area.height - h) / 2;
    Area { x, y, width: w, height: h }
}

} // verus!
