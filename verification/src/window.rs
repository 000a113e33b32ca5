//! The active window of a schedule.
//!
//! A schedule is an ascending list of the ticks at which a sound starts. At
//! a given tick only a contiguous part of it matters: the entries that have
//! started and may still be sounding. The window `(low, high)` marks that
//! part. `high` is the first entry that has not started. `low` follows the
//! entries whose sound has run out, but stays on the last entry that has
//! started. The window is a cache: it can be moved on from an earlier tick,
//! or found again from nothing, and both give the same pair.

use vstd::prelude::*;
use crate::sample::{Sample, SILENCE, sat_fold, lemma_fold_concat, lemma_fold_silence};
use crate::simd::contributions;

verus! {

/// Whether the entries of `schedule` ascend. Equal neighbours are allowed.
pub open spec fn sorted(schedule: Seq<u64>) -> bool {
    forall|i: int, j: int| 0 <= i <= j < schedule.len() ==> schedule[i] <= schedule[j]
}

/// Whether a sound of `length` samples that started at `start` has run out
/// by `tick`: its last sample lies before that tick.
pub open spec fn elapsed(start: u64, length: nat, tick: u64) -> bool {
    start + length <= tick
}

/// Where `high` comes to rest when it is moved on from `from`: the first
/// entry at or after `from` that has not started by `tick`.
pub open spec fn scan_high(schedule: Seq<u64>, tick: u64, from: int) -> int
    decreases schedule.len() - from,
{
    if 0 <= from < schedule.len() && schedule[from] <= tick {
        scan_high(schedule, tick, from + 1)
    } else {
        from
    }
}

/// Where `low` comes to rest when it is moved on from `from`: it passes the
/// entries that have run out by `tick`, and stops one before `high`.
pub open spec fn scan_low(schedule: Seq<u64>, length: nat, tick: u64, high: int, from: int) -> int
    decreases high - from,
{
    if 0 <= from < schedule.len() && from + 1 < high && elapsed(schedule[from], length, tick) {
        scan_low(schedule, length, tick, high, from + 1)
    } else {
        from
    }
}

/// The window at `tick`, moved on from `window`.
pub open spec fn advance(schedule: Seq<u64>, length: nat, window: (int, int), tick: u64) -> (
    int,
    int,
) {
    let high = scan_high(schedule, tick, window.1);
    (scan_low(schedule, length, tick, high, window.0), high)
}

/// The window at `tick`, found from nothing.
pub open spec fn rescan(schedule: Seq<u64>, length: nat, tick: u64) -> (int, int) {
    advance(schedule, length, (0, 0), tick)
}

/// Whether `window` may be moved on to `tick`: it lies inside the schedule,
/// every entry before its `high` has started by `tick`, every entry before
/// its `low` has run out by `tick`, and `low` has not passed the last entry
/// before `high`.
pub open spec fn behind(schedule: Seq<u64>, length: nat, window: (int, int), tick: u64) -> bool {
    &&& 0 <= window.0 <= window.1 <= schedule.len()
    &&& window.0 == 0 || window.0 < window.1
    &&& forall|i: int| 0 <= i < window.1 ==> #[trigger] schedule[i] <= tick
    &&& forall|i: int| 0 <= i < window.0 ==> elapsed(#[trigger] schedule[i], length, tick)
}

/// Whether a sound of `source_len` samples that started at `start` has run
/// out by `tick`.
fn has_elapsed(start: u64, source_len: usize, tick: u64) -> (r: bool)
    ensures
        r == elapsed(start, source_len as nat, tick),
{
    start <= tick && tick - start >= source_len as u64
}

/// Moves `window` on to `tick`: first `high`, past every entry that has
/// started, then `low`, past every entry that has run out, as far as one
/// before `high`.
pub fn advance_window(schedule: &[u64], source_len: usize, window: (usize, usize), tick: u64) -> (next:
    (usize, usize))
    ensures
        (next.0 as int, next.1 as int) == advance(
            schedule@,
            source_len as nat,
            (window.0 as int, window.1 as int),
            tick,
        ),
        window.0 <= next.0,
        window.1 <= next.1,
{
    let len: usize = schedule.len();
    let mut high: usize = window.1;
    while high < len && schedule[high] <= tick
        invariant
            len == schedule@.len(),
            window.1 <= high,
            high <= len || high == window.1,
            scan_high(schedule@, tick, high as int) == scan_high(schedule@, tick, window.1 as int),
        decreases len - high,
    {
        high += 1;
    }
    let mut low: usize = window.0;
    while low < len && low < high && high - low > 1 && has_elapsed(schedule[low], source_len, tick)
        invariant
            len == schedule@.len(),
            window.0 <= low,
            scan_low(schedule@, source_len as nat, tick, high as int, low as int) == scan_low(
                schedule@,
                source_len as nat,
                tick,
                high as int,
                window.0 as int,
            ),
        decreases len - low,
    {
        low += 1;
    }
    (low, high)
}

/// Finds the window at `tick` from nothing.
pub fn rescan_window(schedule: &[u64], source_len: usize, tick: u64) -> (window: (usize, usize))
    ensures
        (window.0 as int, window.1 as int) == rescan(schedule@, source_len as nat, tick),
{
    advance_window(schedule, source_len, (0, 0), tick)
}

/// Moving `high` on never moves it back, and never past the schedule's end
/// unless it started there.
pub proof fn lemma_scan_high_bounds(schedule: Seq<u64>, tick: u64, from: int)
    ensures
        from <= scan_high(schedule, tick, from),
        from <= schedule.len() ==> scan_high(schedule, tick, from) <= schedule.len(),
        forall|i: int|
            0 <= from <= i < scan_high(schedule, tick, from) ==> #[trigger] schedule[i] <= tick,
        0 <= scan_high(schedule, tick, from) < schedule.len() ==> schedule[scan_high(
            schedule,
            tick,
            from,
        )] > tick,
    decreases schedule.len() - from,
{
    if 0 <= from < schedule.len() && schedule[from] <= tick {
        lemma_scan_high_bounds(schedule, tick, from + 1);
    }
}

/// Moving `low` on never moves it back; it passes only entries that have
/// run out, and it stays before `high` unless it started at or past it.
pub proof fn lemma_scan_low_bounds(
    schedule: Seq<u64>,
    length: nat,
    tick: u64,
    high: int,
    from: int,
)
    ensures
        from <= scan_low(schedule, length, tick, high, from),
        from < high ==> scan_low(schedule, length, tick, high, from) < high,
        from >= high ==> scan_low(schedule, length, tick, high, from) == from,
        forall|i: int|
            0 <= from <= i < scan_low(schedule, length, tick, high, from) ==> elapsed(
                #[trigger] schedule[i],
                length,
                tick,
            ),
    decreases high - from,
{
    if 0 <= from < schedule.len() && from + 1 < high && elapsed(schedule[from], length, tick) {
        lemma_scan_low_bounds(schedule, length, tick, high, from + 1);
    }
}

/// `high` comes to rest at the same entry from any position that only
/// started entries precede.
pub proof fn lemma_scan_high_resumes(schedule: Seq<u64>, tick: u64, from: int, at: int)
    requires
        0 <= from <= at <= schedule.len(),
        forall|i: int| from <= i < at ==> #[trigger] schedule[i] <= tick,
    ensures
        scan_high(schedule, tick, from) == scan_high(schedule, tick, at),
    decreases at - from,
{
    if from < at {
        lemma_scan_high_resumes(schedule, tick, from + 1, at);
    }
}

/// `low` comes to rest at the same entry from any position before `high`
/// that only run-out entries precede.
pub proof fn lemma_scan_low_resumes(
    schedule: Seq<u64>,
    length: nat,
    tick: u64,
    high: int,
    from: int,
    at: int,
)
    requires
        0 <= from <= at <= schedule.len(),
        at == from || at < high,
        forall|i: int| from <= i < at ==> elapsed(#[trigger] schedule[i], length, tick),
    ensures
        scan_low(schedule, length, tick, high, from) == scan_low(schedule, length, tick, high, at),
    decreases at - from,
{
    if from < at {
        lemma_scan_low_resumes(schedule, length, tick, high, from + 1, at);
    }
}

/// A window that may be moved on to `tick` comes to rest where a scan from
/// nothing does.
pub proof fn lemma_advance_from_behind(
    schedule: Seq<u64>,
    length: nat,
    window: (int, int),
    tick: u64,
)
    requires
        behind(schedule, length, window, tick),
    ensures
        advance(schedule, length, window, tick) == rescan(schedule, length, tick),
{
    lemma_scan_high_resumes(schedule, tick, 0, window.1);
    let high = scan_high(schedule, tick, window.1);
    lemma_scan_high_bounds(schedule, tick, window.1);
    lemma_scan_low_resumes(schedule, length, tick, high, 0, window.0);
}

/// The window found at `tick` may be moved on to any later tick.
pub proof fn lemma_rescan_is_behind(schedule: Seq<u64>, length: nat, tick: u64, later: u64)
    requires
        tick <= later,
    ensures
        behind(schedule, length, rescan(schedule, length, tick), later),
{
    let high = scan_high(schedule, tick, 0);
    lemma_scan_high_bounds(schedule, tick, 0);
    lemma_scan_low_bounds(schedule, length, tick, high, 0);
}

/// The window that is moved on from tick to tick is the window that a scan
/// from nothing finds: for ticks `earlier <= tick`, moving the window of
/// `earlier` on to `tick` gives the window of `tick`.
pub proof fn lemma_incremental_window_is_rescan(
    schedule: Seq<u64>,
    length: nat,
    earlier: u64,
    tick: u64,
)
    requires
        earlier <= tick,
    ensures
        advance(schedule, length, rescan(schedule, length, earlier), tick) == rescan(
            schedule,
            length,
            tick,
        ),
{
    lemma_rescan_is_behind(schedule, length, earlier, tick);
    lemma_advance_from_behind(schedule, length, rescan(schedule, length, earlier), tick);
}

/// The window after it was moved on to each tick of `ticks` in turn,
/// starting from nothing.
pub open spec fn advance_through(schedule: Seq<u64>, length: nat, ticks: Seq<u64>) -> (int, int)
    decreases ticks.len(),
{
    if ticks.len() == 0 {
        (0, 0)
    } else {
        advance(
            schedule,
            length,
            advance_through(schedule, length, ticks.drop_last()),
            ticks.last(),
        )
    }
}

/// For any sequence of ticks that never goes back, the window that was
/// moved on from tick to tick is the window that a scan from nothing finds
/// at the last of them.
pub proof fn lemma_window_through_ticks(schedule: Seq<u64>, length: nat, ticks: Seq<u64>)
    requires
        ticks.len() > 0,
        forall|i: int, j: int| 0 <= i <= j < ticks.len() ==> ticks[i] <= ticks[j],
    ensures
        advance_through(schedule, length, ticks) == rescan(schedule, length, ticks.last()),
    decreases ticks.len(),
{
    let earlier = ticks.drop_last();
    if earlier.len() == 0 {
        assert(advance_through(schedule, length, earlier) == (0int, 0int));
    } else {
        lemma_window_through_ticks(schedule, length, earlier);
        assert(earlier.last() == ticks[ticks.len() - 2]);
        lemma_incremental_window_is_rescan(schedule, length, earlier.last(), ticks.last());
    }
}

/// The window never moves back: for ticks `earlier <= tick`, neither end of
/// the window of `tick` lies before that end of the window of `earlier`.
/// Both ends stay inside the schedule, `low` at or before `high`.
pub proof fn lemma_window_never_regresses(
    schedule: Seq<u64>,
    length: nat,
    earlier: u64,
    tick: u64,
)
    requires
        earlier <= tick,
    ensures
        rescan(schedule, length, earlier).0 <= rescan(schedule, length, tick).0,
        rescan(schedule, length, earlier).1 <= rescan(schedule, length, tick).1,
        0 <= rescan(schedule, length, tick).0 <= rescan(schedule, length, tick).1
            <= schedule.len(),
{
    lemma_incremental_window_is_rescan(schedule, length, earlier, tick);
    let before = rescan(schedule, length, earlier);
    let high = scan_high(schedule, tick, before.1);
    lemma_scan_high_bounds(schedule, tick, before.1);
    lemma_scan_low_bounds(schedule, length, tick, high, before.0);
    lemma_rescan_is_behind(schedule, length, tick, tick);
}

/// What the window of an ascending schedule means at `tick`: the entries
/// before `high` are those that have started; the entries before `low` have
/// run out; and `low` rests on an entry that has not run out, or on the last
/// entry before `high`.
pub proof fn lemma_window_meaning(schedule: Seq<u64>, length: nat, tick: u64)
    requires
        sorted(schedule),
    ensures
        ({
            let (low, high) = rescan(schedule, length, tick);
            &&& 0 <= low <= high <= schedule.len()
            &&& forall|i: int| 0 <= i < schedule.len() ==> (i < high <==> #[trigger] schedule[i] <= tick)
            &&& forall|i: int| 0 <= i < low ==> elapsed(#[trigger] schedule[i], length, tick)
            &&& low + 1 < high ==> !elapsed(schedule[low], length, tick)
        }),
{
    let high = scan_high(schedule, tick, 0);
    lemma_scan_high_bounds(schedule, tick, 0);
    lemma_scan_low_bounds(schedule, length, tick, high, 0);
    lemma_scan_low_stops(schedule, length, tick, high, 0);
    assert forall|i: int| 0 <= i < schedule.len() implies (i < high <==> #[trigger] schedule[i]
        <= tick) by {
        if i >= high {
            assert(schedule[high] <= schedule[i]);
        }
    }
}

/// Where `low` comes to rest before the last started entry, that entry has
/// not run out.
proof fn lemma_scan_low_stops(schedule: Seq<u64>, length: nat, tick: u64, high: int, from: int)
    requires
        0 <= from,
        high <= schedule.len(),
    ensures
        scan_low(schedule, length, tick, high, from) + 1 < high ==> !elapsed(
            schedule[scan_low(schedule, length, tick, high, from)],
            length,
            tick,
        ),
    decreases high - from,
{
    if 0 <= from < schedule.len() && from + 1 < high && elapsed(schedule[from], length, tick) {
        lemma_scan_low_stops(schedule, length, tick, high, from + 1);
    }
}

/// Folding what the window's entries contribute gives what folding the
/// contributions of the whole schedule gives: an entry outside the window of
/// an ascending schedule adds silence.
pub proof fn lemma_window_holds_all_that_sounds(
    acc: Sample,
    source: Seq<Sample>,
    schedule: Seq<u64>,
    tick: u64,
)
    requires
        sorted(schedule),
    ensures
        ({
            let (low, high) = rescan(schedule, source.len(), tick);
            sat_fold(acc, contributions(source, schedule, low, high, tick)) == sat_fold(
                acc,
                contributions(source, schedule, 0, schedule.len() as int, tick),
            )
        }),
{
    let (low, high) = rescan(schedule, source.len(), tick);
    let len = schedule.len() as int;
    lemma_window_meaning(schedule, source.len(), tick);
    let before = contributions(source, schedule, 0, low, tick);
    let inside = contributions(source, schedule, low, high, tick);
    let after = contributions(source, schedule, high, len, tick);
    assert(contributions(source, schedule, 0, len, tick) =~= before + inside + after);
    assert forall|i: int| 0 <= i < before.len() implies before[i] == SILENCE by {
        assert(elapsed(schedule[i], source.len(), tick));
    }
    assert forall|i: int| 0 <= i < after.len() implies after[i] == SILENCE by {
        assert(!(schedule[high + i] <= tick));
    }
    lemma_fold_silence(acc, before);
    lemma_fold_concat(acc, before, inside);
    lemma_fold_silence(sat_fold(acc, inside), after);
    lemma_fold_concat(acc, before + inside, after);
}

} // verus!
