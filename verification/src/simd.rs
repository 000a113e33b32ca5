//! The retrieval and mix kernel.
//!
//! Given a buffered sound, the sorted list of offsets at which it starts and
//! the current tick, the kernel gathers what each scheduled start contributes
//! to that tick and folds the contributions into one sample. The scalar form
//! visits the entries one by one. The lane form takes them in groups of a
//! fixed size and silences, by a mask, the lanes that add nothing. Both forms
//! fold in schedule order, so both give the same sample.

use vstd::prelude::*;
use crate::sample::{
    Sample,
    SILENCE,
    sat_fold,
    mix,
    saturating_add,
    lemma_fold_push,
    lemma_fold_concat,
    lemma_fold_silence,
};
use crate::simd_utils::{
    SimdIter,
    SimdIterator,
    chunks_from,
    gather_select_or_checked_u64,
    splat,
};

verus! {

/// What a sound that started at `start` contributes at `tick`: the sample at
/// offset `tick - start`, or silence when it has not started or has run out.
pub open spec fn contribution(source: Seq<Sample>, start: u64, tick: u64) -> Sample {
    if start <= tick && tick - start < source.len() {
        source[tick - start]
    } else {
        SILENCE
    }
}

/// The contributions of the schedule entries `low..high` at `tick`, in
/// schedule order.
pub open spec fn contributions(
    source: Seq<Sample>,
    schedule: Seq<u64>,
    low: int,
    high: int,
    tick: u64,
) -> Seq<Sample> {
    Seq::new((high - low) as nat, |i: int| contribution(source, schedule[low + i], tick))
}

/// Whether `window` can be used to cut entries out of `schedule`: it is an
/// ordered pair of positions inside the schedule, or it is empty.
pub open spec fn window_fits(schedule: Seq<u64>, low: int, high: int) -> bool {
    schedule.len() == 0 || low == high || 0 <= low <= high <= schedule.len()
}

/// The contributions that a retrieval yields: nothing for an empty schedule
/// or an empty window, else one value per entry of the window.
pub open spec fn retrieved(
    source: Seq<Sample>,
    schedule: Seq<u64>,
    low: int,
    high: int,
    tick: u64,
) -> Seq<Sample> {
    if schedule.len() == 0 || low == high {
        Seq::empty()
    } else {
        contributions(source, schedule, low, high, tick)
    }
}

/// The sample that a sound yields at `tick`: absent when nothing was ever
/// scheduled, else the saturating sum of what the window contributes.
pub open spec fn retrieved_mix(
    source: Seq<Sample>,
    schedule: Seq<u64>,
    low: int,
    high: int,
    tick: u64,
) -> Option<Sample> {
    if schedule.len() == 0 {
        None
    } else {
        Some(sat_fold(SILENCE, retrieved(source, schedule, low, high, tick)))
    }
}

/// A non-empty schedule of which no entry of the window sounds at `tick`,
/// because it has not started or has run out, yields silence, not nothing.
pub proof fn lemma_nothing_sounding(
    source: Seq<Sample>,
    schedule: Seq<u64>,
    low: int,
    high: int,
    tick: u64,
)
    requires
        schedule.len() > 0,
        window_fits(schedule, low, high),
        forall|i: int|
            low <= i < high ==> #[trigger] schedule[i] > tick || tick - schedule[i] >= source.len(),
    ensures
        retrieved_mix(source, schedule, low, high, tick) == Some(SILENCE),
{
    let values = retrieved(source, schedule, low, high, tick);
    assert forall|i: int| 0 <= i < values.len() implies values[i] == SILENCE by {
        let start = schedule[low + i];
        assert(start > tick || tick - start >= source.len());
    }
    lemma_fold_silence(SILENCE, values);
}

/// Reads what one schedule entry contributes at `sample_n`.
fn contribution_at(source: &[Sample], timestamp: u64, sample_n: u64) -> (r: Sample)
    ensures
        r == contribution(source@, timestamp, sample_n),
{
    if timestamp > sample_n {
        return SILENCE;
    }
    let offset: u64 = sample_n - timestamp;
    if offset >= source.len() as u64 {
        return SILENCE;
    }
    source[offset as usize]
}

/// Gathers the contributions of the window's entries at `sample_n`, one
/// value per entry, silence standing for an entry that adds nothing.
pub fn retrieve_samples_scalar(
    source: &[Sample],
    playback_schedule: &[u64],
    queue_index: (usize, usize),
    sample_n: u64,
) -> (output: Vec<Sample>)
    requires
        window_fits(playback_schedule@, queue_index.0 as int, queue_index.1 as int),
    ensures
        output@ == retrieved(
            source@,
            playback_schedule@,
            queue_index.0 as int,
            queue_index.1 as int,
            sample_n,
        ),
{
    if playback_schedule.len() == 0 || queue_index.0 == queue_index.1 {
        return Vec::new();
    }
    let mut output: Vec<Sample> = Vec::with_capacity(queue_index.1 - queue_index.0);
    let mut i: usize = queue_index.0;
    while i < queue_index.1
        invariant
            queue_index.0 <= i <= queue_index.1 <= playback_schedule.len(),
            output@ == contributions(
                source@,
                playback_schedule@,
                queue_index.0 as int,
                i as int,
                sample_n,
            ),
        decreases queue_index.1 - i,
    {
        let value = contribution_at(source, playback_schedule[i], sample_n);
        output.push(value);
        i += 1;
        assert(output@ =~= contributions(
            source@,
            playback_schedule@,
            queue_index.0 as int,
            i as int,
            sample_n,
        ));
    }
    output
}

/// Folds `samples` onto `input_sample` with saturating additions, one entry
/// after the other.
pub fn mix_samples_scalar(samples: &[Sample], input_sample: Option<Sample>) -> (mixed: Option<
    Sample,
>)
    ensures
        mixed == mix(samples@, input_sample),
{
    let n: usize = samples.len();
    if n == 0 {
        return input_sample;
    }
    let mut acc: Sample = match input_sample {
        Some(s) => s,
        None => SILENCE,
    };
    let mut i: usize = 0;
    while i < n
        invariant
            0 <= i <= n == samples.len(),
            acc == sat_fold(
                match input_sample {
                    Some(s) => s,
                    None => SILENCE,
                },
                samples@.take(i as int),
            ),
        decreases n - i,
    {
        acc = saturating_add(acc, samples[i]);
        proof {
            assert(samples@.take(i + 1) =~= samples@.take(i as int).push(samples@[i as int]));
            lemma_fold_push(
                match input_sample {
                    Some(s) => s,
                    None => SILENCE,
                },
                samples@.take(i as int),
                samples@[i as int],
            );
        }
        i += 1;
    }
    assert(samples@.take(n as int) =~= samples@);
    Some(acc)
}

/// Mixes the samples that are playing with the sample of the main stream.
///
/// The result is absent only when there is neither a playing sample nor a
/// main sample. A sum outside the representable range is held at its ends.
pub fn mix_samples(samples: &[Sample], input_sample: Option<Sample>) -> (mixed: Option<Sample>)
    ensures
        mixed == mix(samples@, input_sample),
{
    mix_samples_scalar(samples, input_sample)
}

/// Gathers and mixes, in one pass and without allocating, what the window's
/// entries contribute at `sample_n`.
///
/// The result is absent exactly when the schedule is empty. With entries in
/// the schedule and nothing playing, it is silence.
pub fn retrieve_and_mix_samples(
    source: &[Sample],
    playback_schedule: &[u64],
    queue_index: (usize, usize),
    sample_n: u64,
) -> (mixed: Option<Sample>)
    requires
        window_fits(playback_schedule@, queue_index.0 as int, queue_index.1 as int),
    ensures
        mixed == retrieved_mix(
            source@,
            playback_schedule@,
            queue_index.0 as int,
            queue_index.1 as int,
            sample_n,
        ),
        mixed is None <==> playback_schedule@.len() == 0,
{
    if playback_schedule.len() == 0 {
        return None;
    }
    if queue_index.0 == queue_index.1 {
        return Some(SILENCE);
    }
    let mut acc: Sample = SILENCE;
    let mut i: usize = queue_index.0;
    while i < queue_index.1
        invariant
            queue_index.0 <= i <= queue_index.1 <= playback_schedule.len(),
            acc == sat_fold(
                SILENCE,
                contributions(source@, playback_schedule@, queue_index.0 as int, i as int, sample_n),
            ),
        decreases queue_index.1 - i,
    {
        let value = contribution_at(source, playback_schedule[i], sample_n);
        acc = saturating_add(acc, value);
        proof {
            let before = contributions(
                source@,
                playback_schedule@,
                queue_index.0 as int,
                i as int,
                sample_n,
            );
            assert(contributions(
                source@,
                playback_schedule@,
                queue_index.0 as int,
                i + 1,
                sample_n,
            ) =~= before.push(value));
            lemma_fold_push(SILENCE, before, value);
        }
        i += 1;
    }
    Some(acc)
}

/// The number of lanes that the lane form works with.
pub const LANES: usize = 4;

/// The form of the kernel that does the work. Both give the same samples.
#[derive(Debug, Clone, Copy, PartialEq, Eq, Structural)]
pub enum Kernel {
    /// One schedule entry after the other.
    Scalar,
    /// Groups of [`LANES`] schedule entries, with masks.
    Simd,
}

/// The lanes of a group with the masked ones silenced.
pub open spec fn masked(group: (Seq<Sample>, Seq<bool>)) -> Seq<Sample> {
    Seq::new(
        group.0.len(),
        |j: int|
            if group.1[j] {
                group.0[j]
            } else {
                SILENCE
            },
    )
}

/// All the lanes of `groups` in order, the masked ones silenced.
pub open spec fn flatten_masked(groups: Seq<(Seq<Sample>, Seq<bool>)>) -> Seq<Sample>
    decreases groups.len(),
{
    if groups.len() == 0 {
        Seq::empty()
    } else {
        flatten_masked(groups.drop_last()) + masked(groups.last())
    }
}

/// What a group of schedule entries contributes at `tick`: per lane, the
/// contribution of its entry, or silence where the lane holds no entry.
/// Every lane of the result counts.
pub open spec fn gathered_group(source: Seq<Sample>, group: (Seq<u64>, Seq<bool>), tick: u64) -> (
    Seq<Sample>,
    Seq<bool>,
) {
    (
        Seq::new(
            group.0.len(),
            |j: int|
                if group.1[j] {
                    contribution(source, group.0[j], tick)
                } else {
                    SILENCE
                },
        ),
        Seq::new(group.0.len(), |j: int| true),
    )
}

/// [`gathered_group`] applied to each group of `groups`.
pub open spec fn gathered_groups(
    source: Seq<Sample>,
    groups: Seq<(Seq<u64>, Seq<bool>)>,
    tick: u64,
) -> Seq<(Seq<Sample>, Seq<bool>)> {
    Seq::new(groups.len(), |i: int| gathered_group(source, groups[i], tick))
}

/// The contributions of a window's entries, handed out in groups of `N`
/// lanes.
pub struct GatheredLanes<'a, const N: usize> {
    entries: SimdIter<'a, u64, N>,
    source: &'a [Sample],
    sample_n: u64,
}

impl<'a, const N: usize> SimdIterator<Sample, N> for GatheredLanes<'a, N> {
    closed spec fn well_formed(&self) -> bool {
        self.entries.well_formed()
    }

    closed spec fn remaining(&self) -> Seq<(Seq<Sample>, Seq<bool>)> {
        gathered_groups(self.source@, self.entries.remaining(), self.sample_n)
    }

    fn next(&mut self) -> (item: Option<([Sample; N], [bool; N])>) {
        let ghost before = self.entries.remaining();
        match self.entries.next() {
            None => None,
            Some((data, load_mask)) => {
                let mut idxs: [u64; N] = splat(0);
                let mut mask: [bool; N] = splat(false);
                let mut j: usize = 0;
                while j < N
                    invariant
                        0 <= j <= N,
                        forall|k: int|
                            0 <= k < N ==> #[trigger] mask@[k] == (k < j && load_mask@[k]
                                && data@[k] <= self.sample_n),
                        forall|k: int|
                            0 <= k < j && mask@[k] ==> #[trigger] idxs@[k] == self.sample_n
                                - data@[k],
                    decreases N - j,
                {
                    if load_mask[j] && data[j] <= self.sample_n {
                        idxs[j] = self.sample_n - data[j];
                        mask[j] = true;
                    }
                    j += 1;
                }
                let lanes = gather_select_or_checked_u64(
                    self.source,
                    idxs,
                    mask,
                    splat(SILENCE),
                );
                let all: [bool; N] = splat(true);
                proof {
                    let group = gathered_group(self.source@, before[0], self.sample_n);
                    assert(lanes@ =~= group.0);
                    assert(all@ =~= group.1);
                    assert(self.remaining() =~= gathered_groups(
                        self.source@,
                        before,
                        self.sample_n,
                    ).skip(1));
                }
                Some((lanes, all))
            },
        }
    }
}

/// Prepares the lane-wise retrieval of what the window's entries contribute
/// at `sample_n`: the result hands out the contributions in groups of `N`,
/// in schedule order, with silence in the lanes past the window's end.
pub fn retrieve_samples_simd<'a, const N: usize>(
    source: &'a [Sample],
    playback_schedule: &'a [u64],
    queue_index: (usize, usize),
    sample_n: u64,
) -> (lanes: GatheredLanes<'a, N>)
    requires
        queue_index.0 <= queue_index.1 <= playback_schedule@.len(),
    ensures
        lanes.well_formed(),
        lanes.remaining() == gathered_groups(
            source@,
            chunks_from(
                playback_schedule@.subrange(queue_index.0 as int, queue_index.1 as int),
                Seq::new(N as nat, |j: int| u64::MAX),
                0,
            ),
            sample_n,
        ),
{
    let playback_queue = vstd::slice::slice_subrange(playback_schedule, queue_index.0, queue_index.1);
    let out_of_bounds: [u64; N] = splat(u64::MAX);
    let entries: SimdIter<'a, u64, N> = SimdIter::from_slice_or(playback_queue, out_of_bounds);
    GatheredLanes { entries, source, sample_n }
}

/// Folds the lanes of one group onto `acc`, first lane first, a masked lane
/// counting as silence.
fn fold_masked_lanes<const N: usize>(acc: Sample, data: &[Sample; N], mask: &[bool; N]) -> (r:
    Sample)
    ensures
        r == sat_fold(acc, masked((data@, mask@))),
{
    let ghost lanes = masked((data@, mask@));
    let mut r: Sample = acc;
    let mut j: usize = 0;
    while j < N
        invariant
            0 <= j <= N,
            lanes == masked((data@, mask@)),
            r == sat_fold(acc, lanes.take(j as int)),
        decreases N - j,
    {
        let value: Sample = if mask[j] {
            data[j]
        } else {
            SILENCE
        };
        proof {
            assert(lanes.take(j + 1) =~= lanes.take(j as int).push(value));
            lemma_fold_push(acc, lanes.take(j as int), value);
        }
        r = saturating_add(r, value);
        j += 1;
    }
    assert(lanes.take(N as int) =~= lanes);
    r
}

/// Folds the groups that `samples` hands out onto `input_sample`, group
/// after group and lane after lane, with saturating additions. A masked lane
/// counts as silence.
///
/// The result is absent only when there is neither a group nor an input
/// sample.
pub fn mix_samples_simd<I, const N: usize>(samples: I, input_sample: Option<Sample>) -> (mixed:
    Option<Sample>) where I: SimdIterator<Sample, N>
    requires
        samples.well_formed(),
    ensures
        mixed == mix(flatten_masked(samples.remaining()), input_sample),
{
    let ghost all = samples.remaining();
    let ghost seed: Sample = match input_sample {
        Some(s) => s,
        None => SILENCE,
    };
    let mut samples = samples;
    let mut acc: Sample = match input_sample {
        Some(s) => s,
        None => SILENCE,
    };
    let mut any: bool = false;
    let mut done: bool = false;
    let ghost mut taken: int = 0;
    while !done
        invariant
            samples.well_formed(),
            0 <= taken <= all.len(),
            samples.remaining() == all.skip(taken),
            done ==> taken == all.len(),
            any == (taken > 0),
            flatten_masked(all.take(taken)).len() == taken * N,
            acc == sat_fold(seed, flatten_masked(all.take(taken))),
        decreases
            all.len() - taken,
            (if done {
                0int
            } else {
                1int
            }),
    {
        match samples.next() {
            None => {
                done = true;
            },
            Some((data, mask)) => {
                acc = fold_masked_lanes(acc, &data, &mask);
                any = true;
                proof {
                    let group = all[taken];
                    assert(all.skip(taken)[0] == group);
                    assert(data@ == group.0 && mask@ == group.1);
                    assert(masked((data@, mask@)) == masked(group));
                    assert(all.take(taken + 1).drop_last() =~= all.take(taken));
                    assert(all.take(taken + 1).last() == group);
                    lemma_fold_concat(seed, flatten_masked(all.take(taken)), masked(group));
                    assert(all.skip(taken).skip(1) =~= all.skip(taken + 1));
                    assert((taken + 1) * N == taken * N + N) by (nonlinear_arith);
                    taken = taken + 1;
                }
            },
        }
    }
    assert(all.take(taken) =~= all);
    if any && N > 0 {
        assert(taken * N > 0) by (nonlinear_arith)
            requires
                taken > 0,
                N > 0,
        ;
        Some(acc)
    } else {
        assert(taken * N == 0) by (nonlinear_arith)
            requires
                taken == 0 || N == 0,
        ;
        input_sample
    }
}

/// Folding all the lanes of a grouped sequence of entries gives what folding
/// the entries one by one gives: the lanes that fill up the last group add
/// silence.
pub proof fn lemma_grouped_fold(
    acc: Sample,
    source: Seq<Sample>,
    entries: Seq<u64>,
    or: Seq<u64>,
    pos: int,
    tick: u64,
)
    requires
        0 <= pos <= entries.len(),
        or.len() > 0,
    ensures
        sat_fold(acc, flatten_masked(gathered_groups(source, chunks_from(entries, or, pos), tick)))
            == sat_fold(acc, contributions(source, entries, pos, entries.len() as int, tick)),
    decreases entries.len() - pos,
{
    let groups = chunks_from(entries, or, pos);
    let gathered = gathered_groups(source, groups, tick);
    let len = entries.len() as int;
    if pos >= len {
        assert(gathered =~= Seq::empty());
        assert(contributions(source, entries, pos, len, tick) =~= Seq::empty());
    } else {
        let n = or.len() as int;
        let next = if pos + n <= len {
            pos + n
        } else {
            len
        };
        let rest = chunks_from(entries, or, pos + n);
        let gathered_rest = gathered_groups(source, rest, tick);
        let first = gathered_group(source, groups[0], tick);
        assert(groups.skip(1) =~= rest);
        assert(gathered =~= seq![first] + gathered_rest);
        lemma_flatten_front(first, gathered_rest);
        lemma_fold_concat(acc, masked(first), flatten_masked(gathered_rest));
        // The first group holds the entries `pos..next`, then silence.
        let head = contributions(source, entries, pos, next, tick);
        let padding = Seq::new((pos + n - next) as nat, |j: int| SILENCE);
        assert(masked(first) =~= head + padding);
        lemma_fold_concat(acc, head, padding);
        lemma_fold_silence(sat_fold(acc, head), padding);
        // The groups that follow hold the entries from `next` on.
        if pos + n <= len {
            lemma_grouped_fold(sat_fold(acc, head), source, entries, or, pos + n, tick);
        } else {
            assert(rest =~= Seq::empty());
            assert(gathered_rest =~= Seq::empty());
        }
        let tail = contributions(source, entries, next, len, tick);
        assert(contributions(source, entries, pos, len, tick) =~= head + tail);
        lemma_fold_concat(acc, head, tail);
    }
}

/// Folding all the lanes of a slice that was cut into groups gives what
/// folding the slice gives: the lanes that fill up the last group are masked.
/// The groups hold a lane exactly when the slice holds a value.
pub proof fn lemma_sliced_fold(acc: Sample, samples: Seq<Sample>, or: Seq<Sample>, pos: int)
    requires
        0 <= pos <= samples.len(),
        or.len() > 0,
    ensures
        sat_fold(acc, flatten_masked(chunks_from(samples, or, pos))) == sat_fold(
            acc,
            samples.skip(pos),
        ),
        flatten_masked(chunks_from(samples, or, pos)).len() == 0 <==> pos == samples.len(),
    decreases samples.len() - pos,
{
    let groups = chunks_from(samples, or, pos);
    let len = samples.len() as int;
    if pos >= len {
        assert(samples.skip(pos) =~= Seq::empty());
    } else {
        let n = or.len() as int;
        let next = if pos + n <= len {
            pos + n
        } else {
            len
        };
        let rest = chunks_from(samples, or, pos + n);
        let first = groups[0];
        assert(groups =~= seq![first] + rest);
        lemma_flatten_front(first, rest);
        lemma_fold_concat(acc, masked(first), flatten_masked(rest));
        let head = samples.subrange(pos, next);
        let padding = Seq::new((pos + n - next) as nat, |j: int| SILENCE);
        assert(masked(first) =~= head + padding);
        lemma_fold_concat(acc, head, padding);
        lemma_fold_silence(sat_fold(acc, head), padding);
        if pos + n <= len {
            lemma_sliced_fold(sat_fold(acc, head), samples, or, pos + n);
        } else {
            assert(rest =~= Seq::empty());
        }
        assert(samples.skip(pos) =~= head + samples.skip(next));
        lemma_fold_concat(acc, head, samples.skip(next));
    }
}

/// Mixing a slice group by group gives what mixing it value by value
/// gives.
pub proof fn lemma_lane_mix_is_scalar_mix(
    samples: Seq<Sample>,
    or: Seq<Sample>,
    input_sample: Option<Sample>,
)
    requires
        or.len() > 0,
    ensures
        mix(flatten_masked(chunks_from(samples, or, 0)), input_sample) == mix(samples, input_sample),
{
    let seed = match input_sample {
        Some(s) => s,
        None => SILENCE,
    };
    lemma_sliced_fold(seed, samples, or, 0);
    assert(samples.skip(0) =~= samples);
}

/// The lane form of [`mix_samples`]: the samples are taken in groups of
/// [`LANES`], and the lanes past the end of the last group are masked.
///
/// The result is the one that the scalar form gives.
pub fn mix_samples_in_lanes(samples: &[Sample], input_sample: Option<Sample>) -> (mixed: Option<
    Sample,
>)
    ensures
        mixed == mix(samples@, input_sample),
{
    let lanes: SimdIter<'_, Sample, LANES> = SimdIter::from_slice_or_default(samples);
    proof {
        lemma_lane_mix_is_scalar_mix(samples@, lanes.fallback(), input_sample);
    }
    mix_samples_simd::<SimdIter<'_, Sample, LANES>, LANES>(lanes, input_sample)
}

/// The lanes of a sequence of groups are the lanes of its first group, then
/// those of the groups that follow.
pub proof fn lemma_flatten_front(
    first: (Seq<Sample>, Seq<bool>),
    rest: Seq<(Seq<Sample>, Seq<bool>)>,
)
    ensures
        flatten_masked(seq![first] + rest) == masked(first) + flatten_masked(rest),
    decreases rest.len(),
{
    let all = seq![first] + rest;
    if rest.len() == 0 {
        assert(all.drop_last() =~= Seq::empty());
        assert(flatten_masked(all.drop_last()) =~= Seq::empty());
        assert(all.last() == first);
        assert(flatten_masked(all) =~= masked(first));
        assert(masked(first) + flatten_masked(rest) =~= masked(first));
    } else {
        lemma_flatten_front(first, rest.drop_last());
        assert(all.drop_last() =~= seq![first] + rest.drop_last());
        assert(all.last() == rest.last());
        assert(flatten_masked(all) =~= masked(first) + flatten_masked(rest));
    }
}

/// The lane form of [`retrieve_and_mix_samples`]: the entries of the window
/// are taken in groups of [`LANES`], and the lanes that add nothing are
/// silenced by a mask.
///
/// The result is the one that the scalar form gives.
pub fn retrieve_and_mix_samples_simd(
    source: &[Sample],
    playback_schedule: &[u64],
    queue_index: (usize, usize),
    sample_n: u64,
) -> (mixed: Option<Sample>)
    requires
        window_fits(playback_schedule@, queue_index.0 as int, queue_index.1 as int),
    ensures
        mixed == retrieved_mix(
            source@,
            playback_schedule@,
            queue_index.0 as int,
            queue_index.1 as int,
            sample_n,
        ),
        mixed is None <==> playback_schedule@.len() == 0,
{
    if playback_schedule.len() == 0 {
        return None;
    }
    if queue_index.0 == queue_index.1 {
        return Some(SILENCE);
    }
    let playing = retrieve_samples_simd::<LANES>(source, playback_schedule, queue_index, sample_n);
    proof {
        let entries = playback_schedule@.subrange(queue_index.0 as int, queue_index.1 as int);
        let or = Seq::new(LANES as nat, |j: int| u64::MAX);
        lemma_grouped_fold(SILENCE, source@, entries, or, 0, sample_n);
        assert(contributions(source@, entries, 0, entries.len() as int, sample_n) =~= contributions(
            source@,
            playback_schedule@,
            queue_index.0 as int,
            queue_index.1 as int,
            sample_n,
        ));
    }
    match mix_samples_simd::<GatheredLanes<'_, LANES>, LANES>(playing, None) {
        Some(mixed) => Some(mixed),
        None => Some(SILENCE),
    }
}

/// Gathers and mixes what the window's entries contribute at `sample_n`,
/// in the form of the kernel that `kernel` names.
pub fn retrieve_and_mix_samples_with(
    kernel: Kernel,
    source: &[Sample],
    playback_schedule: &[u64],
    queue_index: (usize, usize),
    sample_n: u64,
) -> (mixed: Option<Sample>)
    requires
        window_fits(playback_schedule@, queue_index.0 as int, queue_index.1 as int),
    ensures
        mixed == retrieved_mix(
            source@,
            playback_schedule@,
            queue_index.0 as int,
            queue_index.1 as int,
            sample_n,
        ),
        mixed is None <==> playback_schedule@.len() == 0,
{
    match kernel {
        Kernel::Scalar => retrieve_and_mix_samples(source, playback_schedule, queue_index, sample_n),
        Kernel::Simd => retrieve_and_mix_samples_simd(
            source,
            playback_schedule,
            queue_index,
            sample_n,
        ),
    }
}

} // verus!
