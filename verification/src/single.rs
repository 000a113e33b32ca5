//! The scheduler of one sound.
//!
//! A [`SingleSourceScheduler`] owns the samples of one sound and the
//! ascending list of ticks at which that sound starts. Every call of
//! [`SingleSourceScheduler::next`] is one tick: it yields the mix of what the
//! scheduled starts contribute at that tick.

use vstd::prelude::*;
use crate::sample::{Sample, SILENCE, sat_fold};
use crate::simd::{Kernel, retrieve_and_mix_samples_with, retrieved_mix, contributions};
use crate::window::{sorted, behind, rescan, advance, scan_high, advance_window, rescan_window};
use crate::window::{
    lemma_advance_from_behind,
    lemma_rescan_is_behind,
    lemma_scan_high_bounds,
    lemma_scan_low_bounds,
    lemma_window_holds_all_that_sounds,
};

verus! {

/// A request to play a sound at a given time.
pub struct PlaybackEvent {
    /// The identifier of the sound to be played.
    pub source_id: usize,
    /// The time at which the sound starts, in samples of one channel.
    pub timestamp: u64,
    /// The period, in samples of one channel, and the number of starts, for
    /// a sound that is to start more than once.
    pub repeat: Option<(u64, u64)>,
}

impl PlaybackEvent {
    /// The number of starts that the event asks for.
    pub open spec fn count(self) -> nat {
        match self.repeat {
            Some((_, count)) => count as nat,
            None => 1,
        }
    }

    /// The time between two starts, in samples of one channel.
    pub open spec fn period(self) -> nat {
        match self.repeat {
            Some((period, _)) => period as nat,
            None => 0,
        }
    }

    /// The tick of start number `k`, for a stream of `channels` channels.
    pub open spec fn offset(self, channels: u16, k: int) -> int {
        (self.timestamp + k * self.period()) * channels
    }

    /// Whether the tick of every start can be held in 64 bits.
    pub open spec fn fits(self, channels: u16) -> bool {
        forall|k: int| 0 <= k < self.count() ==> #[trigger] self.offset(channels, k) <= u64::MAX
    }

    /// The ticks of all the starts, first start first.
    pub open spec fn entries(self, channels: u16) -> Seq<u64> {
        Seq::new(self.count(), |k: int| self.offset(channels, k) as u64)
    }

    /// A later start has a later tick, or the same.
    pub proof fn lemma_offsets_ascend(self, channels: u16, j: int, k: int)
        requires
            0 <= j <= k,
        ensures
            0 <= self.offset(channels, j) <= self.offset(channels, k),
    {
        let t = self.timestamp as int;
        let p = self.period() as int;
        let c = channels as int;
        assert(0 <= (t + j * p) * c <= (t + k * p) * c) by (nonlinear_arith)
            requires
                0 <= j <= k,
                0 <= t,
                0 <= p,
                0 <= c,
        ;
    }
}

/// Why a seek was refused.
#[derive(Debug, Clone, Copy, PartialEq, Eq, Structural)]
pub enum SeekError {
    /// The sample rate is zero, or so high that a sample lasts less than a
    /// nanosecond.
    UnsupportedRate,
    /// The tick of the position cannot be held in 64 bits.
    OutOfRange,
}

/// The tick that a position of `secs` seconds and `subsec_nanos` nanoseconds
/// stands for, in a stream of `channels` channels at `sample_rate`: whole
/// samples only, a sample lasting a whole number of nanoseconds.
pub open spec fn seek_target(secs: u64, subsec_nanos: u32, sample_rate: u32, channels: u16) -> int
    recommends
        0 < sample_rate <= 1_000_000_000,
{
    (secs * sample_rate + (subsec_nanos as int) / (1_000_000_000int / (sample_rate as int)))
        * channels
}

/// `tick`, or the largest `usize` where `tick` is larger.
pub open spec fn clip_to_usize(tick: u64) -> int {
    if tick > usize::MAX {
        usize::MAX as int
    } else {
        tick as int
    }
}

/// Puts `entry` into the ascending `schedule`, behind the entries that are
/// not larger.
fn insert_sorted(schedule: &mut Vec<u64>, entry: u64)
    requires
        sorted(old(schedule)@),
    ensures
        sorted(final(schedule)@),
        final(schedule)@.len() == old(schedule)@.len() + 1,
        final(schedule)@.to_multiset() =~= old(schedule)@.to_multiset().insert(entry),
{
    let mut at: usize = schedule.len();
    while at > 0 && schedule[at - 1] > entry
        invariant
            0 <= at <= schedule@.len(),
            schedule@ == old(schedule)@,
            forall|i: int| at <= i < schedule@.len() ==> #[trigger] schedule@[i] > entry,
        decreases at,
    {
        at -= 1;
    }
    schedule.insert(at, entry);
    proof {
        let before = old(schedule)@;
        let after = schedule@;
        assert(after.remove(at as int) =~= before);
        vstd::seq_lib::to_multiset_remove(after, at as int);
        assert(after.contains(entry)) by {
            assert(after[at as int] == entry);
        }
        after.to_multiset_ensures();
        assert(after.to_multiset().count(entry) > 0);
        assert forall|i: int, j: int| 0 <= i <= j < after.len() implies after[i] <= after[j] by {
            if i < at && j > at {
                assert(before[i] <= before[j - 1]);
            } else if i < at && j < at {
                assert(before[i] <= before[j]);
            } else if i > at {
                assert(before[i - 1] <= before[j - 1]);
            } else if i < at && j == at {
                assert(before[i] <= before[at - 1]);
            }
        }
    }
}

/// What a [`SingleSourceScheduler`] holds.
pub struct SourceView {
    /// The samples of the sound, channel-interleaved.
    pub buffer: Seq<Sample>,
    /// The ticks at which the sound starts.
    pub schedule: Seq<u64>,
    /// The active window, as positions in the schedule.
    pub window: (int, int),
    /// The number of ticks processed so far.
    pub ticks: u64,
    /// The number of channels.
    pub channels: u16,
    /// The number of samples of one channel per second.
    pub sample_rate: u32,
    /// The form of the kernel that the ticks use.
    pub kernel: Kernel,
}

/// Schedules the starts of one sound, which it holds in memory.
pub struct SingleSourceScheduler {
    source: Vec<Sample>,
    channels: u16,
    sample_rate: u32,
    playback_schedule: Vec<u64>,
    playback_position: (usize, usize),
    samples_counted: u64,
    kernel: Kernel,
}

impl View for SingleSourceScheduler {
    type V = SourceView;

    closed spec fn view(&self) -> SourceView {
        SourceView {
            buffer: self.source@,
            schedule: self.playback_schedule@,
            window: (self.playback_position.0 as int, self.playback_position.1 as int),
            ticks: self.samples_counted,
            channels: self.channels,
            sample_rate: self.sample_rate,
            kernel: self.kernel,
        }
    }
}

impl SourceView {
    /// Whether the schedule ascends and the window may be moved on to the
    /// next tick.
    pub open spec fn valid(self) -> bool {
        &&& sorted(self.schedule)
        &&& behind(self.schedule, self.buffer.len(), self.window, self.ticks)
    }

    /// The sample that the next tick yields.
    pub open spec fn output(self) -> Option<Sample> {
        let window = rescan(self.schedule, self.buffer.len(), self.ticks);
        retrieved_mix(self.buffer, self.schedule, window.0, window.1, self.ticks)
    }

    /// What is held after the next tick.
    pub open spec fn ticked(self) -> SourceView {
        SourceView {
            window: rescan(self.schedule, self.buffer.len(), self.ticks),
            ticks: (self.ticks + 1) as u64,
            ..self
        }
    }

    /// The samples that the next `n` ticks yield, first tick first.
    pub open spec fn outputs(self, n: nat) -> Seq<Option<Sample>>
        decreases n,
    {
        if n == 0 {
            Seq::empty()
        } else {
            seq![self.output()] + self.ticked().outputs((n - 1) as nat)
        }
    }

    /// The same sound with the same schedule yields the same samples from
    /// the same tick on, tick after tick, wherever the window of either
    /// rested before.
    pub proof fn lemma_deterministic(self, other: SourceView, n: nat)
        requires
            self.buffer == other.buffer,
            self.schedule == other.schedule,
            self.ticks == other.ticks,
        ensures
            self.outputs(n) == other.outputs(n),
        decreases n,
    {
        if n > 0 {
            self.ticked().lemma_deterministic(other.ticked(), (n - 1) as nat);
        }
    }

    /// A tick keeps what is held valid, moves the window forward only, and
    /// leaves it where a scan from nothing finds it.
    pub proof fn lemma_tick_keeps_valid(self)
        requires
            self.valid(),
            self.ticks < u64::MAX,
        ensures
            self.ticked().valid(),
            self.ticked().window == advance(
                self.schedule,
                self.buffer.len(),
                self.window,
                self.ticks,
            ),
            self.window.0 <= self.ticked().window.0,
            self.window.1 <= self.ticked().window.1,
    {
        lemma_advance_from_behind(self.schedule, self.buffer.len(), self.window, self.ticks);
        lemma_rescan_is_behind(
            self.schedule,
            self.buffer.len(),
            self.ticks,
            (self.ticks + 1) as u64,
        );
        lemma_scan_high_bounds(self.schedule, self.ticks, self.window.1);
        lemma_scan_low_bounds(
            self.schedule,
            self.buffer.len(),
            self.ticks,
            scan_high(self.schedule, self.ticks, self.window.1),
            self.window.0,
        );
    }

    /// The sample of a tick is the mix of what every entry of the schedule
    /// contributes at that tick: the window leaves out only entries that
    /// add silence.
    pub proof fn lemma_output_is_full_mix(self)
        requires
            sorted(self.schedule),
        ensures
            self.output() == (if self.schedule.len() == 0 {
                None
            } else {
                Some(
                    sat_fold(
                        SILENCE,
                        contributions(
                            self.buffer,
                            self.schedule,
                            0,
                            self.schedule.len() as int,
                            self.ticks,
                        ),
                    ),
                )
            }),
    {
        let window = rescan(self.schedule, self.buffer.len(), self.ticks);
        lemma_window_holds_all_that_sounds(SILENCE, self.buffer, self.schedule, self.ticks);
        if window.0 == window.1 {
            assert(contributions(self.buffer, self.schedule, window.0, window.1, self.ticks)
                =~= Seq::empty());
        }
    }
}

impl SingleSourceScheduler {
    #[verifier::type_invariant]
    spec fn inv(&self) -> bool {
        self@.valid()
    }

    /// A scheduler for the sound whose samples are `source`, with nothing
    /// scheduled and no tick processed. Its ticks use the scalar form of
    /// the kernel.
    pub fn new(source: Vec<Sample>, sample_rate: u32, channels: u16) -> (scheduler:
        SingleSourceScheduler)
        ensures
            scheduler@ == (SourceView {
                buffer: source@,
                schedule: Seq::empty(),
                window: (0, 0),
                ticks: 0,
                channels,
                sample_rate,
                kernel: Kernel::Scalar,
            }),
            scheduler@.valid(),
    {
        SingleSourceScheduler {
            source,
            channels,
            sample_rate,
            playback_schedule: Vec::with_capacity(1000),
            playback_position: (0, 0),
            samples_counted: 0,
            kernel: Kernel::Scalar,
        }
    }

    /// Chooses the form of the kernel that the ticks to come use. The
    /// samples that they yield stay the same.
    pub fn use_kernel(&mut self, kernel: Kernel)
        ensures
            final(self)@ == (SourceView { kernel, ..old(self)@ }),
            final(self)@.valid(),
    {
        proof {
            use_type_invariant(&*self);
        }
        self.kernel = kernel;
    }

    /// The number of channels.
    pub fn channels(&self) -> (channels: u16)
        ensures
            channels == self@.channels,
    {
        self.channels
    }

    /// The number of samples of one channel per second.
    pub fn sample_rate(&self) -> (sample_rate: u32)
        ensures
            sample_rate == self@.sample_rate,
    {
        self.sample_rate
    }

    /// The samples of the sound.
    pub fn source(&self) -> (source: &Vec<Sample>)
        ensures
            source@ == self@.buffer,
    {
        &self.source
    }

    /// The number of ticks processed so far.
    pub fn samples_counted(&self) -> (ticks: u64)
        ensures
            ticks == self@.ticks,
    {
        self.samples_counted
    }

    /// The active window, as positions in the schedule.
    pub fn playback_position(&self) -> (window: (usize, usize))
        ensures
            (window.0 as int, window.1 as int) == self@.window,
    {
        self.playback_position
    }

    /// The ticks at which the sound starts, in ascending order.
    pub fn playback_schedule(&self) -> (schedule: &Vec<u64>)
        ensures
            schedule@ == self@.schedule,
            sorted(schedule@),
    {
        proof {
            use_type_invariant(self);
        }
        &self.playback_schedule
    }

    /// A lower bound on the number of ticks that yield a sample: the last
    /// start, held to the range of `usize`, plus the length of the sound.
    /// There is no upper bound.
    pub fn size_hint(&self) -> (hint: (usize, Option<usize>))
        requires
            self@.schedule.len() > 0,
            clip_to_usize(self@.schedule.last()) + self@.buffer.len() <= usize::MAX,
        ensures
            hint.0 == clip_to_usize(self@.schedule.last()) + self@.buffer.len(),
            hint.1 is None,
    {
        let last: u64 = self.playback_schedule[self.playback_schedule.len() - 1];
        let last_element: usize = if last > usize::MAX as u64 {
            usize::MAX
        } else {
            last as usize
        };
        (last_element + self.source.len(), None)
    }

    /// Whether the schedule can take `event`: the tick of each of its starts
    /// can be held in 64 bits.
    pub fn can_schedule(&self, event: &PlaybackEvent) -> (ok: bool)
        ensures
            ok == event.fits(self@.channels),
    {
        let (period, count): (u64, u64) = match event.repeat {
            Some((period, count)) => (period, count),
            None => (0, 1),
        };
        if count == 0 || self.channels == 0 {
            assert forall|k: int| 0 <= k < event.count() implies #[trigger] event.offset(
                self@.channels,
                k,
            ) <= u64::MAX by {
                assert((event.timestamp + k * event.period()) * 0 == 0);
            }
            return true;
        }
        let steps: u128 = (count - 1) as u128;
        assert(steps * period <= 0xffff_ffff_ffff_ffff * 0xffff_ffff_ffff_ffff) by (nonlinear_arith)
            requires
                0 <= steps <= 0xffff_ffff_ffff_ffff,
                0 <= period <= 0xffff_ffff_ffff_ffff,
        ;
        let last: u128 = event.timestamp as u128 + steps * (period as u128);
        let limit: u128 = (u64::MAX / (self.channels as u64)) as u128;
        let ok: bool = last <= limit;
        proof {
            let c = self.channels as int;
            let top = u64::MAX as int;
            assert(event.offset(self@.channels, count - 1) == last * c);
            assert(last <= top / c <==> last * c <= top) by (nonlinear_arith)
                requires
                    c > 0,
                    last >= 0,
            ;
            if ok {
                assert forall|k: int| 0 <= k < event.count() implies #[trigger] event.offset(
                    self@.channels,
                    k,
                ) <= u64::MAX by {
                    event.lemma_offsets_ascend(self@.channels, k, count - 1);
                }
            }
        }
        ok
    }

    /// Adds the starts of `event` to the schedule and keeps it ascending.
    ///
    /// A start at time `t` of one channel goes to tick `t * channels`; start
    /// number `k` of a repeated event lies `k` periods after the first. The
    /// entries that were scheduled before all stay. The window is found
    /// again for the tick that comes next.
    pub fn schedule_event(&mut self, event: PlaybackEvent)
        requires
            event.fits(old(self)@.channels),
        ensures
            sorted(final(self)@.schedule),
            final(self)@.schedule.len() == old(self)@.schedule.len() + event.count(),
            final(self)@.schedule.to_multiset() =~= old(self)@.schedule.to_multiset().add(
                event.entries(old(self)@.channels).to_multiset(),
            ),
            final(self)@ == (SourceView {
                schedule: final(self)@.schedule,
                window: rescan(final(self)@.schedule, old(self)@.buffer.len(), old(self)@.ticks),
                ..old(self)@
            }),
            final(self)@.valid(),
    {
        proof {
            use_type_invariant(&*self);
        }
        let ghost entries = event.entries(self@.channels);
        let ghost before = self@.schedule;
        let (period, count): (u64, u64) = match event.repeat {
            Some((period, count)) => (period, count),
            None => (0, 1),
        };
        let channels: u16 = self.channels;
        // The window is set back while the schedule is away.
        self.playback_position = (0, 0);
        let mut schedule: Vec<u64> = Vec::new();
        std::mem::swap(&mut self.playback_schedule, &mut schedule);
        let mut k: u64 = 0;
        proof {
            let none = entries.take(0);
            none.to_multiset_ensures();
            vstd::multiset::lemma_multiset_empty_len(none.to_multiset());
            assert(before.to_multiset().add(none.to_multiset()) =~= before.to_multiset());
        }
        while k < count
            invariant
                0 <= k <= count == event.count(),
                period == event.period(),
                event.fits(channels),
                entries == event.entries(channels),
                sorted(schedule@),
                schedule@.len() == before.len() + k,
                schedule@.to_multiset() =~= before.to_multiset().add(
                    entries.take(k as int).to_multiset(),
                ),
            decreases count - k,
        {
            let offset: u64 = if channels == 0 {
                assert((event.timestamp + k * event.period()) * 0 == 0);
                0
            } else {
                assert(k * period <= 0xffff_ffff_ffff_ffff * 0xffff_ffff_ffff_ffff)
                    by (nonlinear_arith)
                    requires
                        0 <= k <= 0xffff_ffff_ffff_ffff,
                        0 <= period <= 0xffff_ffff_ffff_ffff,
                ;
                let base: u128 = event.timestamp as u128 + (k as u128) * (period as u128);
                proof {
                    let c = channels as int;
                    assert(event.offset(channels, k as int) == base * c);
                    assert(base <= base * c) by (nonlinear_arith)
                        requires
                            c >= 1,
                            base >= 0,
                    ;
                }
                (base as u64) * (channels as u64)
            };
            assert(offset == entries[k as int]);
            insert_sorted(&mut schedule, offset);
            proof {
                assert(entries.take(k + 1) =~= entries.take(k as int).push(offset));
                vstd::seq_lib::to_multiset_build(entries.take(k as int), offset);
            }
            k += 1;
        }
        assert(entries.take(count as int) =~= entries);
        std::mem::swap(&mut self.playback_schedule, &mut schedule);
        proof {
            lemma_rescan_is_behind(
                self.playback_schedule@,
                self.source@.len(),
                self.samples_counted,
                self.samples_counted,
            );
        }
        self.playback_position = rescan_window(
            self.playback_schedule.as_slice(),
            self.source.len(),
            self.samples_counted,
        );
    }

    /// Moves to the tick of the position `secs` seconds and `subsec_nanos`
    /// nanoseconds, and finds the window again for that tick.
    ///
    /// The seek is refused, and nothing changes, when the sample rate is
    /// zero or above a thousand million, or when the tick cannot be held in
    /// 64 bits.
    pub fn try_seek(&mut self, secs: u64, subsec_nanos: u32) -> (done: Result<(), SeekError>)
        ensures
            !(0 < old(self)@.sample_rate <= 1_000_000_000) ==> done == Err::<(), SeekError>(
                SeekError::UnsupportedRate,
            ),
            0 < old(self)@.sample_rate <= 1_000_000_000 && seek_target(
                secs,
                subsec_nanos,
                old(self)@.sample_rate,
                old(self)@.channels,
            ) > u64::MAX ==> done == Err::<(), SeekError>(SeekError::OutOfRange),
            0 < old(self)@.sample_rate <= 1_000_000_000 && seek_target(
                secs,
                subsec_nanos,
                old(self)@.sample_rate,
                old(self)@.channels,
            ) <= u64::MAX ==> done is Ok,
            done is Err ==> final(self)@ == old(self)@,
            done is Ok ==> final(self)@ == (SourceView {
                ticks: seek_target(
                    secs,
                    subsec_nanos,
                    old(self)@.sample_rate,
                    old(self)@.channels,
                ) as u64,
                window: rescan(
                    old(self)@.schedule,
                    old(self)@.buffer.len(),
                    seek_target(
                        secs,
                        subsec_nanos,
                        old(self)@.sample_rate,
                        old(self)@.channels,
                    ) as u64,
                ),
                ..old(self)@
            }),
            final(self)@.valid(),
    {
        proof {
            use_type_invariant(&*self);
        }
        if self.sample_rate == 0 || self.sample_rate > 1_000_000_000 {
            return Err(SeekError::UnsupportedRate);
        }
        let nanos_per_sample: u32 = 1_000_000_000 / self.sample_rate;
        assert(nanos_per_sample >= 1) by (nonlinear_arith)
            requires
                0 < self.sample_rate <= 1_000_000_000,
                nanos_per_sample == 1_000_000_000int / (self.sample_rate as int),
        ;
        let samples_nanos: u32 = subsec_nanos / nanos_per_sample;
        assert(secs * self.sample_rate <= 0xffff_ffff_ffff_ffff * 0xffff_ffff) by (nonlinear_arith)
            requires
                0 <= secs <= 0xffff_ffff_ffff_ffff,
                0 <= self.sample_rate <= 0xffff_ffff,
        ;
        let samples: u128 = (secs as u128) * (self.sample_rate as u128) + (samples_nanos as u128);
        assert(samples * self.channels <= (0xffff_ffff_ffff_ffff * 0xffff_ffff + 0xffff_ffff)
            * 0xffff) by (nonlinear_arith)
            requires
                0 <= samples <= 0xffff_ffff_ffff_ffff * 0xffff_ffff + 0xffff_ffff,
                0 <= self.channels <= 0xffff,
        ;
        let target: u128 = samples * (self.channels as u128);
        if target > u64::MAX as u128 {
            return Err(SeekError::OutOfRange);
        }
        let tick: u64 = target as u64;
        proof {
            lemma_rescan_is_behind(self.playback_schedule@, self.source@.len(), tick, tick);
        }
        let window = rescan_window(self.playback_schedule.as_slice(), self.source.len(), tick);
        self.playback_position = (0, 0);
        self.samples_counted = tick;
        self.playback_position = window;
        Ok(())
    }

    /// Processes one tick: moves the window on to it, and yields the mix of
    /// what the entries of the window contribute.
    ///
    /// The sample is absent exactly when the schedule is empty.
    pub fn next(&mut self) -> (sample: Option<Sample>)
        requires
            old(self)@.ticks < u64::MAX,
        ensures
            sample == old(self)@.output(),
            final(self)@ == old(self)@.ticked(),
            final(self)@.valid(),
    {
        proof {
            use_type_invariant(&*self);
            lemma_advance_from_behind(
                self@.schedule,
                self@.buffer.len(),
                self@.window,
                self@.ticks,
            );
            lemma_rescan_is_behind(
                self@.schedule,
                self@.buffer.len(),
                self@.ticks,
                (self@.ticks + 1) as u64,
            );
            lemma_rescan_is_behind(self@.schedule, self@.buffer.len(), self@.ticks, self@.ticks);
        }
        let s: u64 = self.samples_counted;
        let window = advance_window(
            self.playback_schedule.as_slice(),
            self.source.len(),
            self.playback_position,
            s,
        );
        self.playback_position = window;
        self.samples_counted = s + 1;
        retrieve_and_mix_samples_with(
            self.kernel,
            self.source.as_slice(),
            self.playback_schedule.as_slice(),
            window,
            s,
        )
    }
}

} // verus!
