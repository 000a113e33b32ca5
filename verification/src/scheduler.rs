//! The composite scheduler.
//!
//! A [`Scheduler`] owns any number of scheduled sounds and mixes what they
//! yield, tick by tick, with the sample of a main stream. It counts the
//! frames that it has completed, one for every `channels` ticks, and moves a
//! shared [`SampleCounter`] on by one for each.

use vstd::prelude::*;
use std::sync::Arc;
use crate::sample::{Sample, SILENCE, mix, saturating_add, lemma_fold_push};
use crate::counter::SampleCounter;
use crate::simd::Kernel;
use crate::single::{SingleSourceScheduler, SourceView};

verus! {

/// What a [`Scheduler`] holds.
pub struct SchedulerView {
    /// The scheduled sounds, in the order in which they were added.
    pub sources: Seq<SourceView>,
    /// The number of channels.
    pub channels: u16,
    /// The number of samples of one channel per second.
    pub sample_rate: u32,
    /// The number of ticks processed of the frame that is under way.
    pub phase: u16,
    /// The number of frames completed, modulo 2^64.
    pub frames: u64,
    /// The position counter that is moved on for every completed frame.
    pub counter: Arc<SampleCounter>,
}

/// The samples that `sources` yield at their next tick, in order, the absent
/// ones left out.
pub open spec fn playing(sources: Seq<SourceView>) -> Seq<Sample>
    decreases sources.len(),
{
    if sources.len() == 0 {
        Seq::empty()
    } else {
        match sources.last().output() {
            Some(sample) => playing(sources.drop_last()).push(sample),
            None => playing(sources.drop_last()),
        }
    }
}

/// Whether the tick that follows `phase` ticks of a frame completes the
/// frame.
pub open spec fn completes_frame(phase: u16, channels: u16) -> bool {
    phase + 1 >= channels
}

impl SchedulerView {
    /// Whether every sound can process one more tick.
    pub open spec fn can_tick(self) -> bool {
        forall|i: int| 0 <= i < self.sources.len() ==> (#[trigger] self.sources[i]).ticks < u64::MAX
    }

    /// The sample that the next tick yields, given the sample of the main
    /// stream.
    pub open spec fn output(self, input_sample: Option<Sample>) -> Option<Sample> {
        mix(playing(self.sources), input_sample)
    }

    /// What is held after the next tick.
    pub open spec fn ticked(self) -> SchedulerView {
        SchedulerView {
            sources: Seq::new(self.sources.len(), |i: int| self.sources[i].ticked()),
            phase: if completes_frame(self.phase, self.channels) {
                0
            } else {
                (self.phase + 1) as u16
            },
            frames: if completes_frame(self.phase, self.channels) {
                if self.frames == u64::MAX {
                    0
                } else {
                    (self.frames + 1) as u64
                }
            } else {
                self.frames
            },
            ..self
        }
    }
}

/// Mixes scheduled sounds with a main stream.
pub struct Scheduler {
    sources: Vec<SingleSourceScheduler>,
    counter: Arc<SampleCounter>,
    sample_rate: u32,
    channels: u16,
    channel_phase: u16,
    frames: u64,
}

impl View for Scheduler {
    type V = SchedulerView;

    closed spec fn view(&self) -> SchedulerView {
        SchedulerView {
            sources: Seq::new(self.sources@.len(), |i: int| self.sources@[i]@),
            channels: self.channels,
            sample_rate: self.sample_rate,
            phase: self.channel_phase,
            frames: self.frames,
            counter: self.counter,
        }
    }
}

impl Scheduler {
    /// A scheduler without sounds, for a stream of `channels` channels at
    /// `sample_rate`. It moves `counter` on by one for every frame that it
    /// completes.
    pub fn new(counter: Arc<SampleCounter>, sample_rate: u32, channels: u16) -> (scheduler:
        Scheduler)
        ensures
            scheduler@ == (SchedulerView {
                sources: Seq::empty(),
                channels,
                sample_rate,
                phase: 0,
                frames: 0,
                counter,
            }),
    {
        let scheduler = Scheduler {
            sources: Vec::new(),
            counter,
            sample_rate,
            channels,
            channel_phase: 0,
            frames: 0,
        };
        assert(scheduler@.sources =~= Seq::empty());
        scheduler
    }

    /// As [`Scheduler::new`], with room for `capacity` sounds.
    pub fn with_capacity(
        counter: Arc<SampleCounter>,
        sample_rate: u32,
        channels: u16,
        capacity: usize,
    ) -> (scheduler: Scheduler)
        ensures
            scheduler@ == (SchedulerView {
                sources: Seq::empty(),
                channels,
                sample_rate,
                phase: 0,
                frames: 0,
                counter,
            }),
    {
        let scheduler = Scheduler {
            sources: Vec::with_capacity(capacity),
            counter,
            sample_rate,
            channels,
            channel_phase: 0,
            frames: 0,
        };
        assert(scheduler@.sources =~= Seq::empty());
        scheduler
    }

    /// The number of channels.
    pub fn channels(&self) -> (channels: u16)
        ensures
            channels == self@.channels,
    {
        self.channels
    }

    /// The number of samples of one channel per second.
    pub fn sample_rate(&self) -> (sample_rate: u32)
        ensures
            sample_rate == self@.sample_rate,
    {
        self.sample_rate
    }

    /// The number of frames completed, modulo 2^64.
    pub fn frames(&self) -> (frames: u64)
        ensures
            frames == self@.frames,
    {
        self.frames
    }

    /// The number of sounds that were added.
    pub fn source_count(&self) -> (count: usize)
        ensures
            count == self@.sources.len(),
    {
        self.sources.len()
    }

    /// Whether every sound can process one more tick.
    pub fn can_tick(&self) -> (ok: bool)
        ensures
            ok == self@.can_tick(),
    {
        let n: usize = self.sources.len();
        let mut i: usize = 0;
        while i < n
            invariant
                0 <= i <= n == self.sources@.len(),
                forall|j: int| 0 <= j < i ==> (#[trigger] self@.sources[j]).ticks < u64::MAX,
            decreases n - i,
        {
            if self.sources[i].samples_counted() == u64::MAX {
                assert(self@.sources[i as int].ticks == u64::MAX);
                return false;
            }
            i += 1;
        }
        true
    }

    /// A handle to the position counter that was given when the scheduler
    /// was made, for a thread that observes it.
    pub fn counter(&self) -> (handle: Arc<SampleCounter>)
        ensures
            handle == self@.counter,
    {
        Arc::clone(&self.counter)
    }

    /// Adds the sound whose samples are `source`, with nothing scheduled,
    /// and returns its identifier: the number of sounds added before it.
    pub fn add_source(&mut self, source: Vec<Sample>) -> (id: usize)
        ensures
            id == old(self)@.sources.len(),
            final(self)@ == (SchedulerView {
                sources: old(self)@.sources.push(
                    SourceView {
                        buffer: source@,
                        schedule: Seq::empty(),
                        window: (0, 0),
                        ticks: 0,
                        channels: old(self)@.channels,
                        sample_rate: old(self)@.sample_rate,
                        kernel: Kernel::Scalar,
                    },
                ),
                ..old(self)@
            }),
    {
        let source_scheduler = SingleSourceScheduler::new(source, self.sample_rate, self.channels);
        self.sources.push(source_scheduler);
        assert(self@.sources =~= old(self)@.sources.push(source_scheduler@));
        self.sources.len() - 1
    }

    /// The sound with the identifier `source_idx`, to schedule its starts;
    /// nothing when no sound has that identifier.
    pub fn get_scheduler(&mut self, source_idx: usize) -> (found: Option<
        &mut SingleSourceScheduler,
    >)
        ensures
            source_idx >= old(self)@.sources.len() ==> found is None && final(self)@ == old(self)@,
            source_idx < old(self)@.sources.len() ==> (found matches Some(source) && source@ == old(
                self,
            )@.sources[source_idx as int] && final(self)@.sources =~= old(self)@.sources.update(
                source_idx as int,
                final(source)@,
            )),
            final(self)@.channels == old(self)@.channels,
            final(self)@.sample_rate == old(self)@.sample_rate,
            final(self)@.phase == old(self)@.phase,
            final(self)@.frames == old(self)@.frames,
            final(self)@.counter == old(self)@.counter,
    {
        if source_idx < self.sources.len() {
            Some(&mut self.sources[source_idx])
        } else {
            None
        }
    }

    /// Processes one tick: every sound processes one tick, and what they
    /// yield is mixed with `input_sample`, the sample of the main stream.
    ///
    /// The sample is absent only when the main stream and every sound yield
    /// nothing. The tick that completes a frame moves the position counter
    /// on by one.
    pub fn next(&mut self, input_sample: Option<Sample>) -> (sample: Option<Sample>)
        requires
            old(self)@.can_tick(),
        ensures
            sample == old(self)@.output(input_sample),
            final(self)@ == old(self)@.ticked(),
    {
        let ghost before = self@.sources;
        let n: usize = self.sources.len();
        let mut acc: Option<Sample> = input_sample;
        let mut i: usize = 0;
        while i < n
            invariant
                0 <= i <= n == self.sources@.len() == before.len(),
                self.channels == old(self).channels,
                self.sample_rate == old(self).sample_rate,
                self.channel_phase == old(self).channel_phase,
                self.frames == old(self).frames,
                self.counter == old(self).counter,
                forall|j: int| 0 <= j < i ==> (#[trigger] self.sources@[j])@ == before[j].ticked(),
                forall|j: int| i <= j < n ==> (#[trigger] self.sources@[j])@ == before[j],
                forall|j: int| 0 <= j < n ==> (#[trigger] before[j]).ticks < u64::MAX,
                acc == mix(playing(before.take(i as int)), input_sample),
            decreases n - i,
        {
            let yielded = self.sources[i].next();
            proof {
                let sofar = playing(before.take(i as int));
                assert(before.take(i + 1).drop_last() =~= before.take(i as int));
                assert(before.take(i + 1).last() == before[i as int]);
                if let Some(v) = yielded {
                    let seed = match input_sample {
                        Some(s) => s,
                        None => SILENCE,
                    };
                    lemma_fold_push(seed, sofar, v);
                }
            }
            acc = match yielded {
                Some(v) => match acc {
                    Some(a) => Some(saturating_add(a, v)),
                    None => Some(v),
                },
                None => acc,
            };
            i += 1;
        }
        assert(before.take(n as int) =~= before);
        if self.channels == 0 || self.channel_phase >= self.channels - 1 {
            self.channel_phase = 0;
            self.frames = self.frames.wrapping_add(1);
            self.counter.increment();
        } else {
            self.channel_phase = self.channel_phase + 1;
        }
        assert(self@.sources =~= old(self)@.ticked().sources);
        acc
    }
}

} // verus!
