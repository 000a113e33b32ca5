//! Sample-accurate scheduling and mixing of sounds against a running stream.
//!
//! A [`Scheduler`] mixes, sample by sample, a main stream with sounds that
//! were scheduled to start at exact ticks. Each sound is held by a
//! [`SingleSourceScheduler`], which keeps the ascending list of its starts
//! and a window on the part of that list that can sound at the current
//! tick. The [`simd`] module holds the kernel that gathers and mixes what the
//! window's entries contribute, and a [`SampleCounter`] shares the position
//! of the output with other threads.

pub mod counter;
pub mod sample;
pub mod scheduler;
pub mod simd;
pub mod simd_utils;
pub mod single;
pub mod window;

pub use crate::counter::SampleCounter;
pub use crate::sample::Sample;
pub use crate::scheduler::Scheduler;
pub use crate::single::{PlaybackEvent, SeekError, SingleSourceScheduler};
