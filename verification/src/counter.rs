//! The position counter.
//!
//! A [`SampleCounter`] holds a 64-bit position that one thread writes and
//! any number of threads read, without locks. What a read returns depends on
//! what the writing thread has done by then, so nothing is promised of the
//! value here: the counting itself is stated where it is decided, in
//! [`crate::scheduler::Scheduler::next`].

use vstd::prelude::*;
use std::sync::atomic::AtomicU64;
use std::sync::atomic::Ordering;

verus! {

/// A position that is shared between the thread that produces the audio and
/// the threads that observe it.
pub struct SampleCounter {
    position: AtomicU64,
}

impl SampleCounter {
    /// A counter at position zero.
    pub fn new() -> SampleCounter {
        SampleCounter { position: AtomicU64::new(0) }
    }

    /// The position as it is now. Never blocks.
    pub fn get(&self) -> u64 {
        self.position.load(Ordering::Acquire)
    }

    /// Sets the position. For the writing thread only.
    pub fn set(&self, position: u64) {
        self.position.store(position, Ordering::Release);
    }

    /// Moves the position on by one, wrapping around at the end of the
    /// 64-bit range. For the writing thread only.
    pub fn increment(&self) {
        let _ = self.position.fetch_add(1, Ordering::AcqRel);
    }
}

} // verus!
