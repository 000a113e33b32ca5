use std::sync::Arc;

use rodio_scheduler::simd::Kernel;
use rodio_scheduler::window::{advance_window, rescan_window};
use rodio_scheduler::{PlaybackEvent, SampleCounter, Scheduler, SeekError, SingleSourceScheduler};

/// The samples of a sound of `duration` frames: `value` in every channel of
/// the first frame, silence after it.
fn dummy_buffer(channels: u16, duration: u64, value: i16) -> Vec<i16> {
    let mut buffer = Vec::new();
    for frame in 0..duration {
        for _ in 0..channels {
            buffer.push(if frame == 0 { value } else { 0 });
        }
    }
    buffer
}

fn once(timestamp: u64) -> PlaybackEvent {
    PlaybackEvent { source_id: 0, timestamp, repeat: None }
}

/// Runs the playback of one sound that is scheduled half a second in, and
/// returns whether every sample was the expected one, and how many ticks
/// yielded a sample.
fn basic_playback() -> (bool, u64) {
    let sample_rate = 48000_u32;
    let channels = 2;
    let duration_samples = 2 * sample_rate as u64;
    let value: i16 = 16384;
    let scheduled_time: u64 = sample_rate as u64 / 2;

    let buffer = dummy_buffer(channels, duration_samples, value);
    let mut scheduler = SingleSourceScheduler::new(buffer, sample_rate, channels);

    // Schedule an event to play at 0.5 seconds
    let event = PlaybackEvent {
        source_id: 0, // This is ignored for SingleSourceScheduler
        timestamp: scheduled_time,
        repeat: None,
    };
    scheduler.schedule_event(event);

    // Consume samples and check if the scheduled sound plays
    let mut samples_played = 0;

    let scheduled_end_time = scheduled_time + duration_samples;
    let sample_count = (scheduled_end_time * channels as u64) as usize;

    let mut mask = Vec::with_capacity(sample_count);
    for i in 0..sample_count {
        // Get the sample index
        let _i = i as u64;
        let s = _i / channels as u64;

        if let Some(sample) = scheduler.next() {
            samples_played += 1;

            // Check if the sample matches our dummy source's value at the scheduled time
            if s == scheduled_time {
                if sample == value {
                    mask.push(true);
                } else {
                    println!(
                        "The scheduled sample was not present at sample {s} (expected {value}, found {sample})."
                    );
                    mask.push(false);
                }

                continue;
            }

            // Check if the source is still present within the given duration.
            if s > scheduled_time || s < scheduled_end_time {
                if sample == 0 {
                    mask.push(true);
                } else {
                    println!(
                        "The source sample was incorrect at sample {} (expected {}, found {}).",
                        s, 0, sample
                    );
                    mask.push(false);
                }
            }
        } else {
            println!("The source sample was not present at sample {s}.");
            mask.push(false);
        }
    }

    (mask.into_iter().reduce(|acc: bool, b: bool| acc & b).unwrap_or(false), samples_played)
}

#[test]
fn test_single_source_scheduler_basic_playback() {
    let sample_rate = 48000_u64;
    let channels = 2_u64;
    let (detected, samples_played) = basic_playback();

    // Once something is scheduled every tick yields a sample, silence
    // before the sound starts included.
    let expected_sample_count = (sample_rate / 2 + 2 * sample_rate) * channels;
    assert!(detected, "Scheduled sound was not detected");
    assert!(
        samples_played == expected_sample_count,
        "An incorrect number of samples was played (Expected {expected_sample_count}, found {samples_played})."
    );
}

#[test]
fn integration_tests_test_single_source_scheduler_basic_playback() {
    let (detected, samples_played) = basic_playback();

    assert!(detected, "Scheduled sound was not detected");
    assert_eq!(samples_played, 240000);
}

#[test]
fn test_unscheduled_source_yields_nothing() {
    let mut scheduler = SingleSourceScheduler::new(vec![1, 2, 3], 48000, 1);

    for _ in 0..10 {
        assert_eq!(scheduler.next(), None);
    }
    assert_eq!(scheduler.samples_counted(), 10);
    assert_eq!(scheduler.playback_position(), (0, 0));
}

#[test]
fn test_scheduled_source_exact_output() {
    let mut scheduler = SingleSourceScheduler::new(vec![10, 20, 30, 40, 50], 48000, 1);
    scheduler.schedule_event(once(4));
    scheduler.schedule_event(once(0));
    scheduler.schedule_event(once(2));
    assert_eq!(scheduler.playback_schedule(), &vec![0u64, 2, 4]);

    let played: Vec<Option<i16>> = (0..11).map(|_| scheduler.next()).collect();
    let expected: Vec<Option<i16>> =
        vec![10, 20, 40, 60, 90, 60, 80, 40, 50, 0, 0].into_iter().map(Some).collect();
    assert_eq!(played, expected);
}

#[test]
fn test_schedule_event_multiplies_by_the_channel_count() {
    let mut scheduler = SingleSourceScheduler::new(vec![1, 1], 44100, 2);
    scheduler.schedule_event(once(7));
    scheduler.schedule_event(once(3));
    scheduler.schedule_event(once(3));

    assert_eq!(scheduler.playback_schedule(), &vec![6u64, 6, 14]);
    assert_eq!(scheduler.channels(), 2);
    assert_eq!(scheduler.sample_rate(), 44100);
}

#[test]
fn test_schedule_event_expands_repeats() {
    let mut scheduler = SingleSourceScheduler::new(vec![1], 48000, 2);
    scheduler.schedule_event(once(12));
    scheduler.schedule_event(PlaybackEvent { source_id: 0, timestamp: 5, repeat: Some((10, 3)) });

    // 5, 15 and 25 in samples of one channel; 12 was there before.
    assert_eq!(scheduler.playback_schedule(), &vec![10u64, 24, 30, 50]);

    scheduler.schedule_event(PlaybackEvent { source_id: 0, timestamp: 1, repeat: Some((10, 0)) });
    assert_eq!(scheduler.playback_schedule(), &vec![10u64, 24, 30, 50]);

    scheduler.schedule_event(PlaybackEvent { source_id: 0, timestamp: 9, repeat: Some((0, 2)) });
    assert_eq!(scheduler.playback_schedule(), &vec![10u64, 18, 18, 24, 30, 50]);
}

#[test]
fn test_can_schedule_tells_what_fits() {
    let stereo = SingleSourceScheduler::new(vec![1], 48000, 2);

    assert!(stereo.can_schedule(&once(u64::MAX / 2)));
    assert!(!stereo.can_schedule(&once(u64::MAX / 2 + 1)));
    assert!(stereo.can_schedule(&PlaybackEvent {
        source_id: 0,
        timestamp: 1,
        repeat: Some((u64::MAX, 1)),
    }));
    assert!(!stereo.can_schedule(&PlaybackEvent {
        source_id: 0,
        timestamp: 1,
        repeat: Some((u64::MAX, 2)),
    }));
    assert!(stereo.can_schedule(&PlaybackEvent {
        source_id: 0,
        timestamp: u64::MAX,
        repeat: Some((u64::MAX, 0)),
    }));
    assert!(stereo.can_schedule(&PlaybackEvent {
        source_id: 0,
        timestamp: 0,
        repeat: Some((1000, 1000)),
    }));

    let no_channels = SingleSourceScheduler::new(vec![1], 48000, 0);
    assert!(no_channels.can_schedule(&PlaybackEvent {
        source_id: 0,
        timestamp: u64::MAX,
        repeat: Some((u64::MAX, 3)),
    }));
}

#[test]
fn test_schedule_without_channels_starts_at_zero() {
    let mut scheduler = SingleSourceScheduler::new(vec![4, 5], 48000, 0);
    scheduler.schedule_event(PlaybackEvent {
        source_id: 0,
        timestamp: u64::MAX,
        repeat: Some((u64::MAX, 2)),
    });

    assert_eq!(scheduler.playback_schedule(), &vec![0u64, 0]);
    assert_eq!(scheduler.next(), Some(8));
    assert_eq!(scheduler.next(), Some(10));
    assert_eq!(scheduler.next(), Some(0));
}

#[test]
fn test_window_rescan_exact_values() {
    let schedule: Vec<u64> = vec![0, 2, 4, 4, 9];

    // A sound of three samples: the entry at 0 has run out at tick 3.
    assert_eq!(rescan_window(&schedule, 3, 0), (0, 1));
    assert_eq!(rescan_window(&schedule, 3, 2), (0, 2));
    assert_eq!(rescan_window(&schedule, 3, 3), (1, 2));
    assert_eq!(rescan_window(&schedule, 3, 4), (1, 4));
    assert_eq!(rescan_window(&schedule, 3, 5), (2, 4));
    assert_eq!(rescan_window(&schedule, 3, 7), (3, 4));
    assert_eq!(rescan_window(&schedule, 3, 8), (3, 4));
    assert_eq!(rescan_window(&schedule, 3, 9), (4, 5));
    assert_eq!(rescan_window(&schedule, 3, 1000), (4, 5));

    // Before the first start nothing is in the window.
    let later: Vec<u64> = vec![5, 6];
    assert_eq!(rescan_window(&later, 3, 4), (0, 0));

    let empty: Vec<u64> = vec![];
    assert_eq!(rescan_window(&empty, 3, 4), (0, 0));

    // A sound without samples has run out as soon as it starts.
    assert_eq!(rescan_window(&schedule, 0, 4), (3, 4));
}

#[test]
fn test_incremental_window_equals_rescan() {
    let schedule: Vec<u64> = vec![0, 0, 1, 3, 3, 4, 7, 8, 20, 20, 21, 40];

    for source_len in [0usize, 1, 2, 5, 13, 100] {
        for step in [1u64, 2, 3, 7, 19] {
            let mut window = (0, 0);
            let mut previous = (0, 0);
            let mut tick = 0u64;
            while tick < 80 {
                window = advance_window(&schedule, source_len, window, tick);
                assert_eq!(window, rescan_window(&schedule, source_len, tick));
                assert!(previous.0 <= window.0 && previous.1 <= window.1);
                assert!(window.0 <= window.1 && window.1 <= schedule.len());
                previous = window;
                tick += step;
            }
        }
    }
}

#[test]
fn test_scheduler_window_equals_rescan_at_each_tick() {
    let buffer: Vec<i16> = vec![5, -5, 7, -7];
    let mut scheduler = SingleSourceScheduler::new(buffer.clone(), 48000, 1);
    for timestamp in [9u64, 1, 1, 30, 4, 12, 13] {
        scheduler.schedule_event(once(timestamp));
    }
    let schedule = scheduler.playback_schedule().clone();

    for tick in 0..50u64 {
        assert_eq!(scheduler.samples_counted(), tick);
        scheduler.next();
        assert_eq!(scheduler.playback_position(), rescan_window(&schedule, buffer.len(), tick));
    }
}

#[test]
fn test_identical_runs_yield_identical_output() {
    let buffer: Vec<i16> = vec![30000, 20000, -10000, -32000, 5, 32767];
    let mut first = SingleSourceScheduler::new(buffer.clone(), 48000, 2);
    let mut second = SingleSourceScheduler::new(buffer.clone(), 48000, 2);
    for (timestamp, repeat) in [(3u64, None), (0, Some((2u64, 4u64))), (1, None), (3, None)] {
        first.schedule_event(PlaybackEvent { source_id: 0, timestamp, repeat });
        second.schedule_event(PlaybackEvent { source_id: 1, timestamp, repeat });
    }

    let one: Vec<Option<i16>> = (0..40).map(|_| first.next()).collect();
    let two: Vec<Option<i16>> = (0..40).map(|_| second.next()).collect();
    assert_eq!(one, two);
    assert!(one.iter().any(|sample| *sample != Some(0)));
}

#[test]
fn test_both_kernels_yield_identical_output() {
    let buffer: Vec<i16> = vec![30000, 20000, -10000, -32000, 5, 32767, -1];
    let mut scalar = SingleSourceScheduler::new(buffer.clone(), 48000, 1);
    let mut lanes = SingleSourceScheduler::new(buffer.clone(), 48000, 1);
    lanes.use_kernel(Kernel::Simd);
    scalar.use_kernel(Kernel::Scalar);
    for (timestamp, repeat) in [(3u64, None), (0, Some((1u64, 9u64))), (1, None), (30, None)] {
        scalar.schedule_event(PlaybackEvent { source_id: 0, timestamp, repeat });
        lanes.schedule_event(PlaybackEvent { source_id: 0, timestamp, repeat });
    }

    for _ in 0..60 {
        assert_eq!(scalar.next(), lanes.next());
        assert_eq!(scalar.playback_position(), lanes.playback_position());
    }
}

#[test]
fn test_seek_finds_the_window_again() {
    let buffer: Vec<i16> = vec![1, 2, 3, 4];
    let mut played = SingleSourceScheduler::new(buffer.clone(), 1_000_000_000, 1);
    let mut sought = SingleSourceScheduler::new(buffer.clone(), 1_000_000_000, 1);
    for timestamp in [2u64, 3, 11, 12, 20] {
        played.schedule_event(once(timestamp));
        sought.schedule_event(once(timestamp));
    }

    for _ in 0..12 {
        played.next();
    }
    assert_eq!(sought.try_seek(0, 12), Ok(()));

    assert_eq!(sought.samples_counted(), 12);
    assert_eq!(sought.playback_position(), (2, 4));
    let rest_played: Vec<Option<i16>> = (0..20).map(|_| played.next()).collect();
    let rest_sought: Vec<Option<i16>> = (0..20).map(|_| sought.next()).collect();
    assert_eq!(rest_played, rest_sought);

    // Seeking back moves the window back with the tick.
    assert_eq!(sought.try_seek(0, 3), Ok(()));
    assert_eq!(sought.playback_position(), (0, 2));
    assert_eq!(sought.next(), Some(2 + 1));
}

#[test]
fn test_seek_exact_tick() {
    let mut scheduler = SingleSourceScheduler::new(vec![1], 48000, 2);

    // A sample lasts 20833 whole nanoseconds, so half a second holds 24000.
    assert_eq!(scheduler.try_seek(1, 500_000_000), Ok(()));
    assert_eq!(scheduler.samples_counted(), (48000 + 24000) * 2);

    assert_eq!(scheduler.try_seek(0, 20_832), Ok(()));
    assert_eq!(scheduler.samples_counted(), 0);

    assert_eq!(scheduler.try_seek(0, 999_999_999), Ok(()));
    assert_eq!(scheduler.samples_counted(), 48000 * 2);

    let mut odd = SingleSourceScheduler::new(vec![1], 44100, 1);
    assert_eq!(odd.try_seek(2, 250_000_000), Ok(()));
    assert_eq!(odd.samples_counted(), 2 * 44100 + 250_000_000 / 22675);
}

#[test]
fn test_seek_refusals_change_nothing() {
    let mut no_rate = SingleSourceScheduler::new(vec![1], 0, 2);
    no_rate.schedule_event(once(1));
    no_rate.next();
    assert_eq!(no_rate.try_seek(1, 0), Err(SeekError::UnsupportedRate));
    assert_eq!(no_rate.samples_counted(), 1);
    assert_eq!(no_rate.playback_position(), (0, 0));

    let mut too_fast = SingleSourceScheduler::new(vec![1], 1_000_000_001, 2);
    assert_eq!(too_fast.try_seek(0, 0), Err(SeekError::UnsupportedRate));

    let mut scheduler = SingleSourceScheduler::new(vec![1], 48000, 2);
    scheduler.schedule_event(once(0));
    scheduler.next();
    assert_eq!(scheduler.try_seek(u64::MAX, 0), Err(SeekError::OutOfRange));
    assert_eq!(scheduler.samples_counted(), 1);
    assert_eq!(scheduler.playback_position(), (0, 1));

    let mut edge = SingleSourceScheduler::new(vec![1], 1, 1);
    assert_eq!(edge.try_seek(u64::MAX, 0), Ok(()));
    assert_eq!(edge.samples_counted(), u64::MAX);
    let mut past = SingleSourceScheduler::new(vec![1], 1, 2);
    assert_eq!(past.try_seek(u64::MAX, 0), Err(SeekError::OutOfRange));
}

#[test]
fn test_size_hint_lower_bound() {
    let mut scheduler = SingleSourceScheduler::new(vec![1, 2, 3, 4], 48000, 2);
    scheduler.schedule_event(once(50));
    scheduler.schedule_event(once(10));

    assert_eq!(scheduler.size_hint(), (100 + 4, None));
}

#[test]
fn test_scheduler_ids_and_lookup() {
    let counter = Arc::new(SampleCounter::new());
    let mut scheduler = Scheduler::new(counter, 48000, 2);
    assert_eq!(scheduler.source_count(), 0);
    assert!(scheduler.get_scheduler(0).is_none());

    assert_eq!(scheduler.add_source(vec![1, 2]), 0);
    assert_eq!(scheduler.add_source(vec![3]), 1);
    assert_eq!(scheduler.add_source(vec![]), 2);
    assert_eq!(scheduler.source_count(), 3);

    assert!(scheduler.get_scheduler(2).is_some());
    assert!(scheduler.get_scheduler(3).is_none());
    assert!(scheduler.get_scheduler(usize::MAX).is_none());

    let source = scheduler.get_scheduler(1).unwrap();
    assert_eq!(source.channels(), 2);
    assert_eq!(source.sample_rate(), 48000);
    assert_eq!(source.samples_counted(), 0);
    assert_eq!(scheduler.channels(), 2);
    assert_eq!(scheduler.sample_rate(), 48000);
}

#[test]
fn test_scheduler_mixes_sources_with_the_main_stream() {
    let counter = Arc::new(SampleCounter::new());
    let mut scheduler = Scheduler::with_capacity(counter, 48000, 1, 10);
    let first = scheduler.add_source(vec![100, 200, 300]);
    let second = scheduler.add_source(vec![-1, -2]);
    let silent = scheduler.add_source(vec![9, 9, 9]);
    scheduler.get_scheduler(first).unwrap().schedule_event(PlaybackEvent {
        source_id: first,
        timestamp: 1,
        repeat: None,
    });
    scheduler.get_scheduler(second).unwrap().schedule_event(PlaybackEvent {
        source_id: second,
        timestamp: 2,
        repeat: Some((1, 2)),
    });
    assert_eq!(scheduler.get_scheduler(silent).unwrap().playback_schedule().len(), 0);

    assert_eq!(scheduler.next(Some(1000)), Some(1000));
    assert_eq!(scheduler.next(Some(1000)), Some(1100));
    assert_eq!(scheduler.next(Some(1000)), Some(1199));
    assert_eq!(scheduler.next(None), Some(297));
    assert_eq!(scheduler.next(None), Some(-2));
    assert_eq!(scheduler.next(None), Some(0));
    assert_eq!(scheduler.next(Some(i16::MAX)), Some(i16::MAX));
}

#[test]
fn test_scheduler_ends_when_nothing_is_left() {
    let counter = Arc::new(SampleCounter::new());
    let mut scheduler = Scheduler::new(counter, 48000, 2);
    scheduler.add_source(vec![1, 2, 3]);
    scheduler.add_source(vec![4]);

    assert_eq!(scheduler.next(Some(5)), Some(5));
    assert_eq!(scheduler.next(None), None);
    assert_eq!(scheduler.next(None), None);

    let mut empty = Scheduler::new(Arc::new(SampleCounter::new()), 48000, 2);
    assert_eq!(empty.next(None), None);
    assert_eq!(empty.next(Some(-3)), Some(-3));
}

#[test]
fn test_scheduler_saturates_the_composite() {
    let counter = Arc::new(SampleCounter::new());
    let mut scheduler = Scheduler::new(counter, 48000, 1);
    for _ in 0..3 {
        let id = scheduler.add_source(vec![i16::MAX, i16::MIN]);
        scheduler.get_scheduler(id).unwrap().schedule_event(once(0));
    }

    assert_eq!(scheduler.next(Some(1)), Some(i16::MAX));
    assert_eq!(scheduler.next(Some(-1)), Some(i16::MIN));
}

#[test]
fn test_scheduler_counts_frames_not_ticks() {
    let counter = Arc::new(SampleCounter::new());
    let mut scheduler = Scheduler::new(counter.clone(), 48000, 3);
    let observer = scheduler.counter();

    let mut seen = Vec::new();
    for _ in 0..10 {
        assert!(scheduler.can_tick());
        scheduler.next(Some(0));
        seen.push(counter.get());
    }

    assert_eq!(seen, vec![0, 0, 1, 1, 1, 2, 2, 2, 3, 3]);
    assert_eq!(scheduler.frames(), 3);
    assert_eq!(observer.get(), 3);

    let mono_counter = Arc::new(SampleCounter::new());
    let mut mono = Scheduler::new(mono_counter.clone(), 48000, 1);
    mono.next(None);
    mono.next(None);
    assert_eq!(mono_counter.get(), 2);

    let none_counter = Arc::new(SampleCounter::new());
    let mut none = Scheduler::new(none_counter.clone(), 48000, 0);
    none.next(None);
    assert_eq!(none_counter.get(), 1);
}

#[test]
fn test_scheduler_cannot_tick_past_the_last_tick() {
    let counter = Arc::new(SampleCounter::new());
    let mut scheduler = Scheduler::new(counter, 1, 1);
    let id = scheduler.add_source(vec![1]);
    scheduler.add_source(vec![2]);
    assert!(scheduler.can_tick());

    assert_eq!(scheduler.get_scheduler(id).unwrap().try_seek(u64::MAX, 0), Ok(()));
    assert!(!scheduler.can_tick());

    assert_eq!(scheduler.get_scheduler(id).unwrap().try_seek(u64::MAX - 1, 0), Ok(()));
    assert!(scheduler.can_tick());
}
