//! Following the default output device.

use core::cell::Cell;
use msg_seedling::device_follow::{
    default_changed, follow_default_device, restart_needed, resync_on_stream_start,
    FollowDefaultAudioDevice, FollowDefaultState, PollTimer,
};
use msg_seedling::time::{Duration, MAX_NANOS};

#[test]
fn first_observation_seeds_without_restart() {
    let mut last = None;
    assert!(!default_changed(&mut last, Some("speakers".into())));
    assert_eq!(last.as_deref(), Some("speakers"));
}

#[test]
fn unchanged_default_does_not_restart() {
    let mut last = Some(String::from("speakers"));
    assert!(!default_changed(&mut last, Some("speakers".into())));
    assert_eq!(last.as_deref(), Some("speakers"));
}

#[test]
fn changed_default_restarts_and_updates_cache() {
    let mut last = Some(String::from("speakers"));
    assert!(default_changed(&mut last, Some("headphones".into())));
    assert_eq!(last.as_deref(), Some("headphones"));
}

#[test]
fn enumeration_failure_keeps_cache_and_does_not_restart() {
    let mut last = Some(String::from("speakers"));
    assert!(!default_changed(&mut last, None));
    assert_eq!(last.as_deref(), Some("speakers"));

    let mut empty = None;
    assert!(!default_changed(&mut empty, None));
    assert_eq!(empty, None);
}

#[test]
fn a_pinned_device_is_never_overridden() {
    let mut last = Some(String::from("speakers"));
    let enumerated = Cell::new(false);

    let restart = restart_needed(true, &mut last, || {
        enumerated.set(true);
        Some(String::from("headphones"))
    });

    assert!(!restart, "a pinned device must not trigger a restart");
    assert!(
        !enumerated.get(),
        "a pinned device must not cost a device enumeration"
    );
    assert_eq!(
        last.as_deref(),
        Some("speakers"),
        "the cache is left for the resync observers to reseed"
    );
}

#[test]
fn an_unpinned_device_follows_the_os_default() {
    let mut last = Some(String::from("speakers"));
    let restart = restart_needed(false, &mut last, || Some(String::from("headphones")));

    assert!(restart);
    assert_eq!(last.as_deref(), Some("headphones"));
}

#[test]
fn the_poll_timer_repeats_at_the_configured_interval() {
    let mut state = FollowDefaultState::default();

    state.timer.set_duration(Duration::from_millis(500));
    assert!(!state.timer.tick(Duration::from_millis(300)));
    assert!(state.timer.tick(Duration::from_millis(300)));
    assert!(!state.timer.tick(Duration::from_millis(100)));
    assert!(state.timer.tick(Duration::from_millis(500)));
}

#[test]
fn a_timer_keeps_the_remainder() {
    let mut timer = PollTimer::new(Duration::from_millis(500));
    assert!(timer.tick(Duration::from_millis(1700)));
    assert_eq!(timer.elapsed, Duration::from_millis(200));
    assert!(!timer.tick(Duration::from_millis(299)));
    assert_eq!(timer.elapsed, Duration::from_millis(499));
    assert!(timer.tick(Duration::from_millis(1)));
    assert_eq!(timer.elapsed, Duration::zero());
}

#[test]
fn a_timer_without_a_duration_always_finishes() {
    let mut timer = PollTimer::new(Duration::zero());
    assert!(timer.tick(Duration::zero()));
    assert!(timer.tick(Duration::from_millis(5)));
    assert_eq!(timer.elapsed, Duration::zero());
}

#[test]
fn a_timer_stays_within_the_longest_span() {
    let longest = Duration { nanos: MAX_NANOS };
    let mut timer = PollTimer {
        duration: longest,
        elapsed: Duration { nanos: MAX_NANOS - 1 },
    };
    assert!(timer.tick(longest));
    assert_eq!(timer.elapsed, Duration::zero());
}

#[test]
fn a_poll_that_is_not_due_looks_at_nothing() {
    let settings = FollowDefaultAudioDevice::default();
    assert_eq!(settings.poll_interval, Duration::from_secs(1));
    let mut state = FollowDefaultState::default();
    state.last_default = Some(String::from("speakers"));

    let restart = follow_default_device(
        Duration::from_millis(400),
        &settings,
        &mut state,
        false,
        || unreachable!("the poll is not due"),
    );
    assert!(!restart);

    let restart = follow_default_device(
        Duration::from_millis(700),
        &settings,
        &mut state,
        false,
        || Some(String::from("headphones")),
    );
    assert!(restart);
    assert_eq!(state.last_default.as_deref(), Some("headphones"));
    assert_eq!(state.timer.elapsed, Duration::from_millis(100));

    // The same device, observed again, asks for nothing.
    let restart = follow_default_device(
        Duration::from_secs(1),
        &settings,
        &mut state,
        false,
        || Some(String::from("headphones")),
    );
    assert!(!restart);
}

#[test]
fn changing_the_interval_retimes_the_poll() {
    let settings = FollowDefaultAudioDevice {
        poll_interval: Duration::from_millis(100),
    };
    let mut state = FollowDefaultState::default();
    let restart = follow_default_device(
        Duration::from_millis(150),
        &settings,
        &mut state,
        false,
        || Some(String::from("speakers")),
    );
    assert!(!restart, "the first observation seeds the cache");
    assert_eq!(state.last_default.as_deref(), Some("speakers"));
    assert_eq!(state.timer.elapsed, Duration::from_millis(50));
}

#[test]
fn a_stream_start_reseeds_the_cache() {
    let mut state = FollowDefaultState::default();
    resync_on_stream_start(&mut state, Some(String::from("headphones")));
    assert_eq!(state.last_default.as_deref(), Some("headphones"));
    resync_on_stream_start(&mut state, None);
    assert_eq!(state.last_default, None);
}
