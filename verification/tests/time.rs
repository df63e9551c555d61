use tikv_dst::duration::{to_std_duration, to_time_duration, Duration, TimeDuration};
use tikv_dst::instant::{CoarseClock, Instant, SlowTimer, ThreadReadId};
use tikv_dst::logical_clock::{
    capped_nanos, dst_advance, dst_now_nanos, dst_reset, dst_set_logical_nanos, dst_set_manual_only,
    dst_set_step, dst_start_hybrid_driver, dst_step, monotonic_coarse_now, monotonic_now,
    monotonic_raw_now, LogicalClock,
};
use tikv_dst::spin::{setup_for_spin_interval, spin_at_least, SpinInterval};
use tikv_dst::time_monitor::{Monitor, MonitorAction, MonitorEvent};
use tikv_dst::timespec::{
    duration_to_ms, duration_to_ns, duration_to_us, get_time, timespec_to_ns, Timespec, UnixSecs,
};

fn manual_clock(nanos: i64) -> LogicalClock {
    let mut clock = LogicalClock::new();
    dst_set_manual_only(&mut clock, true);
    let _ = dst_set_logical_nanos(&mut clock, nanos);
    clock
}

#[test]
fn test_duration_to() {
    let tbl = vec![0, 100, 1_000, 5_000, 9999, 1_000_000, 1_000_000_000];
    for ms in tbl {
        let d = Duration::from_millis(ms);
        assert_eq!(ms, duration_to_ms(d));
        let exp_sec = ms as f64 / 1000.0;
        let act_sec = d.as_secs() as f64 + f64::from(d.subsec_nanos()) / 1e9;
        assert!((act_sec - exp_sec).abs() < f64::EPSILON);
        assert_eq!(ms * 1_000, duration_to_us(d));
        assert_eq!(ms * 1_000_000, duration_to_ns(d));
    }
}

#[test]
fn durations_carry_and_compare() {
    let d = Duration::new(1, 2_500_000_000);
    assert_eq!((d.as_secs(), d.subsec_nanos()), (3, 500_000_000));
    assert_eq!(d.as_millis(), 3_500);
    assert_eq!(d.as_nanos(), 3_500_000_000);
    assert_eq!(Duration::from_micros(1_500_001).as_nanos(), 1_500_001_000);
    assert!(Duration::from_secs(3) < d);
    assert!(d.at_least(&Duration::from_millis(3_500)));
    assert!(!d.at_least(&Duration::from_millis(3_501)));
    assert_eq!(Duration::from_secs(2), Duration::from_millis(2_000));
    assert_eq!(duration_to_us(Duration::new(0, 1_999)), 1);
}

#[test]
fn signed_spans_add_through_zero() {
    let a = TimeDuration::seconds(1).checked_add(TimeDuration::nanoseconds(-1_500_000_000)).unwrap();
    assert_eq!(a, TimeDuration::nanoseconds(-500_000_000));
    assert_eq!(a.whole_nanoseconds(), -500_000_000);
    assert_eq!(TimeDuration::seconds(i64::MAX).checked_add(TimeDuration::seconds(1)), None);
    let widest = TimeDuration::seconds(i64::MAX)
        .checked_add(TimeDuration::nanoseconds(999_999_999))
        .unwrap();
    assert_eq!(widest.checked_add(TimeDuration::nanoseconds(1)), None);
    assert_eq!(
        widest.checked_add(TimeDuration::nanoseconds(-999_999_999)),
        Some(TimeDuration::seconds(i64::MAX))
    );
    let d = Duration::new(7, 8);
    assert_eq!(to_std_duration(to_time_duration(d)), d);
}

#[test]
fn test_timespec_sub_large_span() {
    let later = Timespec::new(10_000_000_000, 123);
    let earlier = Timespec::new(0, 456);
    let expected = TimeDuration::seconds(9_999_999_999)
        .checked_add(TimeDuration::nanoseconds(999_999_667))
        .unwrap();
    assert_eq!(later - earlier, expected);
}

#[test]
fn timespecs_are_normalized() {
    assert_eq!(Timespec::new(1, -1), Timespec { sec: 0, nsec: 999_999_999 });
    assert_eq!(Timespec::new(0, -1), Timespec { sec: -1, nsec: 999_999_999 });
    assert_eq!(Timespec::new(1, 2_000_000_001), Timespec { sec: 3, nsec: 1 });
    assert_eq!(Timespec::default(), Timespec { sec: 0, nsec: 0 });
    assert!(Timespec::new(1, 5) > Timespec::new(1, 4));
    assert!(Timespec::new(2, 0) > Timespec::new(1, 999_999_999));
    assert_eq!(timespec_to_ns(Timespec::new(2, 3)), 2_000_000_003);
    let t = Timespec::new(5, 6);
    let d = TimeDuration::nanoseconds(7_000_000_008);
    assert_eq!((t + d) - d, t);
    assert_eq!(t + d, Timespec::new(12, 14));
}

#[test]
fn time_of_day() {
    assert_eq!(get_time(Duration::new(12, 34)), Timespec { sec: 12, nsec: 34 });
    let secs = UnixSecs::now(Duration::new(99, 999_999_999));
    assert_eq!(secs.into_inner(), 99);
    assert!(!secs.is_zero());
    assert!(UnixSecs::zero().is_zero());
}

#[test]
fn test_now() {
    let mut clock = LogicalClock::new();
    let pairs = vec![
        (monotonic_raw_now(&mut clock), monotonic_raw_now(&mut clock)),
        (monotonic_now(&mut clock), monotonic_now(&mut clock)),
        (monotonic_coarse_now(&mut clock), monotonic_coarse_now(&mut clock)),
    ];
    for (early_time, late_time) in pairs {
        // The monotonic clocktime must be strictly monotonic increasing.
        assert!(
            late_time >= early_time,
            "expect late time {:?} >= early time {:?}",
            late_time,
            early_time
        );
    }
}

#[test]
fn test_instant() {
    let mut clock = LogicalClock::new();
    Instant::now(&mut clock).saturating_elapsed(&mut clock);
    Instant::now_coarse(&mut clock).saturating_elapsed(&mut clock);

    // Ordering.
    let early_raw = Instant::now(&mut clock);
    let late_raw = Instant::now(&mut clock);
    assert!(early_raw <= late_raw);
    assert!(late_raw >= early_raw);

    assert_eq!(early_raw, early_raw);
    assert!(early_raw >= early_raw);
    assert!(early_raw <= early_raw);

    let early_coarse = Instant::now_coarse(&mut clock);
    let late_coarse = Instant::now_coarse(&mut clock);
    assert!(late_coarse >= early_coarse);
    assert!(early_coarse <= late_coarse);

    assert_eq!(early_coarse, early_coarse);
    assert!(early_coarse >= early_coarse);
    assert!(early_coarse <= early_coarse);

    let zero = Duration::new(0, 0);
    // Sub Instant.
    assert!(late_raw.duration_since(early_raw) >= zero);
    assert!(late_coarse.duration_since(early_coarse) >= zero);

    // Sub Duration.
    assert_eq!(late_raw - zero, late_raw);
    assert_eq!(late_coarse - zero, late_coarse);

    // Sub assign Duration
    let mut tmp_late_row = late_raw;
    tmp_late_row.sub_assign(zero);
    assert_eq!(tmp_late_row, late_raw);

    // checked_sub Duration.
    assert!(late_raw.checked_sub(early_raw).unwrap() >= zero);
    // It's either `None` or `Some(zero)`(if they are equal).
    assert_eq!(early_raw.checked_sub(late_raw).unwrap_or(zero), zero);

    let mut tmp_late_coarse = late_coarse;
    tmp_late_coarse.sub_assign(zero);
    assert_eq!(tmp_late_coarse, late_coarse);

    // Add Duration.
    assert_eq!(late_raw + zero, late_raw);
    assert_eq!(late_coarse + zero, late_coarse);

    // add assign
    let mut tmp_late_row = late_raw;
    tmp_late_row.add_assign(zero);
    assert_eq!(tmp_late_row, late_raw);

    let mut tmp_coarse = late_coarse;
    tmp_coarse.add_assign(zero);
    assert_eq!(tmp_coarse, late_coarse);

    // PartialEq and PartialOrd
    let ts = Timespec::new(1, 1);
    let now1 = Instant::Monotonic(ts);
    let now2 = Instant::MonotonicCoarse(ts);
    assert_ne!(now1, now2);
    assert_eq!(now1.partial_cmp(&now2), None);
}

#[test]
fn instants_measure_spans() {
    let a = Instant::Monotonic(Timespec::new(1, 999_999_999));
    let b = Instant::Monotonic(Timespec::new(3, 1));
    assert_eq!(b.duration_since(a), Duration::new(1, 2));
    assert_eq!(b - a, Duration::new(1, 2));
    assert_eq!(a - b, Duration::new(0, 0));
    assert_eq!(a.checked_sub(b), None);
    assert_eq!(a.saturating_duration_since(b), Duration::new(0, 0));
    // Coarse spans count whole milliseconds.
    let c = Instant::MonotonicCoarse(Timespec::new(1, 999_999_999));
    let d = Instant::MonotonicCoarse(Timespec::new(3, 1));
    assert_eq!(d.duration_since(c), Duration::from_millis(1_001));
    assert_eq!(c.duration_since(d), Duration::from_millis(0));
    // Kinds do not mix.
    assert_eq!(d.checked_sub(a), None);
    assert_eq!(a + Duration::new(1, 2), b);
    assert_eq!(b - Duration::new(1, 2), a);
}

#[test]
fn coarse_milliseconds_are_cut_toward_zero() {
    let a = Instant::MonotonicCoarse(Timespec { sec: 0, nsec: -1_999_999 });
    let b = Instant::MonotonicCoarse(Timespec { sec: 0, nsec: 1_999_999 });
    assert_eq!(b.saturating_duration_since(a), Duration::from_millis(2));
}

#[test]
fn the_clock_moves_only_when_told() {
    let mut clock = manual_clock(5);
    assert_eq!(monotonic_now(&mut clock), Timespec { sec: 0, nsec: 5 });
    assert_eq!(monotonic_now(&mut clock), Timespec { sec: 0, nsec: 5 });
    assert!(dst_advance(&mut clock, 1_999_999_995).is_none());
    assert_eq!(monotonic_raw_now(&mut clock), Timespec { sec: 2, nsec: 0 });
    dst_advance(&mut clock, 0);
    dst_advance(&mut clock, -7);
    assert_eq!(dst_now_nanos(&clock), 2_000_000_000);
    dst_step(&mut clock, 3);
    assert_eq!(dst_now_nanos(&clock), 2_003_000_000);
    dst_set_step(&mut clock, 10);
    dst_step(&mut clock, 2);
    assert_eq!(dst_now_nanos(&clock), 2_003_000_020);
    dst_set_step(&mut clock, 0);
    dst_step(&mut clock, 2);
    assert_eq!(dst_now_nanos(&clock), 2_003_000_020);
    dst_reset(&mut clock);
    assert_eq!(dst_now_nanos(&clock), 3_602_003_000_020);
    assert!(clock.driver_tick().is_none());
    assert_eq!(dst_now_nanos(&clock), 3_602_003_000_020);
    assert!(clock.take_driver_start().is_none());
}

#[test]
fn negative_times_are_normalized() {
    let mut clock = manual_clock(-1);
    assert_eq!(monotonic_now(&mut clock), Timespec { sec: -1, nsec: 999_999_999 });
}

#[test]
fn the_clock_stays_at_its_end() {
    let mut clock = manual_clock(i64::MAX - 1);
    dst_advance(&mut clock, 1);
    assert_eq!(dst_now_nanos(&clock), i64::MAX);
    dst_advance(&mut clock, 1);
    assert_eq!(dst_now_nanos(&clock), i64::MAX);
    dst_reset(&mut clock);
    assert_eq!(dst_now_nanos(&clock), i64::MAX);
    dst_set_logical_nanos(&mut clock, 1);
    dst_set_step(&mut clock, i64::MAX);
    dst_step(&mut clock, 2);
    assert_eq!(dst_now_nanos(&clock), i64::MAX);
}

#[test]
fn large_step_counts_never_go_backward() {
    let mut clock = manual_clock(0);
    dst_step(&mut clock, u64::MAX);
    assert_eq!(dst_now_nanos(&clock), i64::MAX);
    let mut clock = manual_clock(-5);
    dst_set_step(&mut clock, 1);
    dst_step(&mut clock, 1 << 63);
    assert_eq!(dst_now_nanos(&clock), i64::MAX - 5);
    assert_eq!(capped_nanos(3, 4), 12);
    assert_eq!(capped_nanos(7, 0), 0);
    assert_eq!(capped_nanos(1, u64::MAX), i64::MAX);
    assert_eq!(capped_nanos(i64::MAX, 2), i64::MAX);
}

#[test]
fn moves_add_up() {
    let mut twice = manual_clock(100);
    dst_step(&mut twice, 3);
    dst_step(&mut twice, 4);
    let mut once = manual_clock(100);
    dst_step(&mut once, 7);
    assert_eq!(dst_now_nanos(&twice), dst_now_nanos(&once));
    assert_eq!(dst_now_nanos(&once), 7_000_100);
    dst_advance(&mut twice, 30);
    dst_advance(&mut twice, 12);
    dst_advance(&mut once, 42);
    assert_eq!(dst_now_nanos(&twice), dst_now_nanos(&once));
}

#[test]
fn a_driver_only_advances() {
    let mut clock = LogicalClock::new();
    dst_set_step(&mut clock, -10);
    dst_start_hybrid_driver(&mut clock, Duration::from_millis(1));
    assert_eq!(clock.take_driver_start().unwrap().step_nanos, -10);
    dst_set_logical_nanos(&mut clock, 50);
    clock.driver_tick();
    assert_eq!(dst_now_nanos(&clock), 50);
}

#[test]
fn the_first_reader_asks_for_a_driver() {
    let mut clock = LogicalClock::new();
    assert!(clock.take_driver_start().is_none());
    dst_set_step(&mut clock, 250);
    Instant::now(&mut clock);
    let start = clock.take_driver_start().unwrap();
    assert_eq!(start.wall_interval, Duration::from_millis(1));
    assert_eq!(start.step_nanos, 250);
    assert!(clock.take_driver_start().is_none());
    // A second driver is not started, and the step of the first stays.
    dst_set_step(&mut clock, 999);
    dst_start_hybrid_driver(&mut clock, Duration::from_millis(5));
    assert!(clock.take_driver_start().is_none());
    clock.driver_tick();
    assert_eq!(dst_now_nanos(&clock), 250);
    dst_set_manual_only(&mut clock, true);
    clock.driver_tick();
    assert_eq!(dst_now_nanos(&clock), 250);
}

#[test]
fn slow_timers_follow_the_clock() {
    let mut clock = manual_clock(0);
    let one = SlowTimer::new(&mut clock);
    let two = SlowTimer::from_secs(2, &mut clock);
    let short = SlowTimer::from_millis(3, &mut clock);
    let none = SlowTimer::from(Duration::from_millis(0), &mut clock);
    assert!(none.is_slow(&mut clock));
    assert!(!short.is_slow(&mut clock));
    dst_advance(&mut clock, 3_000_000);
    assert!(short.is_slow(&mut clock));
    assert_eq!(short.saturating_elapsed(&mut clock), Duration::from_millis(3));
    dst_advance(&mut clock, 996_999_999);
    assert!(!one.is_slow(&mut clock));
    dst_advance(&mut clock, 1);
    assert!(one.is_slow(&mut clock));
    assert!(!two.is_slow(&mut clock));
    dst_set_logical_nanos(&mut clock, -5_000_000_000);
    assert_eq!(one.saturating_elapsed(&mut clock), Duration::from_millis(0));
}

#[test]
fn slow_timers_take_readings() {
    let at = |sec, nsec| Instant::MonotonicCoarse(Timespec::new(sec, nsec));
    let timer = SlowTimer::from_reading(Duration::from_millis(1_500), at(70, 0)).unwrap();
    assert_eq!(timer.start(), at(70, 0));
    assert_eq!(timer.saturating_elapsed_at(at(71, 2_999_999)), Duration::from_millis(1_002));
    assert!(!timer.is_slow_at(at(71, 499_999_999)));
    assert!(timer.is_slow_at(at(71, 500_000_000)));
    assert!(!timer.is_slow_at(at(60, 0)));
    let fine = Instant::Monotonic(Timespec::new(70, 0));
    assert!(SlowTimer::from_reading(Duration::from_millis(1), fine).is_none());
    assert!(SlowTimer::from_reading(Duration::from_millis(1), at(i64::MAX, 0)).is_none());
    let mut last = 4;
    let id = ThreadReadId::at(&mut last, Timespec::new(8, 9));
    assert_eq!(last, 5);
    assert_eq!(id.create_time, Timespec { sec: 8, nsec: 9 });
}

#[test]
fn read_ids_are_numbered() {
    let mut clock = manual_clock(9);
    let mut last = 0;
    let a = ThreadReadId::new(&mut last, &mut clock);
    let b = ThreadReadId::new(&mut last, &mut clock);
    assert_eq!(last, 2);
    assert_ne!(a, b);
    assert_eq!(a, a.clone());
    assert_eq!(b.create_time, Timespec { sec: 0, nsec: 9 });
    assert_eq!(CoarseClock.now(&mut clock), Instant::MonotonicCoarse(Timespec::new(0, 9)));
}

#[test]
fn spinning_is_measured_once() {
    // Each look at the clock shows five more milliseconds.
    let mut looks = 0;
    let mut spin = SpinInterval::new();
    assert_eq!(spin.rounds(Duration::new(0, 77)), 77);
    let five_millis_more = |looks: &mut i32| {
        let now = Instant::Monotonic(Timespec::new(0, *looks * 5_000_000));
        *looks += 1;
        now
    };
    setup_for_spin_interval(&mut spin, &mut looks, five_millis_more);
    // Start, two looks after 1024 and 2048 rounds, and the end.
    assert_eq!(looks, 4);
    // 15 milliseconds over 2048 rounds.
    assert_eq!(spin.rounds(Duration::new(0, 7_324_000)), 1_000);
    setup_for_spin_interval(&mut spin, &mut looks, five_millis_more);
    assert_eq!(looks, 4);
    assert_eq!(spin.rounds(Duration::new(0, 7_324_000)), 1_000);
}

#[test]
fn a_frozen_clock_leaves_the_interval() {
    let mut spin = SpinInterval::new();
    let mut looks = 0;
    setup_for_spin_interval(&mut spin, &mut looks, |looks: &mut i32| {
        *looks += 1;
        Instant::Monotonic(Timespec::new(1, 0))
    });
    assert_eq!(looks, 2 + 2_097_152 / 1_024);
    assert_eq!(spin.rounds(Duration::new(0, 77)), 77);
}

#[test]
fn waiting_ends_when_the_span_has_passed() {
    let mut spin = SpinInterval::new();
    spin.record(Duration::new(0, 10), 10);
    let mut looks = 0;
    let span = Duration::new(0, 1_050);
    let rounds = spin_at_least(&mut spin, span, &mut looks, |looks: &mut i32| {
        let now = Instant::Monotonic(Timespec::new(0, *looks * 500));
        *looks += 1;
        now
    });
    // Looks at 100, 200 and 300 rounds show 500, 1000 and 1500 nanoseconds.
    assert_eq!(rounds, 300);
    assert_eq!(looks, 4);
    let rounds = spin_at_least(&mut spin, span, &mut looks, |looks: &mut i32| {
        *looks += 1;
        Instant::Monotonic(Timespec::new(0, 0))
    });
    // One look per hundred rounds, after the one at the start.
    assert_eq!(rounds, 1_050);
    assert_eq!(looks, 4 + 1 + 10);
}

#[test]
fn test_wait_at_least() {
    let origin = std::time::Instant::now();
    let now = |_: &mut ()| {
        let elapsed = origin.elapsed();
        Instant::Monotonic(Timespec::new(elapsed.as_secs() as i64, elapsed.subsec_nanos() as i32))
    };
    let mut spin = SpinInterval::new();
    setup_for_spin_interval(&mut spin, &mut (), now);

    let start = std::time::Instant::now();
    spin_at_least(&mut spin, Duration::from_micros(500), &mut (), now);
    assert!(start.elapsed() >= std::time::Duration::from_micros(100));
}

#[test]
fn the_monitor_reports_jumps() {
    let mut m = Monitor::new();
    assert!(matches!(m.on_event(MonitorEvent::Polled(false)), MonitorAction::ReadTime));
    let before = TimeDuration::seconds(100);
    match m.on_event(MonitorEvent::Time(before)) {
        MonitorAction::Wait(d) => assert_eq!(d, Duration::from_millis(100)),
        other => panic!("{:?}", other),
    }
    // Not waited for: nothing changes.
    assert!(matches!(m.on_event(MonitorEvent::Polled(true)), MonitorAction::Wait(_)));
    assert!(matches!(m.on_event(MonitorEvent::Waited), MonitorAction::ReadTime));
    let after = TimeDuration::seconds(98);
    match m.on_event(MonitorEvent::Time(after)) {
        MonitorAction::Report(b, a) => assert_eq!((b, a), (before, after)),
        other => panic!("{:?}", other),
    }
    // The next round goes forward.
    m.on_event(MonitorEvent::Polled(false));
    m.on_event(MonitorEvent::Time(after));
    m.on_event(MonitorEvent::Waited);
    assert!(matches!(m.on_event(MonitorEvent::Time(after)), MonitorAction::Poll));
    assert!(matches!(m.on_event(MonitorEvent::Polled(true)), MonitorAction::Quit));
    assert!(matches!(m.on_event(MonitorEvent::Polled(false)), MonitorAction::Quit));
}
