use tikv_dst::duration::Duration;
use tikv_dst::instant::Instant;
use tikv_dst::logical_clock::{dst_advance, dst_set_manual_only, LogicalClock};
use tikv_dst::timer::{
    ack_if_requested, dst_process_timers, RatchetClockState, SteadyClock, Timer, TimerSync,
};
use tikv_dst::timespec::Timespec;

#[derive(Debug, PartialEq, Copy, Clone)]
enum Task {
    A,
    B,
    C,
}

#[test]
fn test_timer() {
    let mut clock = LogicalClock::new();
    let mut timer = Timer::new(10);
    timer.add_task(Duration::from_millis(20), Task::A, &mut clock);
    timer.add_task(Duration::from_millis(150), Task::C, &mut clock);
    timer.add_task(Duration::from_millis(100), Task::B, &mut clock);
    assert_eq!(timer.len(), 3);

    let tick_time = timer.next_timeout().unwrap();
    assert_eq!(timer.pop_task_before(tick_time).unwrap(), Task::A);
    assert_eq!(timer.pop_task_before(tick_time), None);

    let tick_time = timer.next_timeout().unwrap();
    assert_eq!(timer.pop_task_before(tick_time).unwrap(), Task::B);
    assert_eq!(timer.pop_task_before(tick_time), None);

    let tick_time = timer.next_timeout().unwrap();
    assert_eq!(timer.pop_task_before(tick_time).unwrap(), Task::C);
    assert_eq!(timer.pop_task_before(tick_time), None);
}

#[test]
fn tasks_are_due_relative_to_the_clock() {
    let mut clock = LogicalClock::new();
    dst_set_manual_only(&mut clock, true);
    let mut timer = Timer::new(0);
    assert_eq!(timer.next_timeout(), None);
    timer.add_task(Duration::from_millis(10), 1, &mut clock);
    dst_advance(&mut clock, 6_000_000);
    timer.add_task(Duration::from_millis(3), 2, &mut clock);
    timer.add_task(Duration::from_millis(4), 3, &mut clock);
    assert_eq!(
        timer.next_timeout(),
        Some(Instant::MonotonicCoarse(Timespec::new(0, 9_000_000)))
    );
    assert_eq!(timer.pop_task_before(Instant::now(&mut clock)), None);
    dst_advance(&mut clock, 4_000_000);
    let now = Instant::now(&mut clock);
    assert_eq!(timer.pop_task_before(now), Some(2));
    let mut rest = vec![timer.pop_task_before(now).unwrap(), timer.pop_task_before(now).unwrap()];
    rest.sort();
    assert_eq!(rest, vec![1, 3]);
    assert_eq!(timer.pop_task_before(now), None);
    assert_eq!(timer.len(), 0);
}

#[test]
fn popping_until_nothing_comes_gives_all_that_is_due() {
    let mut clock = LogicalClock::new();
    dst_set_manual_only(&mut clock, true);
    let mut timer = Timer::new(4);
    for millis in [9, 2, 7, 2, 5, 8, 1] {
        timer.add_task(Duration::from_millis(millis), millis, &mut clock);
    }
    dst_advance(&mut clock, 7_000_000);
    let now = Instant::now(&mut clock);
    let mut out = Vec::new();
    while let Some(task) = timer.pop_task_before(now) {
        out.push(task);
    }
    assert_eq!(out, vec![1, 2, 2, 5, 7]);
    assert_eq!(timer.len(), 2);
}

#[test]
fn tasks_are_due_relative_to_a_reading() {
    let at = |sec| Instant::Monotonic(Timespec::new(sec, 5));
    let mut timer = Timer::new(2);
    assert!(timer.accepts(at(0)));
    timer.add_task_at(at(100), Duration::from_secs(7), 'b');
    timer.add_task_at(at(103), Duration::from_secs(1), 'a');
    assert!(timer.accepts(at(0)));
    assert!(!timer.accepts(Instant::MonotonicCoarse(Timespec::new(0, 0))));
    assert_eq!(timer.next_timeout(), Some(at(104)));
    assert_eq!(timer.pop_task_before(at(103)), None);
    assert_eq!(timer.pop_task_before(Instant::MonotonicCoarse(Timespec::new(200, 0))), None);
    assert_eq!(timer.pop_task_before(at(107)), Some('a'));
    assert_eq!(timer.pop_task_before(at(107)), Some('b'));
    assert_eq!(timer.len(), 0);
}

#[test]
fn the_steady_clock_takes_readings() {
    let steady = SteadyClock::at(Timespec::new(40, 900_000_000));
    assert_eq!(steady.elapsed(Timespec::new(42, 100_000_000)), Duration::from_millis(1_200));
}

#[test]
fn a_fine_instant_pops_nothing() {
    let mut clock = LogicalClock::new();
    let mut timer = Timer::new(1);
    timer.add_task(Duration::from_millis(0), 1, &mut clock);
    assert_eq!(timer.pop_task_before(Instant::Monotonic(Timespec::new(9, 9))), None);
    assert_eq!(timer.len(), 1);
}

/// A clock that goes back by ten milliseconds every other time.
struct BadClock {
    millis: u64,
    backward: bool,
}

impl BadClock {
    fn now(&mut self) -> Duration {
        self.millis += 1;
        if self.backward {
            self.backward = false;
            Duration::from_millis(self.millis - 10)
        } else {
            self.backward = true;
            Duration::from_millis(self.millis)
        }
    }
}

#[test]
fn test_ratchet_clock() {
    let mut clock = BadClock { millis: 1_000, backward: false };
    let mut ratchet = RatchetClockState::new();
    let mut last = 0;
    for i in 0..100 {
        let deadline = if i % 2 == 0 { clock.millis + i } else { clock.millis - i };
        loop {
            let shown = ratchet.now(clock.now()).as_millis() as u64;
            assert!(shown >= last);
            assert!(shown <= clock.millis);
            last = shown;
            if shown >= deadline {
                break;
            }
        }
    }
}

#[test]
fn the_ratchet_never_goes_back() {
    let mut ratchet = RatchetClockState::new();
    assert_eq!(ratchet.now(Duration::from_micros(5_999)), Duration::from_millis(5));
    assert_eq!(ratchet.now(Duration::from_millis(2)), Duration::from_millis(5));
    assert_eq!(ratchet.now(Duration::from_millis(5)), Duration::from_millis(5));
    assert_eq!(ratchet.now(Duration::from_millis(70)), Duration::from_millis(70));
}

#[test]
fn the_steady_clock_follows_the_logical_clock() {
    let mut clock = LogicalClock::new();
    dst_set_manual_only(&mut clock, true);
    dst_advance(&mut clock, 123);
    let steady = SteadyClock::new(&mut clock);
    assert_eq!(steady.now(&mut clock), Duration::new(0, 0));
    dst_advance(&mut clock, 2_000_000_001);
    assert_eq!(steady.now(&mut clock), Duration::new(2, 1));
}

#[test]
fn requests_are_answered_one_per_turn() {
    let mut sync = TimerSync::new();
    ack_if_requested(&mut sync);
    let first = dst_process_timers(&mut sync);
    let second = dst_process_timers(&mut sync);
    assert_eq!((first, second), (1, 2));
    let start = Duration::from_millis(0);
    assert_eq!(sync.wait_step(first, start), Some(Duration::from_micros(5)));
    ack_if_requested(&mut sync);
    assert_eq!(sync.wait_step(first, start), None);
    assert_eq!(sync.wait_step(second, Duration::from_millis(200)), Some(Duration::from_micros(5)));
    assert_eq!(sync.wait_step(second, Duration::from_micros(200_001)), None);
    ack_if_requested(&mut sync);
    assert_eq!(sync.wait_step(second, start), None);
}
