use std::sync::atomic::{AtomicU64, Ordering};
use std::sync::{Arc, Mutex};
use tikv_dst::dst_executor::{
    force_stop, is_manual_drive, live_count, register, set_manual_drive, step_all_once, step_one,
    Entry, Executor, Pollable,
};
use tikv_dst::dst_init::{dst_init, dst_tick, DstPlane};
use tikv_dst::dst_rng::DstRng;
use tikv_dst::instant::Instant;

struct CountingPoller {
    left: usize,
    hits: Arc<AtomicU64>,
}

impl Pollable for CountingPoller {
    fn step(&mut self) -> bool {
        self.hits.fetch_add(1, Ordering::SeqCst);
        if self.left == 0 {
            return false;
        }
        self.left -= 1;
        true
    }
}

#[test]
fn manual_drive_steps_registered_pollers_to_completion() {
    let mut exec = Executor::new();
    set_manual_drive(&mut exec, true);
    let hits = Arc::new(AtomicU64::new(0));
    let done_a = exec.new_flag();
    let done_b = exec.new_flag();

    let id_a = register(
        &mut exec,
        CountingPoller {
            left: 2,
            hits: Arc::clone(&hits),
        },
        done_a,
    )
    .id;
    let id_b = register(
        &mut exec,
        CountingPoller {
            left: 2,
            hits: Arc::clone(&hits),
        },
        done_b,
    )
    .id;
    assert!(id_a < id_b);
    assert_eq!(live_count(&exec), 2);

    // Three full rounds: each poller hits while left>0, then exits on left==0.
    // left=2 → hit+dec→1, hit+dec→0, hit+false → 3 hits each = 6 total.
    for _ in 0..4 {
        let _ = step_all_once(&mut exec);
    }

    assert_eq!(hits.load(Ordering::SeqCst), 6);
    assert!(exec.is_done(done_a));
    assert!(exec.is_done(done_b));
    assert_eq!(live_count(&exec), 0);

    set_manual_drive(&mut exec, false);
}

#[test]
fn rounds_count_the_pollers_that_they_step() {
    let mut exec = Executor::new();
    let hits = Arc::new(AtomicU64::new(0));
    for _ in 0..2 {
        let done = exec.new_flag();
        register(&mut exec, CountingPoller { left: 2, hits: Arc::clone(&hits) }, done);
    }
    let rounds: Vec<usize> = (0..4).map(|_| step_all_once(&mut exec)).collect();
    assert_eq!(rounds, vec![2, 2, 2, 0]);
    assert_eq!(hits.load(Ordering::SeqCst), 6);
}

#[test]
fn one_step_calls_one_poller_once() {
    let mut exec = Executor::new();
    let first = Arc::new(AtomicU64::new(0));
    let second = Arc::new(AtomicU64::new(0));
    let done_a = exec.new_flag();
    let done_b = exec.new_flag();
    let a = register(&mut exec, CountingPoller { left: 1, hits: Arc::clone(&first) }, done_a).id;
    let b = register(&mut exec, CountingPoller { left: 9, hits: Arc::clone(&second) }, done_b).id;
    assert!(step_one(&mut exec, a));
    assert_eq!(exec.all_ids(), vec![a, b]);
    assert!(!exec.is_done(done_a));
    assert!(step_one(&mut exec, a));
    assert_eq!(exec.all_ids(), vec![b]);
    assert!(exec.is_done(done_a));
    assert!(!step_one(&mut exec, a));
    assert_eq!(first.load(Ordering::SeqCst), 2);
    assert_eq!(second.load(Ordering::SeqCst), 0);
    assert!(!step_one(&mut exec, b + 1));
    assert_eq!(exec.all_ids(), vec![b]);
}

#[test]
fn only_pollers_that_were_taken_out_go_back() {
    let mut exec = Executor::new();
    let hits = Arc::new(AtomicU64::new(0));
    let done = exec.new_flag();
    let id = register(&mut exec, CountingPoller { left: 5, hits: Arc::clone(&hits) }, done).id;
    let mut entry = exec.begin_step(id).unwrap();
    assert!(exec.accepts(&entry));
    entry.id = id + 1;
    assert!(!exec.accepts(&entry));
    entry.id = id;
    exec.finish_step(entry, true);
    assert_eq!(exec.all_ids(), vec![id]);
    let twice = Entry { id, poller: CountingPoller { left: 0, hits }, done };
    assert!(!exec.accepts(&twice));
    assert!(exec.owns(done));
    let mut other: Executor<CountingPoller> = Executor::new();
    assert!(!other.owns(done));
    other.new_flag();
    assert!(other.owns(done));
}

#[test]
fn force_stop_removes_live_poller() {
    let mut exec = Executor::new();
    set_manual_drive(&mut exec, true);
    let hits = Arc::new(AtomicU64::new(0));
    let done = exec.new_flag();
    register(
        &mut exec,
        CountingPoller {
            left: 100,
            hits: Arc::clone(&hits),
        },
        done,
    );
    assert_eq!(live_count(&exec), 1);
    force_stop(&mut exec, done);
    assert!(exec.is_done(done));
    assert_eq!(live_count(&exec), 0);
    assert_eq!(step_all_once(&mut exec), 0);
    set_manual_drive(&mut exec, false);
}

struct Named {
    name: u32,
    left: u32,
    trace: Arc<Mutex<Vec<u32>>>,
}

impl Pollable for Named {
    fn step(&mut self) -> bool {
        self.trace.lock().unwrap().push(self.name);
        self.left -= 1;
        self.left > 0
    }
}

#[test]
fn rounds_follow_the_order_of_registration() {
    let trace = Arc::new(Mutex::new(Vec::new()));
    let mut exec = Executor::new();
    for (name, left) in [(1, 3), (2, 1), (3, 2)] {
        let done = exec.new_flag();
        register(&mut exec, Named { name, left, trace: Arc::clone(&trace) }, done);
    }
    assert_eq!(step_all_once(&mut exec), 3);
    assert_eq!(step_all_once(&mut exec), 2);
    assert_eq!(step_all_once(&mut exec), 1);
    assert_eq!(step_all_once(&mut exec), 0);
    assert_eq!(*trace.lock().unwrap(), vec![1, 2, 3, 1, 3, 1]);
}

#[test]
fn a_shared_flag_stops_both_pollers() {
    let trace = Arc::new(Mutex::new(Vec::new()));
    let mut exec = Executor::new();
    let done = exec.new_flag();
    let first = register(&mut exec, Named { name: 1, left: 1, trace: Arc::clone(&trace) }, done);
    let second = register(&mut exec, Named { name: 2, left: 9, trace: Arc::clone(&trace) }, done);
    assert!(first.start_driver);
    assert!(!second.start_driver);
    // The first one stops and sets the flag, so the second is dropped unstepped.
    assert_eq!(step_all_once(&mut exec), 1);
    assert_eq!(*trace.lock().unwrap(), vec![1]);
    assert_eq!(live_count(&exec), 0);
    assert!(!step_one(&mut exec, second.id));
}

#[test]
fn the_driver_idles_in_manual_drive() {
    let trace = Arc::new(Mutex::new(Vec::new()));
    let mut exec = Executor::new();
    let done = exec.new_flag();
    let id = register(&mut exec, Named { name: 1, left: 9, trace }, done).id;
    assert!(!is_manual_drive(&exec));
    assert_eq!(exec.driver_round(), vec![id]);
    set_manual_drive(&mut exec, true);
    assert!(is_manual_drive(&exec));
    assert!(exec.driver_round().is_empty());
}

#[test]
fn a_poller_that_is_stopped_during_its_step_does_not_come_back() {
    let trace = Arc::new(Mutex::new(Vec::new()));
    let mut exec = Executor::new();
    let done = exec.new_flag();
    let id = register(&mut exec, Named { name: 1, left: 9, trace }, done).id;
    let mut entry = exec.begin_step(id).unwrap();
    assert_eq!(live_count(&exec), 0);
    force_stop(&mut exec, done);
    let goes_on = entry.poller.step();
    assert!(goes_on);
    exec.finish_step(entry, goes_on);
    assert_eq!(live_count(&exec), 0);
    assert!(exec.is_done(done));
}

fn drive_once(plane: &mut DstPlane, exec: &mut Executor<CountingPoller>) -> usize {
    dst_tick(plane);
    step_all_once(exec)
}

#[test]
fn test_dst_drive_once_advances_logical_clock() {
    let mut plane = DstPlane::new();
    let mut thread_rng = DstRng::thread_default();
    let mut exec: Executor<CountingPoller> = Executor::new();
    set_manual_drive(&mut exec, true);
    let _ = dst_init(&mut plane, &mut thread_rng, 7);
    let t0 = Instant::now_coarse(&mut plane.clock);
    let _ = drive_once(&mut plane, &mut exec);
    let _ = drive_once(&mut plane, &mut exec);
    let t1 = Instant::now_coarse(&mut plane.clock);
    let ms = t1.saturating_duration_since(t0).as_millis();
    // Two drive_once → two dst_tick (1ms each) ≈ 2ms logical.
    assert!(
        ms >= 1 && ms <= 5,
        "expected ~2ms logical advance, got {ms}ms"
    );
    assert_eq!(ms, 2);
}
