use tikv_dst::det_clock_bridge::{init, init_done, shm_path, sync, ClockBridge};
use tikv_dst::dst_init::{
    dst_init, dst_init_rest, dst_reseed_before_phase, dst_sleep_ms, dst_tick, DstPlane,
};
use tikv_dst::dst_rng::DstRng;
use tikv_dst::instant::Instant;
use tikv_dst::logical_clock::{dst_advance, dst_now_nanos};
use tikv_dst::raftstore::{bytes_capacity, dst_force_thread_rng_reseed};

fn init_plane(plane: &mut DstPlane, thread_rng: &mut DstRng, seed: u64) {
    let writes = dst_init(plane, thread_rng, seed);
    let _ = dst_init_rest(plane, seed, writes.bridge, true, false);
}

#[test]
fn instant_follows_logical_clock() {
    let mut plane = DstPlane::new();
    let mut thread_rng = DstRng::thread_default();
    init_plane(&mut plane, &mut thread_rng, 123);
    let a = Instant::now(&mut plane.clock);
    dst_sleep_ms(&mut plane, 10);
    let b = Instant::now(&mut plane.clock);
    let d = b.saturating_duration_since(a);
    assert!(
        d.as_millis() >= 9 && d.as_millis() <= 11,
        "expected ~10ms logical, got {:?}",
        d
    );
    assert_eq!(d.as_nanos(), 10_000_000);
}

#[test]
fn init_replays_the_random_numbers() {
    let mut plane = DstPlane::new();
    let mut thread_rng = DstRng::thread_default();
    init_plane(&mut plane, &mut thread_rng, 7);
    let x = thread_rng.next_u64();
    init_plane(&mut plane, &mut thread_rng, 7);
    let y = thread_rng.next_u64();
    assert_eq!(x, y);
}

#[test]
fn init_replays_the_time() {
    let mut plane = DstPlane::new();
    let mut thread_rng = DstRng::thread_default();
    let mut runs = Vec::new();
    for before in [3, 4_000_000_000] {
        dst_advance(&mut plane.clock, before);
        init_plane(&mut plane, &mut thread_rng, 7);
        let mut times = vec![dst_now_nanos(&plane.clock)];
        dst_tick(&mut plane);
        times.push(dst_now_nanos(&plane.clock));
        plane.clock.driver_tick();
        dst_sleep_ms(&mut plane, 2);
        times.push(dst_now_nanos(&plane.clock));
        runs.push(times);
    }
    assert_eq!(runs[0], vec![0, 1_000_000, 3_000_000]);
    assert_eq!(runs[0], runs[1]);
}

#[test]
fn init_asks_for_its_effects() {
    let mut plane = DstPlane::new();
    let mut thread_rng = DstRng::thread_default();
    dst_advance(&mut plane.clock, 500);
    let writes = dst_init(&mut plane, &mut thread_rng, 7);
    assert!(writes.epoch.is_none());
    assert!(writes.zero.is_none());
    assert_eq!(writes.bridge.path, "/tmp/dst_clock");
    assert_eq!(writes.bridge.bytes, vec![0; 8]);
    let rest = dst_init_rest(&mut plane, 7, writes.bridge, true, false);
    assert_eq!(rest.sync.unwrap().bytes, vec![0; 8]);
    assert_eq!(rest.shm_env.as_deref(), Some("/tmp/dst_clock"));
    assert_eq!(rest.seed_env, "7");
    assert_eq!(rest.reset_env, "1");
    assert_eq!(rest.entropy_seed, 7);

    // Once more: now the file is in use, and first shows the new epoch.
    let writes = dst_init(&mut plane, &mut thread_rng, u64::MAX);
    assert_eq!(writes.epoch.unwrap().bytes, 3_600_000_000_000i64.to_le_bytes());
    assert_eq!(writes.zero.unwrap().bytes, vec![0; 8]);
    let rest = dst_init_rest(&mut plane, u64::MAX, writes.bridge, false, true);
    assert!(rest.sync.is_some());
    assert_eq!(rest.shm_env, None);
    assert_eq!(rest.seed_env, "18446744073709551615");
    assert_eq!(rest.reset_env, "2");

    let reseed = dst_reseed_before_phase(&mut plane);
    assert_eq!((reseed.before.as_str(), reseed.after.as_str()), ("3", "4"));
}

#[test]
fn a_failed_bridge_stays_off() {
    let mut plane = DstPlane::new();
    let mut thread_rng = DstRng::thread_default();
    let writes = dst_init(&mut plane, &mut thread_rng, 1);
    let rest = dst_init_rest(&mut plane, 1, writes.bridge, false, false);
    assert!(rest.sync.is_none());
    assert_eq!(rest.shm_env.as_deref(), Some("/tmp/dst_clock"));
    assert!(dst_tick(&mut plane).write.is_none());
}

#[test]
fn moves_are_written_and_processed() {
    let mut plane = DstPlane::new();
    let mut thread_rng = DstRng::thread_default();
    init_plane(&mut plane, &mut thread_rng, 1);
    let tick = dst_tick(&mut plane);
    assert_eq!(tick.write.unwrap().bytes, 1_000_000i64.to_le_bytes());
    assert_eq!(tick.timer_request, 1);
    let sleep = dst_sleep_ms(&mut plane, 0);
    assert!(sleep.write.is_none());
    assert_eq!(sleep.timer_request, 2);
    let sleep = dst_sleep_ms(&mut plane, 250);
    assert_eq!(sleep.write.unwrap().bytes, 251_000_000i64.to_le_bytes());
    assert_eq!(dst_now_nanos(&plane.clock), 251_000_000);
    // However long the sleep, the clock does not go backward.
    let sleep = dst_sleep_ms(&mut plane, u64::MAX);
    assert_eq!(sleep.write.unwrap().bytes, i64::MAX.to_le_bytes());
    assert_eq!(dst_now_nanos(&plane.clock), i64::MAX);
}

#[test]
fn the_bridge_writes_little_endian() {
    let mut bridge = ClockBridge::new();
    assert_eq!(shm_path(&bridge), "/tmp/dst_clock");
    assert!(sync(&bridge, 5).is_none());
    let first = init(Some("/tmp/other"), -2);
    assert_eq!(first.bytes, (-2i64).to_le_bytes());
    init_done(&mut bridge, first, true);
    assert_eq!(shm_path(&bridge), "/tmp/other");
    let write = sync(&bridge, 0x0102_0304_0506_0708).unwrap();
    assert_eq!(write.path, "/tmp/other");
    assert_eq!(write.bytes, vec![8, 7, 6, 5, 4, 3, 2, 1]);
    init_done(&mut bridge, init(None, 0), false);
    assert_eq!(shm_path(&bridge), "/tmp/other");
}

#[test]
fn the_thread_generator_is_drained() {
    let bytes = dst_force_thread_rng_reseed();
    assert_eq!(bytes.len(), 65_536);
    assert!(bytes.iter().any(|b| *b != 0));
}

#[test]
fn buffers_count_their_length() {
    assert_eq!(bytes_capacity(&bytes::Bytes::from_static(b"abcde")), 5);
    assert_eq!(bytes_capacity(&bytes::Bytes::from(vec![0u8; 300]).slice(10..20)), 10);
    assert_eq!(bytes_capacity(&bytes::Bytes::new()), 0);
}
