use std::cell::RefCell;
use std::rc::Rc;
use std::sync::Arc;
use tikv_dst::det_env::{DetEnv, IoKind, IoWait};
use tikv_dst::duration::Duration;
use tikv_dst::key_handle::{KeyHandle, RetiredHandles};

#[test]
fn test_det_env_log() {
    let mut det = DetEnv::new();
    det.set_log_enabled(true);
    assert_eq!(det.drain_log().len(), 0);
    assert_eq!(det.read(128, 0), 128);
    assert_eq!(det.write(256, 0), 256);
    let log = det.drain_log();
    assert_eq!(log.len(), 2);
    assert_eq!((log[0].kind, log[0].bytes), (IoKind::Read, 128));
    assert_eq!((log[1].kind, log[1].bytes), (IoKind::Write, 256));
    // Draining empties it.
    assert_eq!(det.drain_log().len(), 0);
}

#[test]
fn test_det_env_log_disabled_by_default() {
    let mut det = DetEnv::new();
    det.read(64, 0);
    assert_eq!(det.drain_log().len(), 0, "logging must be opt-in");
}

#[test]
fn test_det_env_delay_applies_to_every_op() {
    let mut det = DetEnv::new();
    det.set_delay_ms(15);
    let start = std::time::Instant::now();
    det.write(64, 0);
    match det.next_wait() {
        IoWait::Delayed(d) => {
            let wait = std::time::Duration::from_millis(d.as_millis() as u64);
            let asked = std::time::Instant::now();
            while asked.elapsed() < wait {}
        }
        other => panic!("{:?}", other),
    }
    assert!(start.elapsed() >= std::time::Duration::from_millis(15));
}

#[test]
fn test_det_env_clones_share_state() {
    // A clone of the handle must control the same disk, not an independent copy.
    let det = Rc::new(RefCell::new(DetEnv::new()));
    let det2 = det.clone();
    det2.borrow_mut().set_log_enabled(true);
    assert_eq!(det.borrow_mut().write(42, 0), 42);
    assert_eq!(det2.borrow_mut().drain_log().len(), 1, "clone did not observe the original's I/O");
}

#[test]
fn a_stalled_disk_waits_before_its_delay() {
    let mut det = DetEnv::default();
    assert!(matches!(det.next_wait(), IoWait::Ready));
    det.set_paused(true);
    det.set_delay_ms(15);
    match det.next_wait() {
        IoWait::Stalled(d) => assert_eq!(d, Duration::from_millis(1)),
        other => panic!("{:?}", other),
    }
    det.set_paused(false);
    match det.next_wait() {
        IoWait::Delayed(d) => assert_eq!(d, Duration::from_millis(15)),
        other => panic!("{:?}", other),
    }
    det.set_log_enabled(true);
    det.read(1, 77);
    det.set_log_enabled(false);
    det.read(2, 78);
    let log = det.drain_log();
    assert_eq!(log.len(), 1);
    assert_eq!(log[0].logical_nanos, 77);
}

#[test]
fn a_lock_is_kept_while_the_key_is_held() {
    let mut retired: RetiredHandles<Arc<u32>> = RetiredHandles::new();
    let mut handle: KeyHandle<&str> = KeyHandle::new(b"k".to_vec());
    assert!(handle.with_lock(|l| l.is_none()));
    let reference = Arc::new(1);
    let watch = Arc::downgrade(&reference);
    let mut guard = handle.lock(&mut retired);
    assert_eq!(guard.key(), b"k");
    let had = guard.with_lock(|l| l.replace("lock").is_some());
    assert!(!had);
    assert!(guard.with_lock(|l| *l == Some("lock")));
    assert!(guard.release(reference, &mut retired, false).is_none());
    // The lock is gone with the guard; the reference is kept.
    assert!(handle.with_lock(|l| l.is_none()));
    assert!(watch.upgrade().is_some());
    // Taking a key frees it.
    let _guard = handle.lock(&mut retired);
    assert!(watch.upgrade().is_none());
}

#[test]
fn an_ending_thread_keeps_no_references() {
    let mut retired: RetiredHandles<u32> = RetiredHandles::new();
    let mut handle: KeyHandle<u8> = KeyHandle::new(vec![1, 2]);
    let guard = handle.lock(&mut retired);
    assert_eq!(guard.release(5, &mut retired, true), Some(5));
    assert_eq!(handle.table_key(), None);
    handle.set_table();
    assert_eq!(handle.table_key(), Some(&vec![1, 2]));
}
