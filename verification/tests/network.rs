use tikv_dst::delivery_log::{
    is_app_path_log_entry, is_noise_log_entry, log_entry_msg_type, log_line, ops_sequence,
    summarize_log, Select, MSG_APP, MSG_APP_RESP, MSG_HEARTBEAT, MSG_HEARTBEAT_RESP, MSG_HUP,
};
use tikv_dst::dst_net::{DstNetworkQueue, SeededRng};
use tikv_dst::raft_message::{msg_sort_key, RaftMessage};

fn message(from: u64, to: u64, region: u64, msg_type: i32, term: u64, index: u64) -> RaftMessage {
    RaftMessage {
        from_store_id: from,
        to_store_id: to,
        region_id: region,
        msg_type,
        term,
        index,
        body: Vec::new(),
    }
}

fn make_msg(from: u64, to: u64, region: u64, term: u64, index: u64) -> RaftMessage {
    message(from, to, region, MSG_APP, term, index)
}

#[test]
fn take_sorted_is_deterministic() {
    let mut net = DstNetworkQueue::new(0xABC, 0);
    // Inject via filter (hold mode).
    let mut batch = vec![
        make_msg(3, 1, 1, 5, 10),
        make_msg(1, 2, 1, 5, 1),
        make_msg(2, 3, 1, 5, 5),
        make_msg(1, 2, 1, 5, 2),
    ];
    let _ = net.before(&mut batch);
    assert!(batch.is_empty());
    assert_eq!(net.pending(), 4);

    let a = net.take_sorted(usize::MAX);
    assert_eq!(a.len(), 4);
    // Re-buffer same multiset via another queue with same seed ops.
    let mut net2 = DstNetworkQueue::new(0xABC, 0);
    let mut batch2 = vec![
        make_msg(3, 1, 1, 5, 10),
        make_msg(1, 2, 1, 5, 1),
        make_msg(2, 3, 1, 5, 5),
        make_msg(1, 2, 1, 5, 2),
    ];
    let _ = net2.before(&mut batch2);
    let b = net2.take_sorted(usize::MAX);
    let keys_a: Vec<_> = a.iter().map(msg_sort_key).collect();
    let keys_b: Vec<_> = b.iter().map(msg_sort_key).collect();
    assert_eq!(keys_a, keys_b);
    // Sorted by from,to,region,type,term,index
    assert_eq!(keys_a[0].0, 1);
    assert_eq!(keys_a[0].5, 1);
    assert_eq!(keys_a[1].0, 1);
    assert_eq!(keys_a[1].5, 2);
}

fn release_trace(seed: u64) -> Vec<u64> {
    let mut net = DstNetworkQueue::new(seed, 0).with_max_delay(3);
    let mut batch: Vec<_> = (0..6).map(|i| make_msg(1, 2, 1, 1, i)).collect();
    let _ = net.before(&mut batch);
    let mut indices = Vec::new();
    // tick once per step, then take what is ready
    for _ in 0..8 {
        net.tick_delays();
        for m in net.take_sorted(usize::MAX) {
            indices.push(m.index);
        }
    }
    indices
}

#[test]
fn max_delay_is_seed_stable() {
    assert_eq!(release_trace(77), release_trace(77));
    assert_eq!(release_trace(77).len(), 6);
    // Different seeds can differ (not required, but likely).
    let _ = release_trace(78);
}

#[test]
fn delays_follow_the_generator() {
    // The delays of seed 77 are 2, 1, 0, 3, 2, 3 steps.
    assert_eq!(release_trace(77), vec![1, 2, 0, 4, 3, 5]);
}

#[test]
fn take_sorted_does_not_tick_delays() {
    let mut net = DstNetworkQueue::new(1, 0).with_max_delay(2);
    let mut batch: Vec<_> = (0..20).map(|i| make_msg(1, 2, 1, 1, i)).collect();
    let _ = net.before(&mut batch);
    let delayed_before = net.delayed_pending();
    // Many take_sorted without tick must not free delayed msgs.
    for _ in 0..10 {
        let _ = net.take_sorted(usize::MAX);
    }
    assert_eq!(
        net.delayed_pending(),
        delayed_before,
        "take_sorted must not advance delay clock"
    );
    net.tick_delays();
    assert!(
        net.delayed_pending() <= delayed_before,
        "tick_delays should reduce or keep delayed count"
    );
}

#[test]
fn delayed_messages_are_counted() {
    let mut net = DstNetworkQueue::new(1, 0).with_max_delay(2);
    let mut batch: Vec<_> = (0..20).map(|i| make_msg(1, 2, 1, 1, i)).collect();
    let _ = net.before(&mut batch);
    assert_eq!(net.delayed_pending(), 12);
    net.tick_delays();
    assert_eq!(net.delayed_pending(), 7);
    net.tick_delays();
    assert_eq!(net.delayed_pending(), 0);
    assert_eq!(net.pending(), 20);
    assert_eq!(net.take_sorted(usize::MAX).len(), 20);
}

fn drop_once(seed: u64) -> (Vec<String>, usize) {
    let mut net = DstNetworkQueue::new(seed, 0).with_drop_rate(40);
    let mut batch: Vec<_> = (0..20)
        .map(|i| make_msg(1, 2, 1, 1, i as u64))
        .collect();
    let _ = net.before(&mut batch);
    let taken = net.take_sorted(usize::MAX);
    let out = net.record_and_filter(taken);
    (net.delivery_log(), out.len())
}

#[test]
fn drop_rate_is_seed_stable() {
    let (log1, n1) = drop_once(99);
    let (log2, n2) = drop_once(99);
    assert_eq!(log1, log2);
    assert_eq!(n1, n2);
    assert!(n1 < 20, "expected some drops at 40%, got {}", n1);
}

#[test]
fn dropped_messages_are_marked() {
    let (log, n) = drop_once(99);
    assert_eq!(n, 17);
    assert_eq!(log.len(), 20);
    for (i, line) in log.iter().enumerate() {
        let plain = format!("1>2:1:3:1:{}", i);
        if i == 10 || i == 13 || i == 17 {
            assert_eq!(*line, format!("DROP:{}", plain));
        } else {
            assert_eq!(*line, plain);
        }
    }
}

#[test]
fn full_drop_rate_is_a_hundred_percent() {
    let mut net = DstNetworkQueue::new(5, 0).with_drop_rate(1000);
    let out = net.record_and_filter(vec![make_msg(1, 2, 3, 4, 5), make_msg(1, 2, 3, 4, 6)]);
    assert!(out.is_empty());
    assert_eq!(net.delivery_log(), vec!["DROP:1>2:3:3:4:5", "DROP:1>2:3:3:4:6"]);
}

#[test]
fn generator_gives_the_xorshift_stream() {
    let mut rng = SeededRng::new(1);
    assert_eq!(rng.next_u32(), 0);
    assert_eq!(rng.next_u32(), 268452102);
    assert_eq!(rng.next_u32(), 2602468399);
    // Seed zero would be stuck and stands for one.
    let mut zero = SeededRng::new(0);
    assert_eq!(zero.next_u32(), 0);
    assert_eq!(zero.next_u32(), 268452102);
    assert_eq!(zero.gen_range(0), 0);
    assert_eq!(zero.gen_range(100), 2602468399 % 100);
}

#[test]
fn messages_with_equal_keys_keep_their_order() {
    let mut net = DstNetworkQueue::new(1, 0);
    let mut batch = Vec::new();
    for tag in 0..4u8 {
        let mut m = make_msg(2, 1, 1, 1, 1);
        m.body = vec![tag];
        batch.push(m);
        batch.push(make_msg(1, 1, 1, 1, tag as u64));
    }
    assert!(!net.before(&mut batch));
    let out = net.take_sorted(5);
    assert_eq!(out.len(), 5);
    let indices: Vec<u64> = out[..4].iter().map(|m| m.index).collect();
    assert_eq!(indices, vec![0, 1, 2, 3]);
    assert_eq!(out[4].body, vec![0]);
    let rest = net.take_sorted(usize::MAX);
    let tags: Vec<u8> = rest.iter().map(|m| m.body[0]).collect();
    assert_eq!(tags, vec![1, 2, 3]);
    assert_eq!(net.pending(), 0);
}

#[test]
fn order_of_arrival_does_not_matter() {
    let mut a = DstNetworkQueue::new(1, 0);
    let mut b = DstNetworkQueue::new(1, 0);
    let mut one: Vec<_> = (0..9).map(|i| make_msg(i % 3, 1, 1, 1, i)).collect();
    let mut other: Vec<_> = (0..9).rev().map(|i| make_msg(i % 3, 1, 1, 1, i)).collect();
    a.before(&mut one);
    b.before(&mut other);
    let x: Vec<_> = a.take_sorted(usize::MAX).iter().map(msg_sort_key).collect();
    let y: Vec<_> = b.take_sorted(usize::MAX).iter().map(msg_sort_key).collect();
    assert_eq!(x, y);
}

#[test]
fn batches_are_released_on_their_own() {
    let mut net = DstNetworkQueue::new(1, 2);
    let mut batch = vec![make_msg(2, 1, 1, 1, 1)];
    assert!(!net.before(&mut batch));
    assert!(batch.is_empty());
    let mut batch = vec![make_msg(1, 1, 1, 1, 2)];
    assert!(net.before(&mut batch));
    let froms: Vec<u64> = batch.iter().map(|m| m.from_store_id).collect();
    assert_eq!(froms, vec![1, 2]);
    assert_eq!(net.pending(), 0);
    assert_eq!(net.delivery_log(), vec!["1>1:1:3:1:2", "2>1:1:3:1:1"]);
}

#[test]
fn a_long_backlog_is_released_at_once() {
    let mut net = DstNetworkQueue::new(1, 1000);
    let mut batch: Vec<_> = (0..64).map(|i| make_msg(1, 1, 1, 1, i)).collect();
    assert!(!net.before(&mut batch));
    assert_eq!(net.pending(), 64);
    let mut batch = vec![make_msg(1, 1, 1, 1, 64)];
    assert!(net.before(&mut batch));
    assert_eq!(batch.len(), 65);
}

#[test]
fn passthrough_leaves_batches_alone() {
    let mut net = DstNetworkQueue::new(1, 0);
    net.set_passthrough(true);
    let mut batch = vec![make_msg(2, 1, 1, 1, 1), make_msg(1, 1, 1, 1, 1)];
    assert!(net.before(&mut batch));
    assert_eq!(batch.len(), 2);
    assert_eq!(batch[0].from_store_id, 2);
    assert_eq!(net.pending(), 0);
    let mut none = Vec::new();
    assert!(!net.before(&mut none));
}

#[test]
fn recording_can_be_turned_off() {
    let mut net = DstNetworkQueue::new(1, 0);
    net.set_recording(false);
    assert_eq!(net.record_and_filter(vec![make_msg(1, 2, 1, 1, 1)]).len(), 1);
    assert!(net.delivery_log().is_empty());
    net.set_recording(true);
    net.record_and_filter(vec![make_msg(1, 2, 1, 1, 1)]);
    assert_eq!(net.delivery_log().len(), 1);
    net.clear_log();
    assert!(net.delivery_log().is_empty());
}

#[test]
fn log_lines_name_their_type() {
    for t in [MSG_HUP, MSG_APP, MSG_APP_RESP, MSG_HEARTBEAT, MSG_HEARTBEAT_RESP, -7, i32::MIN, i32::MAX] {
        let m = message(u64::MAX, 0, 7, t, 8, 9);
        assert_eq!(log_entry_msg_type(&log_line(&m, false)), Some(t));
        assert_eq!(log_entry_msg_type(&log_line(&m, true)), Some(t));
    }
    assert_eq!(
        log_line(&message(u64::MAX, 0, 7, -7, 8, 9), true),
        "DROP:18446744073709551615>0:7:-7:8:9"
    );
    assert_eq!(log_entry_msg_type("1>2:3"), None);
    assert_eq!(log_entry_msg_type("1>2:3:x:4:5"), None);
    assert_eq!(log_entry_msg_type("1>2:3:+4:4:5"), Some(4));
    assert_eq!(log_entry_msg_type("1>2:3:2147483648:4:5"), None);
    assert_eq!(log_entry_msg_type("1>2:3::4:5"), None);
    assert_eq!(log_entry_msg_type(""), None);
}

#[test]
fn noise_and_app_path_are_told_apart() {
    assert!(is_noise_log_entry("1>2:1:0:1:1"));
    assert!(is_noise_log_entry("1>2:1:8:1:1"));
    assert!(is_noise_log_entry("DROP:1>2:1:9:1:1"));
    assert!(!is_noise_log_entry("1>2:1:3:1:1"));
    assert!(is_app_path_log_entry("1>2:1:3:1:1"));
    assert!(is_app_path_log_entry("DROP:1>2:1:4:1:1"));
    assert!(!is_app_path_log_entry("1>2:1:5:1:1"));
    assert!(!is_app_path_log_entry("garbage"));
}

#[test]
fn summaries_count_lines_under_sorted_keys() {
    let mut net = DstNetworkQueue::new(1, 0);
    net.record_and_filter(vec![
        message(2, 1, 1, MSG_APP_RESP, 5, 1),
        message(1, 2, 1, MSG_APP, 5, 1),
        message(1, 2, 1, MSG_HEARTBEAT, 5, 1),
        message(1, 2, 1, MSG_APP, 5, 2),
        message(1, 3, 1, 5, 5, 2),
    ]);
    assert_eq!(net.log_summary_no_hb(), "1>2:1:3x2,1>3:1:5x1,2>1:1:4x1");
    assert_eq!(net.log_summary_app_only(), "1>2:1:3x2,2>1:1:4x1");
    assert_eq!(net.log_ops_sequence(), "2>1:1:4|1>2:1:3|1>2:1:3");
}

#[test]
fn summaries_of_odd_lines() {
    let log: Vec<String> = ["DROP:1>2:1:3:1:1", "a", "b:c", "a", "DROP:x"]
        .iter()
        .map(|s| s.to_string())
        .collect();
    assert_eq!(
        summarize_log(&log, Select::NoNoise),
        "DROP:1>2:1:3x1,DROP:xx1,ax2,b:cx1"
    );
    assert_eq!(summarize_log(&log, Select::AppPath), "DROP:1>2:1:3x1");
    assert_eq!(ops_sequence(&log), "DROP:1>2:1:3");
    assert_eq!(summarize_log(&Vec::new(), Select::NoNoise), "");
}

#[test]
fn summaries_ignore_the_order_of_delivery() {
    let a: Vec<String> = ["1>2:1:3:1:1", "2>1:1:4:1:1", "1>2:1:3:1:2"].iter().map(|s| s.to_string()).collect();
    let b: Vec<String> = a.iter().rev().cloned().collect();
    assert_eq!(summarize_log(&a, Select::NoNoise), summarize_log(&b, Select::NoNoise));
}
