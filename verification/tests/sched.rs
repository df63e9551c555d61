use std::collections::VecDeque;
use tikv_dst::dst_sched::{
    interleave, interleave_seeded, run_interleaved, run_seeded, schedule_from_seed, Step,
};

type Log<T> = Vec<(usize, T)>;

#[test]
fn schedule_bitstable() {
    let c = [3usize, 5, 2];
    assert_eq!(schedule_from_seed(7, &c), schedule_from_seed(7, &c));
    assert_eq!(schedule_from_seed(7, &c).len(), 10);
}

#[test]
fn interleaved_order_deterministic() {
    let ops: Vec<u32> = (0..12).collect();
    let mut log1 = Vec::new();
    let mut log2 = Vec::new();
    run_seeded(99, 3, &ops, &mut log1, |log: &mut Log<u32>, w, op| log.push((w, op)));
    run_seeded(99, 3, &ops, &mut log2, |log: &mut Log<u32>, w, op| log.push((w, op)));
    assert_eq!(log1, log2);
    assert_eq!(log1.len(), 12);
}

#[test]
fn schedules_have_their_exact_order() {
    let order = |seed, ops: &[usize]| -> Vec<usize> {
        schedule_from_seed(seed, ops).iter().map(|s| s.worker).collect()
    };
    assert_eq!(order(7, &[3, 5, 2]), vec![1, 2, 0, 0, 0, 2, 1, 1, 1, 1]);
    assert_eq!(order(99, &[4, 4, 4]), vec![2, 0, 1, 1, 2, 0, 2, 0, 0, 1, 2, 1]);
    assert_eq!(order(1, &[0, 2, 0]), vec![1, 1]);
    assert!(order(1, &[]).is_empty());
}

#[test]
fn every_worker_gets_its_steps() {
    let ops = [4usize, 0, 9, 1];
    for seed in 0..50 {
        let schedule = schedule_from_seed(seed, &ops);
        for (w, n) in ops.iter().enumerate() {
            assert_eq!(schedule.iter().filter(|s| s.worker == w).count(), *n);
        }
    }
}

#[test]
fn queues_run_in_order() {
    let schedule: Vec<Step> = [1usize, 0, 1, 1].iter().map(|w| Step { worker: *w }).collect();
    let mut queues = vec![VecDeque::from(vec!["a", "b"]), VecDeque::from(vec!["x", "y"])];
    let trace = interleave(&schedule, &mut queues);
    // The last step finds its queue empty.
    assert_eq!(trace, vec![(1, "x"), (0, "a"), (1, "y")]);
    assert_eq!(queues[0], vec!["b"]);
    assert!(queues[1].is_empty());
    let mut seen = Vec::new();
    let record = |log: &mut Log<&'static str>, w, op| log.push((w, op));
    run_interleaved(&[Step { worker: 0 }], &mut queues, &mut seen, record);
    assert_eq!(seen, vec![(0, "b")]);
}

#[test]
fn calls_come_in_the_order_of_the_schedule() {
    let schedule: Vec<Step> = [1usize, 0, 1, 1, 2].iter().map(|w| Step { worker: *w }).collect();
    let mut queues =
        vec![VecDeque::from(vec![1, 2]), VecDeque::from(vec![3, 4]), VecDeque::from(vec![5])];
    let mut log = vec![(9, 9)];
    run_interleaved(&schedule, &mut queues, &mut log, |log: &mut Log<u32>, w, op| {
        log.push((w, op))
    });
    // The fourth step finds its queue empty and makes no call.
    assert_eq!(log, vec![(9, 9), (1, 3), (0, 1), (1, 4), (2, 5)]);
    assert_eq!(queues[0], vec![2]);
}

#[test]
fn seeded_runs_have_their_exact_order() {
    let mut log = Vec::new();
    run_seeded(0x5CED_5CED_5CED_5CED, 2, &[10, 11, 12, 13], &mut log, |l: &mut Log<u32>, w, op| {
        l.push((w, op))
    });
    assert_eq!(log, vec![(1, 11), (0, 10), (1, 13), (0, 12)]);
}

#[test]
fn each_worker_runs_its_share_in_order() {
    let ops: Vec<usize> = (0..23).collect();
    for seed in 0..20 {
        let trace = interleave_seeded(seed, 5, &ops);
        assert_eq!(trace.len(), 23);
        for worker in 0..5 {
            let share: Vec<usize> =
                trace.iter().filter(|(w, _)| *w == worker).map(|(_, op)| *op).collect();
            let dealt: Vec<usize> = ops.iter().copied().filter(|i| i % 5 == worker).collect();
            assert_eq!(share, dealt);
        }
        let counts = [5usize, 5, 5, 4, 4];
        let order: Vec<usize> =
            schedule_from_seed(seed, &counts).iter().map(|s| s.worker).collect();
        assert_eq!(trace.iter().map(|(w, _)| *w).collect::<Vec<usize>>(), order);
    }
}

#[test]
fn operations_are_dealt_in_turn() {
    let ops: Vec<u32> = (0..12).collect();
    let trace = interleave_seeded(99, 3, &ops);
    assert_eq!(
        trace,
        vec![
            (2, 2), (0, 0), (1, 1), (1, 4), (2, 5), (0, 3),
            (2, 8), (0, 6), (0, 9), (1, 7), (2, 11), (1, 10)
        ]
    );
    let none: Vec<u32> = Vec::new();
    assert!(interleave_seeded(1, 0, &none).is_empty());
}
