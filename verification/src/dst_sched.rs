//! Cooperative scheduler for several worker queues. The interleaving of the
//! workers is derived from a seed: one seed gives one order of steps.

use crate::chain::{is_chain, within};
use std::collections::VecDeque;
use vstd::prelude::*;

verus! {

/// Which worker runs at this step.
#[derive(Clone, Copy, Debug, PartialEq, Eq, Structural)]
pub struct Step {
    pub worker: usize,
}

/// Mixed into the seed of a schedule.
pub const SCHED_SEED_TAG: u64 = 0x5CED_5CED_5CED_5CED;

/// The state after `s` of the SplitMix64 generator.
pub open spec fn mix_next(s: u64) -> u64 {
    s.wrapping_add(0x9E3779B97F4A7C15)
}

/// The number that the SplitMix64 generator gives in state `s`.
pub open spec fn mix_out(s: u64) -> u64 {
    let z = mix_next(s);
    let z = (z ^ (z >> 30)).wrapping_mul(0xBF58476D1CE4E5B9);
    let z = (z ^ (z >> 27)).wrapping_mul(0x94D049BB133111EB);
    z ^ (z >> 31)
}

fn splitmix(state: &mut u64) -> (r: u64)
    ensures
        r == mix_out(*old(state)),
        *final(state) == mix_next(*old(state)),
{
    *state = state.wrapping_add(0x9E3779B97F4A7C15);
    let mut z: u64 = *state;
    z = (z ^ (z >> 30)).wrapping_mul(0xBF58476D1CE4E5B9);
    z = (z ^ (z >> 27)).wrapping_mul(0x94D049BB133111EB);
    z ^ (z >> 31)
}

/// The sum of the numbers.
pub open spec fn sum(s: Seq<usize>) -> nat
    decreases s.len(),
{
    if s.len() == 0 {
        0
    } else {
        sum(s.drop_last()) + s.last() as nat
    }
}

/// The workers that have work left, in ascending order.
pub open spec fn candidates(rem: Seq<usize>) -> Seq<usize>
    decreases rem.len(),
{
    if rem.len() == 0 {
        Seq::empty()
    } else if rem.last() > 0 {
        candidates(rem.drop_last()).push((rem.len() - 1) as usize)
    } else {
        candidates(rem.drop_last())
    }
}

/// The worker that runs next: the generator picks one of those that have work
/// left.
pub open spec fn picked(state: u64, rem: Seq<usize>) -> usize {
    let c = candidates(rem);
    c[(mix_out(state) as usize) as int % c.len() as int]
}

/// A schedule under construction: the state of the generator, the work left
/// for each worker, and the steps so far.
pub struct SchedState {
    pub state: u64,
    pub rem: Seq<usize>,
    pub steps: Seq<Step>,
}

/// The schedule after `k` steps.
pub open spec fn sched(seed: u64, ops: Seq<usize>, k: nat) -> SchedState
    decreases k,
{
    if k == 0 {
        SchedState { state: seed ^ SCHED_SEED_TAG, rem: ops, steps: Seq::empty() }
    } else {
        let s = sched(seed, ops, (k - 1) as nat);
        let w = picked(s.state, s.rem);
        SchedState {
            state: mix_next(s.state),
            rem: s.rem.update(w as int, (s.rem[w as int] - 1) as usize),
            steps: s.steps.push(Step { worker: w }),
        }
    }
}

/// The interleaving that a seed gives for these numbers of operations.
pub open spec fn schedule(seed: u64, ops: Seq<usize>) -> Seq<Step> {
    sched(seed, ops, sum(ops)).steps
}

/// How many steps are of this worker.
pub open spec fn steps_of(steps: Seq<Step>, worker: int) -> nat
    decreases steps.len(),
{
    if steps.len() == 0 {
        0
    } else {
        steps_of(steps.drop_last(), worker) + if steps.last().worker == worker {
            1nat
        } else {
            0
        }
    }
}

proof fn lemma_candidates(rem: Seq<usize>)
    requires
        rem.len() <= usize::MAX,
    ensures
        candidates(rem).len() <= rem.len(),
        forall|i: int|
            0 <= i < candidates(rem).len() ==> {
                let w = #[trigger] candidates(rem)[i];
                w < rem.len() && rem[w as int] > 0
            },
        candidates(rem).len() == 0 <==> sum(rem) == 0,
    decreases rem.len(),
{
    if rem.len() > 0 {
        lemma_candidates(rem.drop_last());
        assert forall|i: int| 0 <= i < candidates(rem).len() implies {
            let w = #[trigger] candidates(rem)[i];
            w < rem.len() && rem[w as int] > 0
        } by {
            if i < candidates(rem.drop_last()).len() {
                let w = candidates(rem.drop_last())[i];
                assert(rem.drop_last()[w as int] == rem[w as int]);
            }
        }
    }
}

proof fn lemma_sum_update(s: Seq<usize>, i: int, x: usize)
    requires
        0 <= i < s.len(),
    ensures
        sum(s.update(i, x)) == sum(s) - s[i] + x,
    decreases s.len(),
{
    let t = s.update(i, x);
    if i == s.len() - 1 {
        assert(t.drop_last() =~= s.drop_last());
    } else {
        assert(t.drop_last() =~= s.drop_last().update(i, x));
        lemma_sum_update(s.drop_last(), i, x);
    }
}

proof fn lemma_picked(state: u64, rem: Seq<usize>)
    requires
        rem.len() <= usize::MAX,
        sum(rem) > 0,
    ensures
        picked(state, rem) < rem.len(),
        rem[picked(state, rem) as int] > 0,
{
    lemma_candidates(rem);
    let c = candidates(rem);
    let i = (mix_out(state) as usize) as int % c.len() as int;
    assert(0 <= i < c.len()) by (nonlinear_arith)
        requires
            c.len() > 0,
            i == (mix_out(state) as usize) as int % c.len() as int,
    ;
    assert(c[i] < rem.len());
}

/// After each step the steps and the work left add up to what was to be done,
/// for every worker.
pub proof fn lemma_sched(seed: u64, ops: Seq<usize>, k: nat)
    requires
        ops.len() <= usize::MAX,
        k <= sum(ops),
    ensures
        sched(seed, ops, k).rem.len() == ops.len(),
        sched(seed, ops, k).steps.len() == k,
        sum(sched(seed, ops, k).rem) == sum(ops) - k,
        forall|w: int|
            0 <= w < ops.len() ==> #[trigger] steps_of(sched(seed, ops, k).steps, w) + sched(
                seed,
                ops,
                k,
            ).rem[w] == ops[w],
        forall|i: int|
            0 <= i < k ==> (#[trigger] sched(seed, ops, k).steps[i]).worker < ops.len(),
    decreases k,
{
    if k > 0 {
        let j = (k - 1) as nat;
        lemma_sched(seed, ops, j);
        let s = sched(seed, ops, j);
        let t = sched(seed, ops, k);
        lemma_picked(s.state, s.rem);
        let p = picked(s.state, s.rem);
        lemma_sum_update(s.rem, p as int, (s.rem[p as int] - 1) as usize);
        assert(t.steps.drop_last() =~= s.steps);
        assert forall|w: int| 0 <= w < ops.len() implies #[trigger] steps_of(t.steps, w) + t.rem[w]
            == ops[w] by {
            assert(steps_of(s.steps, w) + s.rem[w] == ops[w]);
        }
        assert forall|i: int| 0 <= i < k implies (#[trigger] t.steps[i]).worker < ops.len() by {
            if i < j {
                assert(t.steps[i] == s.steps[i]);
            }
        }
    }
}

proof fn lemma_sum_zero(s: Seq<usize>, i: int)
    requires
        sum(s) == 0,
        0 <= i < s.len(),
    ensures
        s[i] == 0,
    decreases s.len(),
{
    if i < s.len() - 1 {
        lemma_sum_zero(s.drop_last(), i);
        assert(s.drop_last()[i] == s[i]);
    }
}

/// A schedule gives every worker as many steps as it has operations.
pub proof fn lemma_schedule_complete(seed: u64, ops: Seq<usize>)
    requires
        ops.len() <= usize::MAX,
    ensures
        schedule(seed, ops).len() == sum(ops),
        forall|w: int| 0 <= w < ops.len() ==> #[trigger] steps_of(schedule(seed, ops), w) == ops[w],
        forall|i: int|
            0 <= i < schedule(seed, ops).len() ==> (#[trigger] schedule(seed, ops)[i]).worker
                < ops.len(),
{
    lemma_sched(seed, ops, sum(ops));
    let s = sched(seed, ops, sum(ops));
    assert forall|w: int| 0 <= w < ops.len() implies #[trigger] steps_of(schedule(seed, ops), w)
        == ops[w] by {
        lemma_sum_zero(s.rem, w);
    }
}

/// The workers that have work left.
fn collect_candidates(rem: &Vec<usize>) -> (r: Vec<usize>)
    ensures
        r@ == candidates(rem@),
{
    let mut out: Vec<usize> = Vec::new();
    let mut w: usize = 0;
    while w < rem.len()
        invariant
            w <= rem@.len(),
            out@ == candidates(rem@.take(w as int)),
        decreases rem@.len() - w,
    {
        assert(rem@.take(w + 1).drop_last() =~= rem@.take(w as int));
        if rem[w] > 0 {
            out.push(w);
        }
        w = w + 1;
    }
    assert(rem@.take(w as int) =~= rem@);
    out
}

proof fn lemma_sum_prefix(s: Seq<usize>, n: int)
    requires
        0 <= n <= s.len(),
    ensures
        sum(s.take(n)) <= sum(s),
    decreases s.len() - n,
{
    if n < s.len() {
        lemma_sum_prefix(s, n + 1);
        assert(s.take(n + 1).drop_last() =~= s.take(n));
    } else {
        assert(s.take(n) =~= s);
    }
}

/// Builds the interleaving of the workers' operations that the seed gives.
pub fn schedule_from_seed(seed: u64, ops_per_worker: &[usize]) -> (r: Vec<Step>)
    requires
        sum(ops_per_worker@) <= usize::MAX,
    ensures
        r@ == schedule(seed, ops_per_worker@),
        r@.len() == sum(ops_per_worker@),
        forall|i: int| 0 <= i < r@.len() ==> (#[trigger] r@[i]).worker < ops_per_worker@.len(),
{
    let ghost ops = ops_per_worker@;
    let n: usize = ops_per_worker.len();
    let mut rem: Vec<usize> = Vec::new();
    let mut total: usize = 0;
    let mut i: usize = 0;
    while i < n
        invariant
            i <= n == ops.len(),
            ops == ops_per_worker@,
            rem@ == ops.take(i as int),
            total == sum(ops.take(i as int)),
            sum(ops) <= usize::MAX,
        decreases n - i,
    {
        proof {
            assert(ops.take(i + 1).drop_last() =~= ops.take(i as int));
            lemma_sum_prefix(ops, i + 1);
        }
        rem.push(ops_per_worker[i]);
        total = total + ops_per_worker[i];
        i = i + 1;
    }
    assert(ops.take(n as int) =~= ops);
    let mut state: u64 = seed ^ SCHED_SEED_TAG;
    let mut out: Vec<Step> = Vec::new();
    let mut k: usize = 0;
    while k < total
        invariant
            k <= total,
            total == sum(ops),
            ops.len() <= usize::MAX,
            state == sched(seed, ops, k as nat).state,
            rem@ == sched(seed, ops, k as nat).rem,
            out@ == sched(seed, ops, k as nat).steps,
        decreases total - k,
    {
        let cands: Vec<usize> = collect_candidates(&rem);
        proof {
            lemma_sched(seed, ops, k as nat);
            lemma_candidates(rem@);
            lemma_picked(state, rem@);
        }
        let pick: usize = (splitmix(&mut state) as usize) % cands.len();
        let w: usize = cands[pick];
        let left: usize = rem[w];
        rem.set(w, left - 1);
        out.push(Step { worker: w });
        k = k + 1;
    }
    proof {
        lemma_schedule_complete(seed, ops);
    }
    out
}

/// What the queues hold.
pub open spec fn contents<T>(queues: Seq<VecDeque<T>>) -> Seq<Seq<T>> {
    queues.map_values(|q: VecDeque<T>| q@)
}

/// A run under way: the operations so far, each with its worker, and what is
/// left in the queues.
#[verifier::ext_equal]
#[verifier::reject_recursive_types(T)]
pub struct RunState<T> {
    pub trace: Seq<(usize, T)>,
    pub queues: Seq<Seq<T>>,
}

/// The run of a schedule: each step takes the first operation of its worker's
/// queue, if there is one.
pub open spec fn run<T>(schedule: Seq<Step>, queues: Seq<Seq<T>>) -> RunState<T>
    decreases schedule.len(),
{
    if schedule.len() == 0 {
        RunState { trace: Seq::empty(), queues }
    } else {
        let s = run(schedule.drop_last(), queues);
        let w = schedule.last().worker;
        let q = s.queues[w as int];
        if q.len() > 0 {
            RunState {
                trace: s.trace.push((w, q[0])),
                queues: s.queues.update(w as int, q.drop_first()),
            }
        } else {
            s
        }
    }
}

/// The operations of a trace that are of this worker, in their order.
pub open spec fn ops_of<T>(trace: Seq<(usize, T)>, worker: int) -> Seq<T>
    decreases trace.len(),
{
    if trace.len() == 0 {
        Seq::empty()
    } else if trace.last().0 == worker {
        ops_of(trace.drop_last(), worker).push(trace.last().1)
    } else {
        ops_of(trace.drop_last(), worker)
    }
}

/// Whether every step is of one of `n` workers.
pub open spec fn workers_below(schedule: Seq<Step>, n: int) -> bool {
    forall|i: int| 0 <= i < schedule.len() ==> (#[trigger] schedule[i]).worker < n
}

/// Under every interleaving each worker's operations run in the order of its
/// queue: those that ran, then those that are left, are the queue. One runs at
/// each of the worker's steps until the queue is empty.
pub proof fn lemma_queue_order<T>(schedule: Seq<Step>, queues: Seq<Seq<T>>, worker: int)
    requires
        workers_below(schedule, queues.len() as int),
        0 <= worker < queues.len(),
    ensures
        run(schedule, queues).queues.len() == queues.len(),
        ops_of(run(schedule, queues).trace, worker) + run(schedule, queues).queues[worker]
            == queues[worker],
        ops_of(run(schedule, queues).trace, worker).len() == if steps_of(schedule, worker)
            < queues[worker].len() {
            steps_of(schedule, worker)
        } else {
            queues[worker].len()
        },
    decreases schedule.len(),
{
    if schedule.len() == 0 {
        assert(ops_of(run(schedule, queues).trace, worker) + queues[worker] =~= queues[worker]);
    } else {
        let front = schedule.drop_last();
        assert(workers_below(front, queues.len() as int)) by {
            assert forall|i: int| 0 <= i < front.len() implies (#[trigger] front[i]).worker
                < queues.len() by {
                assert(front[i] == schedule[i]);
            }
        }
        lemma_queue_order(front, queues, worker);
        let s = run(front, queues);
        let t = run(schedule, queues);
        let w = schedule.last().worker;
        assert(schedule[schedule.len() - 1].worker < queues.len());
        let q = s.queues[w as int];
        if q.len() > 0 {
            assert(t.trace.drop_last() =~= s.trace);
            if w == worker {
                assert(ops_of(t.trace, worker) =~= ops_of(s.trace, worker).push(q[0]));
                assert(ops_of(s.trace, worker).push(q[0]) + q.drop_first() =~= ops_of(
                    s.trace,
                    worker,
                ) + q);
            }
        }
    }
}

/// A schedule that has no more steps of a worker than there are operations in
/// its queue takes one operation at every step, of the worker of that step.
pub proof fn lemma_run_takes_all<T>(schedule: Seq<Step>, queues: Seq<Seq<T>>)
    requires
        workers_below(schedule, queues.len() as int),
        forall|w: int|
            0 <= w < queues.len() ==> #[trigger] steps_of(schedule, w) <= queues[w].len(),
    ensures
        run(schedule, queues).queues.len() == queues.len(),
        run(schedule, queues).trace.len() == schedule.len(),
        forall|i: int|
            0 <= i < schedule.len() ==> (#[trigger] run(schedule, queues).trace[i]).0
                == schedule[i].worker,
        forall|w: int|
            0 <= w < queues.len() ==> (#[trigger] run(schedule, queues).queues[w]).len()
                == queues[w].len() - steps_of(schedule, w),
    decreases schedule.len(),
{
    if schedule.len() > 0 {
        let front = schedule.drop_last();
        assert(workers_below(front, queues.len() as int)) by {
            assert forall|i: int| 0 <= i < front.len() implies (#[trigger] front[i]).worker
                < queues.len() by {
                assert(front[i] == schedule[i]);
            }
        }
        assert forall|w: int| 0 <= w < queues.len() implies #[trigger] steps_of(front, w)
            <= queues[w].len() by {
            assert(steps_of(schedule, w) <= queues[w].len());
        }
        lemma_run_takes_all(front, queues);
        let s = run(front, queues);
        let w = schedule.last().worker as int;
        assert(schedule[schedule.len() - 1].worker < queues.len());
        assert(steps_of(schedule, w) <= queues[w].len());
        assert(s.queues[w].len() == queues[w].len() - steps_of(front, w));
        assert forall|v: int| 0 <= v < queues.len() implies (#[trigger] run(
            schedule,
            queues,
        ).queues[v]).len() == queues[v].len() - steps_of(schedule, v) by {
            assert(s.queues[v].len() == queues[v].len() - steps_of(front, v));
        }
    }
}

/// Takes the operations out of the queues in the order of the schedule.
pub fn interleave<T>(schedule: &[Step], queues: &mut [VecDeque<T>]) -> (r: Vec<(usize, T)>)
    requires
        workers_below(schedule@, old(queues)@.len() as int),
    ensures
        r@ == run(schedule@, contents(old(queues)@)).trace,
        contents(final(queues)@) == run(schedule@, contents(old(queues)@)).queues,
{
    let ghost start = contents(queues@);
    let mut out: Vec<(usize, T)> = Vec::new();
    let mut i: usize = 0;
    while i < schedule.len()
        invariant
            i <= schedule@.len(),
            workers_below(schedule@, start.len() as int),
            queues@.len() == start.len(),
            out@ == run(schedule@.take(i as int), start).trace,
            contents(queues@) == run(schedule@.take(i as int), start).queues,
        decreases schedule@.len() - i,
    {
        assert(schedule@.take(i + 1).drop_last() =~= schedule@.take(i as int));
        let w: usize = schedule[i].worker;
        assert(schedule@[i as int].worker < start.len());
        let ghost before = queues@;
        assert(contents(before)[w as int] == before[w as int]@);
        if let Some(op) = queues[w].pop_front() {
            assert(contents(queues@) =~= contents(before).update(
                w as int,
                before[w as int]@.drop_first(),
            ));
            out.push((w, op));
        } else {
            assert(contents(queues@) =~= contents(before));
        }
        i = i + 1;
    }
    assert(schedule@.take(i as int) =~= schedule@);
    out
}

/// Hands each operation of a trace to `exec`, in the order of the trace.
fn run_trace<S, T, F: Fn(&mut S, usize, T)>(trace: Vec<(usize, T)>, state: &mut S, exec: F)
    requires
        forall|l: &mut S, w: usize, op: T| #[trigger] exec.requires((l, w, op)),
    ensures
        exists|states: Seq<S>| #[trigger]
            is_chain(states, trace@.len(), *old(state), *final(state)) && (forall|i: int|
                #![trigger trace@[i]]
                #![trigger within(trace@, i)]
                within(trace@, i) ==> exists|l: &mut S| #[trigger]
                    exec.ensures((l, trace@[i].0, trace@[i].1), ()) && *l == states[i] && *final(l)
                        == states[i + 1]),
{
    let ghost all = trace@;
    let ghost mut states: Seq<S> = seq![*state];
    for p in it: trace
        invariant
            it.seq() == all,
            forall|l: &mut S, w: usize, op: T| #[trigger] exec.requires((l, w, op)),
            is_chain(states, it.index() as nat, *old(state), *state),
            forall|i: int|
                #![trigger all[i]]
                #![trigger within(all, i)]
                within(all, i) && i < it.index() ==> exists|l: &mut S| #[trigger]
                    exec.ensures((l, all[i].0, all[i].1), ()) && *l == states[i] && *final(l)
                        == states[i + 1],
    {
        let ghost n = it.index() as int;
        let ghost before = states;
        exec(state, p.0, p.1);
        proof {
            states = before.push(*state);
            assert forall|i: int|
                #![trigger all[i]]
                #![trigger within(all, i)]
                within(all, i) && i < n + 1 implies exists|l: &mut S| #[trigger]
                exec.ensures((l, all[i].0, all[i].1), ()) && *l == states[i] && *final(l)
                    == states[i + 1] by {
                if i < n {
                    assert(states[i] == before[i] && states[i + 1] == before[i + 1]);
                } else {
                    assert(all[i] == p);
                }
            }
        }
    }
}

/// Runs a schedule: each step takes the first operation of its worker's queue
/// and hands it to `exec`, with the state that `exec` works on. The calls are
/// those of the trace, in its order, and no others: each finds the state that
/// the one before it left.
pub fn run_interleaved<S, T, F: Fn(&mut S, usize, T)>(
    schedule: &[Step],
    queues: &mut [VecDeque<T>],
    state: &mut S,
    exec: F,
)
    requires
        workers_below(schedule@, old(queues)@.len() as int),
        forall|l: &mut S, w: usize, op: T| #[trigger] exec.requires((l, w, op)),
    ensures
        contents(final(queues)@) == run(schedule@, contents(old(queues)@)).queues,
        ({
            let trace = run(schedule@, contents(old(queues)@)).trace;
            exists|states: Seq<S>| #[trigger]
                is_chain(states, trace.len(), *old(state), *final(state)) && (forall|i: int|
                    #![trigger trace[i]]
                    #![trigger within(trace, i)]
                    within(trace, i) ==> exists|l: &mut S| #[trigger]
                        exec.ensures((l, trace[i].0, trace[i].1), ()) && *l == states[i]
                            && *final(l) == states[i + 1])
        }),
{
    let trace: Vec<(usize, T)> = interleave(schedule, queues);
    run_trace(trace, state, exec);
}

/// The operations dealt to `n` workers in turn.
pub open spec fn dealt<T>(ops: Seq<T>, n: nat) -> Seq<Seq<T>>
    decreases ops.len(),
{
    if ops.len() == 0 {
        Seq::new(n, |i: int| Seq::empty())
    } else {
        let q = dealt(ops.drop_last(), n);
        let w = (ops.len() - 1) % n as int;
        q.update(w, q[w].push(ops.last()))
    }
}

/// How many operations each of the workers is dealt.
pub open spec fn dealt_counts<T>(ops: Seq<T>, n: nat) -> Seq<usize> {
    dealt(ops, n).map_values(|q: Seq<T>| q.len() as usize)
}

/// Whether `b` holds clones of what `a` holds.
pub open spec fn clones<T: Clone>(a: Seq<T>, b: Seq<T>) -> bool {
    a.len() == b.len() && forall|i: int| 0 <= i < a.len() ==> cloned(#[trigger] a[i], b[i])
}

proof fn lemma_dealt<T>(ops: Seq<T>, n: nat)
    requires
        n > 0 || ops.len() == 0,
        ops.len() <= usize::MAX,
    ensures
        dealt(ops, n).len() == n,
        forall|w: int| 0 <= w < n ==> (#[trigger] dealt(ops, n)[w]).len() <= ops.len(),
        sum(dealt_counts(ops, n)) == ops.len(),
    decreases ops.len(),
{
    if ops.len() == 0 {
        let c = dealt_counts(ops, n);
        assert forall|w: int| 0 <= w < n implies c[w] == 0 by {}
        lemma_sum_of_zeros(c);
    } else {
        let front = ops.drop_last();
        let w = (ops.len() - 1) % n as int;
        assert(0 <= w < n) by (nonlinear_arith)
            requires
                n > 0,
                ops.len() > 0,
                w == (ops.len() - 1) % n as int,
        ;
        lemma_dealt(front, n);
        let q = dealt(front, n);
        let c = dealt_counts(front, n);
        assert(q[w].len() <= front.len());
        assert(dealt_counts(ops, n) =~= c.update(w, (c[w] + 1) as usize));
        lemma_sum_update(c, w, (c[w] + 1) as usize);
        assert forall|v: int| 0 <= v < n implies (#[trigger] dealt(ops, n)[v]).len()
            <= ops.len() by {
            assert(q[v].len() <= front.len());
        }
    }
}

proof fn lemma_sum_of_zeros(s: Seq<usize>)
    requires
        forall|i: int| 0 <= i < s.len() ==> s[i] == 0,
    ensures
        sum(s) == 0,
    decreases s.len(),
{
    if s.len() > 0 {
        lemma_sum_of_zeros(s.drop_last());
    }
}

/// What `run_seeded` does with these operations.
pub open spec fn seeded_run<T>(seed: u64, n: nat, ops: Seq<T>) -> RunState<T> {
    run(schedule(seed, dealt_counts(ops, n)), dealt(ops, n))
}

/// A seeded run executes every operation once: each worker runs what it was
/// dealt, in that order, and nothing is left. The workers come in the order of
/// the schedule that the seed gives.
pub proof fn lemma_seeded_run_complete<T>(seed: u64, n: nat, ops: Seq<T>, worker: int)
    requires
        n > 0 || ops.len() == 0,
        n <= usize::MAX,
        ops.len() <= usize::MAX,
        0 <= worker < n,
    ensures
        seeded_run(seed, n, ops).trace.len() == ops.len(),
        ops_of(seeded_run(seed, n, ops).trace, worker) == dealt(ops, n)[worker],
        seeded_run(seed, n, ops).trace.len() == schedule(seed, dealt_counts(ops, n)).len(),
        forall|i: int|
            0 <= i < seeded_run(seed, n, ops).trace.len() ==> (#[trigger] seeded_run(
                seed,
                n,
                ops,
            ).trace[i]).0 == schedule(seed, dealt_counts(ops, n))[i].worker,
{
    let q = dealt(ops, n);
    let c = dealt_counts(ops, n);
    lemma_dealt(ops, n);
    lemma_schedule_complete(seed, c);
    let s = schedule(seed, c);
    assert forall|w: int| 0 <= w < q.len() implies #[trigger] steps_of(s, w) <= q[w].len() by {
        assert(steps_of(s, w) == c[w]);
        assert(q[w].len() <= ops.len());
    }
    lemma_run_takes_all(s, q);
    lemma_queue_order(s, q, worker);
    assert(steps_of(s, worker) == c[worker]);
    assert(q[worker].len() <= ops.len());
    let left = run(s, q).queues[worker];
    assert(left.len() == 0);
    assert(ops_of(run(s, q).trace, worker) + left =~= ops_of(run(s, q).trace, worker));
}

/// The operations are dealt in turn: `ops[i]` goes to worker `i % n`, behind
/// those that the worker was dealt before, and nothing else is dealt.
pub proof fn lemma_dealt_in_turn<T>(ops: Seq<T>, n: nat, i: int)
    requires
        n > 0,
        0 <= i < ops.len(),
    ensures
        dealt(ops, n).len() == n,
        (i / n as int) < dealt(ops, n)[i % n as int].len(),
        dealt(ops, n)[i % n as int][i / n as int] == ops[i],
        forall|w: int|
            0 <= w < n ==> (#[trigger] dealt(ops, n)[w]).len() == dealt_len(ops.len(), n, w),
    decreases ops.len(),
{
    lemma_dealt_lens(ops, n);
    let front = ops.drop_last();
    let m = ops.len() - 1;
    let w = i % n as int;
    let k = i / n as int;
    lemma_turn(i, n);
    lemma_turn(m, n);
    if i < m {
        lemma_dealt_in_turn(front, n, i);
        assert(ops[i] == front[i]);
    } else {
        lemma_dealt_lens(front, n);
        lemma_dealt_len(m as nat, n);
        assert(dealt(front, n)[w].len() == k);
    }
}

/// How many of `count` operations worker `w` of `n` is dealt.
pub open spec fn dealt_len(count: nat, n: nat, w: int) -> nat
    decreases count,
{
    if count == 0 {
        0
    } else {
        dealt_len((count - 1) as nat, n, w) + if (count - 1) % n as int == w {
            1nat
        } else {
            0
        }
    }
}

proof fn lemma_turn(i: int, n: nat)
    requires
        n > 0,
        i >= 0,
    ensures
        0 <= i % (n as int) < n,
        i / (n as int) >= 0,
        i == (i / n as int) * n + i % (n as int),
{
    vstd::arithmetic::div_mod::lemma_fundamental_div_mod(i, n as int);
    vstd::arithmetic::div_mod::lemma_mod_bound(i, n as int);
    vstd::arithmetic::div_mod::lemma_div_pos_is_pos(i, n as int);
    vstd::arithmetic::mul::lemma_mul_is_commutative(n as int, i / n as int);
}

proof fn lemma_dealt_lens<T>(ops: Seq<T>, n: nat)
    requires
        n > 0,
    ensures
        dealt(ops, n).len() == n,
        forall|w: int|
            0 <= w < n ==> (#[trigger] dealt(ops, n)[w]).len() == dealt_len(ops.len(), n, w),
    decreases ops.len(),
{
    if ops.len() > 0 {
        lemma_dealt_lens(ops.drop_last(), n);
        lemma_turn(ops.len() - 1, n);
    }
}

/// Before an operation is dealt, its worker has as many as full rounds went by,
/// those in front of it have one more, those behind it as many.
proof fn lemma_dealt_len(count: nat, n: nat)
    requires
        n > 0,
    ensures
        forall|w: int|
            0 <= w < n ==> #[trigger] dealt_len(count, n, w) == count as int / n as int + if w
                < count as int % n as int {
                1int
            } else {
                0
            },
    decreases count,
{
    if count == 0 {
        vstd::arithmetic::div_mod::lemma_fundamental_div_mod_converse(0, n as int, 0, 0);
    } else {
        let m = count - 1;
        lemma_dealt_len(m as nat, n);
        lemma_turn(m, n);
        let q = m / n as int;
        let r = m % n as int;
        if r + 1 < n {
            vstd::arithmetic::div_mod::lemma_fundamental_div_mod_converse(
                count as int,
                n as int,
                q,
                r + 1,
            );
        } else {
            assert(count == (q + 1) * n) by (nonlinear_arith)
                requires
                    count == q * n + n,
            ;
            vstd::arithmetic::div_mod::lemma_fundamental_div_mod_converse(
                count as int,
                n as int,
                q + 1,
                0,
            );
        }
        assert forall|w: int| 0 <= w < n implies #[trigger] dealt_len(count, n, w) == count as int
            / n as int + if w < count as int % n as int {
            1int
        } else {
            0
        } by {
            assert(dealt_len(m as nat, n, w) == q + if w < r {
                1int
            } else {
                0
            });
        }
    }
}

/// Deals the operations to the workers in turn and interleaves them by the
/// seed.
pub fn interleave_seeded<T: Clone>(seed: u64, n_workers: usize, ops: &[T]) -> (r: Vec<(usize, T)>)
    requires
        n_workers > 0 || ops@.len() == 0,
    ensures
        exists|copies: Seq<T>|
            #![trigger clones(ops@, copies)]
            clones(ops@, copies) && r@ == seeded_run(seed, n_workers as nat, copies).trace,
{
    let ghost n = n_workers as nat;
    let ghost mut copies: Seq<T> = Seq::empty();
    let mut counts: Vec<usize> = Vec::new();
    let mut queues: Vec<VecDeque<T>> = Vec::new();
    let mut w: usize = 0;
    while w < n_workers
        invariant
            w <= n_workers,
            counts@.len() == w,
            queues@.len() == w,
            forall|j: int| 0 <= j < w ==> counts@[j] == 0,
            forall|j: int| 0 <= j < w ==> (#[trigger] queues@[j])@ == Seq::<T>::empty(),
        decreases n_workers - w,
    {
        counts.push(0);
        queues.push(VecDeque::new());
        w = w + 1;
    }
    assert(contents(queues@) =~= dealt(copies, n));
    assert(counts@ =~= dealt_counts(copies, n));
    let mut i: usize = 0;
    while i < ops.len()
        invariant
            i <= ops@.len(),
            n == n_workers,
            n_workers > 0 || ops@.len() == 0,
            copies.len() == i,
            clones(ops@.take(i as int), copies),
            contents(queues@) == dealt(copies, n),
            counts@ == dealt_counts(copies, n),
        decreases ops@.len() - i,
    {
        let w: usize = i % n_workers;
        let op: T = ops[i].clone();
        proof {
            lemma_dealt(copies, n);
        }
        assert(contents(queues@)[w as int].len() <= i);
        let ghost before = queues@;
        let ghost next = copies.push(op);
        assert(next.drop_last() =~= copies);
        let c: usize = counts[w];
        counts.set(w, c + 1);
        queues[w].push_back(op);
        proof {
            let q = dealt(copies, n);
            assert(contents(queues@) =~= q.update(w as int, q[w as int].push(op)));
            assert(counts@ =~= dealt_counts(next, n));
            assert forall|j: int| 0 <= j < i + 1 implies cloned(
                #[trigger] ops@.take(i + 1)[j],
                next[j],
            ) by {
                if j < i {
                    assert(cloned(ops@.take(i as int)[j], copies[j]));
                }
            }
            copies = next;
        }
        i = i + 1;
    }
    proof {
        assert(ops@.take(i as int) =~= ops@);
        lemma_dealt(copies, n);
        lemma_schedule_complete(seed, counts@);
    }
    let schedule: Vec<Step> = schedule_from_seed(seed, counts.as_slice());
    let r: Vec<(usize, T)> = interleave(schedule.as_slice(), queues.as_mut_slice());
    assert(clones(ops@, copies));
    r
}

/// Deals the operations to the workers in turn, interleaves them by the seed
/// and hands each to `exec`, with the state that `exec` works on. The calls are
/// those of the trace, in its order, and no others: each finds the state that
/// the one before it left.
pub fn run_seeded<S, T: Clone, F: Fn(&mut S, usize, T)>(
    seed: u64,
    n_workers: usize,
    ops: &[T],
    state: &mut S,
    exec: F,
)
    requires
        n_workers > 0 || ops@.len() == 0,
        forall|l: &mut S, w: usize, op: T| #[trigger] exec.requires((l, w, op)),
    ensures
        exists|copies: Seq<T>, states: Seq<S>|
            #![trigger clones(ops@, copies), is_chain(
                states,
                seeded_run(seed, n_workers as nat, copies).trace.len(),
                *old(state),
                *final(state),
            )]
            {
                let trace = seeded_run(seed, n_workers as nat, copies).trace;
                &&& clones(ops@, copies)
                &&& is_chain(states, trace.len(), *old(state), *final(state))
                &&& forall|i: int|
                    #![trigger trace[i]]
                    #![trigger within(trace, i)]
                    within(trace, i) ==> exists|l: &mut S| #[trigger]
                        exec.ensures((l, trace[i].0, trace[i].1), ()) && *l == states[i]
                            && *final(l) == states[i + 1]
            },
{
    let trace: Vec<(usize, T)> = interleave_seeded(seed, n_workers, ops);
    run_trace(trace, state, exec);
}

/// The workers to pick from are those that have work left, each once, in
/// ascending order.
pub proof fn lemma_candidates_are_those_with_work(rem: Seq<usize>, w: usize)
    requires
        rem.len() <= usize::MAX,
    ensures
        candidates(rem).contains(w) <==> (w < rem.len() && rem[w as int] > 0),
        forall|i: int, j: int|
            0 <= i < j < candidates(rem).len() ==> #[trigger] candidates(rem)[i]
                < #[trigger] candidates(rem)[j],
    decreases rem.len(),
{
    lemma_candidates(rem);
    if rem.len() > 0 {
        let front = rem.drop_last();
        let c = candidates(front);
        let d = candidates(rem);
        lemma_candidates_are_those_with_work(front, w);
        lemma_candidates(front);
        let last = (rem.len() - 1) as usize;
        assert forall|i: int, j: int| 0 <= i < j < d.len() implies #[trigger] d[i]
            < #[trigger] d[j] by {
            assert(c[i] == d[i]);
            assert(c[i] < front.len());
            if j < c.len() {
                assert(c[j] == d[j]);
            }
        }
        if c.contains(w) {
            let i = choose|i: int| 0 <= i < c.len() && c[i] == w;
            assert(d[i] == w);
        }
        if rem.last() > 0 {
            assert(d[c.len() as int] == last);
        }
        if w < rem.len() && rem[w as int] > 0 && w != last {
            assert(front[w as int] == rem[w as int]);
        }
        if d.contains(w) {
            let i = choose|i: int| 0 <= i < d.len() && d[i] == w;
            assert(d[i] < rem.len() && rem[d[i] as int] > 0);
        }
    }
}

proof fn lemma_product_undone(z: u64, c: u64, d: u64, k: int)
    requires
        c * d == 1 + k * 0x1_0000_0000_0000_0000,
    ensures
        z.wrapping_mul(c).wrapping_mul(d) == z,
{
    let m = 0x1_0000_0000_0000_0000int;
    vstd::arithmetic::div_mod::lemma_mul_mod_noop_left(z * c, d as int, m);
    assert((z * c) * d == m * (z * k) + z) by (nonlinear_arith)
        requires
            c * d == 1 + k * m,
    ;
    vstd::arithmetic::div_mod::lemma_mod_multiples_vanish(z * k, z as int, m);
    vstd::arithmetic::div_mod::lemma_small_mod(z as nat, m as nat);
}

proof fn lemma_sum_wraps(x: int, s: u64, g: u64)
    requires
        s == x % 0x1_0000_0000_0000_0000,
    ensures
        s.wrapping_add(g) == (x + g) % 0x1_0000_0000_0000_0000,
{
    let m = 0x1_0000_0000_0000_0000int;
    vstd::arithmetic::div_mod::lemma_add_mod_noop_right(g as int, x, m);
    if s + g >= m {
        vstd::arithmetic::div_mod::lemma_mod_multiples_vanish(1, s + g - m, m);
    }
}

/// What the generator gives can be undone: each of its mixing steps is turned
/// back in reverse order, which leads to the state that it was in. So it gives
/// different numbers in different states.
pub proof fn lemma_mixing_can_be_undone(s: u64)
    ensures
        ({
            let z = mix_out(s);
            let z = (z ^ (z >> 31) ^ (z >> 62)).wrapping_mul(0x319642B2D24D8EC3);
            let z = (z ^ (z >> 27) ^ (z >> 54)).wrapping_mul(0x96DE1B173F119089);
            let z = z ^ (z >> 30) ^ (z >> 60);
            z.wrapping_sub(0x9E3779B97F4A7C15) == s
        }),
        mix_next(s) == (s + 0x9E3779B97F4A7C15) % 0x1_0000_0000_0000_0000,
{
    vstd::arithmetic::div_mod::lemma_small_mod(s as nat, 0x1_0000_0000_0000_0000);
    lemma_sum_wraps(s as int, s, 0x9E3779B97F4A7C15);
    let a = mix_next(s);
    let b = a ^ (a >> 30);
    let c = b.wrapping_mul(0xBF58476D1CE4E5B9);
    let d = c ^ (c >> 27);
    let e = d.wrapping_mul(0x94D049BB133111EB);
    let f = e ^ (e >> 31);
    assert(f == mix_out(s));
    assert((e ^ (e >> 31)) ^ ((e ^ (e >> 31)) >> 31) ^ ((e ^ (e >> 31)) >> 62) == e)
        by (bit_vector);
    lemma_product_undone(d, 0x94D049BB133111EB, 0x319642B2D24D8EC3, 0x1CD336EDA85F1453);
    assert((c ^ (c >> 27)) ^ ((c ^ (c >> 27)) >> 27) ^ ((c ^ (c >> 27)) >> 54) == c)
        by (bit_vector);
    lemma_product_undone(b, 0xBF58476D1CE4E5B9, 0x96DE1B173F119089, 0x70C3BCA78F27F46C);
    assert((a ^ (a >> 30)) ^ ((a ^ (a >> 30)) >> 30) ^ ((a ^ (a >> 30)) >> 60) == a)
        by (bit_vector);
}

proof fn lemma_sched_is_prefix(seed: u64, ops: Seq<usize>, k: nat, n: nat)
    requires
        ops.len() <= usize::MAX,
        k <= n <= sum(ops),
    ensures
        sched(seed, ops, n).steps.take(k as int) == sched(seed, ops, k).steps,
    decreases n,
{
    lemma_sched(seed, ops, k);
    lemma_sched(seed, ops, n);
    let s = sched(seed, ops, k);
    let t = sched(seed, ops, n);
    if k == n {
        assert(t.steps.take(k as int) =~= s.steps);
    } else {
        lemma_sched_is_prefix(seed, ops, k, (n - 1) as nat);
        lemma_sched(seed, ops, (n - 1) as nat);
        assert(t.steps.take(k as int) =~= sched(seed, ops, (n - 1) as nat).steps.take(k as int));
    }
}

proof fn lemma_sched_state(seed: u64, ops: Seq<usize>, k: nat)
    ensures
        sched(seed, ops, k).state == ((seed ^ 0x5CED_5CED_5CED_5CED) + k * 0x9E3779B97F4A7C15)
            % 0x1_0000_0000_0000_0000,
    decreases k,
{
    if k > 0 {
        let j = (k - 1) as nat;
        lemma_sched_state(seed, ops, j);
        lemma_sum_wraps(
            (seed ^ 0x5CED_5CED_5CED_5CED) + j * 0x9E3779B97F4A7C15,
            sched(seed, ops, j).state,
            0x9E3779B97F4A7C15,
        );
        assert(k * 0x9E3779B97F4A7C15 == j * 0x9E3779B97F4A7C15 + 0x9E3779B97F4A7C15);
    } else {
        let s = seed ^ 0x5CED_5CED_5CED_5CED;
        vstd::arithmetic::div_mod::lemma_small_mod(s as nat, 0x1_0000_0000_0000_0000);
    }
}

/// How a schedule is drawn. Before step `k` the work left of each worker is
/// what it had less its steps so far, and the generator has moved on from the
/// tagged seed by `k` equal steps. Step `k` is of the worker whose number, among
/// those with work left, is what the generator gives modulo how many they are.
pub proof fn lemma_schedule_is_drawn(
    seed: u64,
    ops: Seq<usize>,
    k: int,
    left: Seq<usize>,
    state: u64,
)
    requires
        ops.len() <= usize::MAX,
        0 <= k < schedule(seed, ops).len(),
        left.len() == ops.len(),
        forall|w: int|
            0 <= w < ops.len() ==> #[trigger] left[w] == ops[w] - steps_of(
                schedule(seed, ops).take(k),
                w,
            ),
        state == ((seed ^ 0x5CED_5CED_5CED_5CED) + k * 0x9E3779B97F4A7C15)
            % 0x1_0000_0000_0000_0000,
    ensures
        candidates(left).len() > 0,
        schedule(seed, ops)[k].worker == candidates(left)[(mix_out(state) as usize) as int
            % candidates(left).len() as int],
{
    lemma_schedule_complete(seed, ops);
    let n = sum(ops);
    let s = sched(seed, ops, k as nat);
    lemma_sched(seed, ops, k as nat);
    lemma_sched(seed, ops, (k + 1) as nat);
    lemma_sched_is_prefix(seed, ops, k as nat, n);
    lemma_sched_is_prefix(seed, ops, (k + 1) as nat, n);
    lemma_sched_state(seed, ops, k as nat);
    assert forall|w: int| 0 <= w < ops.len() implies #[trigger] left[w] == s.rem[w] by {
        assert(steps_of(s.steps, w) + s.rem[w] == ops[w]);
    }
    assert(left =~= s.rem);
    lemma_candidates(left);
    let t = sched(seed, ops, (k + 1) as nat);
    assert(schedule(seed, ops)[k] == schedule(seed, ops).take(k + 1)[k]);
    assert(t.steps[k] == schedule(seed, ops)[k]);
}

/// One more step takes the operation whose place in its worker's queue is the
/// number of steps that the worker had before, if the queue is so long. Where
/// it is not, the step takes nothing.
pub proof fn lemma_step_takes_next<T>(schedule: Seq<Step>, queues: Seq<Seq<T>>, step: Step)
    requires
        workers_below(schedule, queues.len() as int),
        step.worker < queues.len(),
    ensures
        ({
            let w = step.worker as int;
            let before = run(schedule, queues).trace;
            let after = run(schedule.push(step), queues).trace;
            let n = steps_of(schedule, w) as int;
            if n < queues[w].len() {
                after == before.push((step.worker, queues[w][n]))
            } else {
                after == before
            }
        }),
{
    let w = step.worker as int;
    lemma_queue_order(schedule, queues, w);
    let s = run(schedule, queues);
    let done = ops_of(s.trace, w);
    let q = s.queues[w];
    assert(schedule.push(step).drop_last() =~= schedule);
    assert((done + q).len() == queues[w].len());
    if q.len() > 0 {
        assert((done + q)[done.len() as int] == q[0]);
    }
}

} // verus!
