//! Timers: tasks that are due at a time, clocks for delays, and the
//! synchronous turns of a timer thread.

use crate::duration::{in_time_range, Duration};
use crate::instant::{fine_fits, fine_span, lemma_clock_spans_fit, Instant};
use crate::logical_clock::{dst_now_nanos, monotonic_raw_now, LogicalClock};
use crate::timespec::{timespec_of, Timespec};
use vstd::multiset::Multiset;
use vstd::prelude::*;

verus! {

#[derive(Debug)]
struct TimeoutTask<T> {
    next_tick: Instant,
    task: T,
}

/// Tasks with the times at which they are due.
#[derive(Debug)]
pub struct Timer<T> {
    /// The task that is due first is the last one.
    pending: Vec<TimeoutTask<T>>,
}

spec fn pairs<T>(s: Seq<TimeoutTask<T>>) -> Seq<(Instant, T)> {
    s.map_values(|t: TimeoutTask<T>| (t.next_tick, t.task))
}

/// The tasks, each with the time at which it is due.
impl<T> View for Timer<T> {
    type V = Multiset<(Instant, T)>;

    closed spec fn view(&self) -> Multiset<(Instant, T)> {
        pairs(self.pending@).to_multiset()
    }
}

/// Whether no task is due before `tick`.
pub open spec fn none_before<T>(tasks: Multiset<(Instant, T)>, tick: Instant) -> bool {
    forall|e: (Instant, T)| #[trigger] tasks.contains(e) ==> e.0.not_before(tick)
}

/// Whether `tick` is the first time at which a task is due.
pub open spec fn is_first<T>(tasks: Multiset<(Instant, T)>, tick: Instant) -> bool {
    none_before(tasks, tick) && exists|task: T| #[trigger] tasks.contains((tick, task))
}

/// Whether no task is due at `instant`.
pub open spec fn none_due<T>(tasks: Multiset<(Instant, T)>, instant: Instant) -> bool {
    forall|e: (Instant, T)| #[trigger] tasks.contains(e) ==> !instant.not_before(e.0)
}

/// Whether a task is due at `instant` and no other is due before it.
pub open spec fn is_due_first<T>(
    tasks: Multiset<(Instant, T)>,
    instant: Instant,
    tick: Instant,
    task: T,
) -> bool {
    tasks.contains((tick, task)) && none_before(tasks, tick) && instant.not_before(tick)
}

/// Whether all tasks are due at instants of the kind of `now`. Instants of
/// different kinds have no order.
pub open spec fn all_of_kind<T>(tasks: Multiset<(Instant, T)>, now: Instant) -> bool {
    forall|e: (Instant, T)| #[trigger] tasks.contains(e) ==> e.0.same_kind(now)
}

impl<T> Timer<T> {
    #[verifier::type_invariant]
    spec fn type_inv(self) -> bool {
        descending(self.pending@)
    }

    /// A timer without tasks, with room for so many.
    pub fn new(capacity: usize) -> (r: Self)
        ensures
            r@ == Multiset::<(Instant, T)>::empty(),
    {
        let r = Timer { pending: Vec::with_capacity(capacity) };
        proof {
            lemma_empty(pairs(r.pending@));
        }
        r
    }

    /// How many tasks there are.
    pub fn len(&self) -> (r: usize)
        ensures
            r == self@.len(),
    {
        proof {
            vstd::seq_lib::to_multiset_len(pairs(self.pending@));
        }
        self.pending.len()
    }

    /// Whether a task can be added at `now`: the others are due at instants of
    /// its kind.
    pub fn accepts(&self, now: Instant) -> (r: bool)
        ensures
            r == all_of_kind(self@, now),
    {
        proof {
            use_type_invariant(self);
        }
        let n: usize = self.pending.len();
        if n == 0 {
            proof {
                lemma_empty(pairs(self.pending@));
            }
            return true;
        }
        proof {
            lemma_last_is_first(self.pending@);
        }
        match (self.pending[n - 1].next_tick, now) {
            (Instant::Monotonic(_), Instant::Monotonic(_)) => true,
            (Instant::MonotonicCoarse(_), Instant::MonotonicCoarse(_)) => true,
            _ => false,
        }
    }

    /// Adds a task that is due when `timeout` has passed on the logical clock.
    pub fn add_task(&mut self, timeout: Duration, task: T, clock: &mut LogicalClock)
        requires
            in_time_range(timeout@ as int),
            all_of_kind(
                old(self)@,
                Instant::MonotonicCoarse(timespec_of(old(clock)@.nanos as int)),
            ),
        ensures
            final(self)@ == old(self)@.insert(
                (Instant::MonotonicCoarse(timespec_of(old(clock)@.nanos + timeout@)), task),
            ),
            final(clock)@ == old(clock)@.read(),
    {
        let now: Instant = Instant::now(clock);
        self.add_task_at(now, timeout, task);
    }

    /// Adds a task that is due when `timeout` has passed since `now`, a reading
    /// of any clock.
    pub fn add_task_at(&mut self, now: Instant, timeout: Duration, task: T)
        requires
            in_time_range(timeout@ as int),
            all_of_kind(old(self)@, now),
        ensures
            final(self)@ == old(self)@.insert(
                (now.with_time(timespec_of(now.time().nanos() + timeout@)), task),
            ),
    {
        proof {
            use_type_invariant(&*self);
            assert forall|k: int| 0 <= k < self.pending@.len() implies (
            #[trigger] self.pending@[k]).next_tick.same_kind(now) by {
                let e = pairs(self.pending@)[k];
                vstd::seq_lib::to_multiset_contains(pairs(self.pending@), e);
                assert(self@.contains(e));
            }
        }
        let next_tick: Instant = now + timeout;
        let mut pending: Vec<TimeoutTask<T>> = Vec::new();
        std::mem::swap(&mut pending, &mut self.pending);
        let ghost all = pending@;
        let mut i: usize = pending.len();
        while i > 0 && !(pending[i - 1].next_tick >= next_tick)
            invariant
                i <= pending@.len(),
                pending@ == all,
                forall|k: int|
                    0 <= k < all.len() ==> (#[trigger] all[k]).next_tick.same_kind(next_tick),
                forall|k: int|
                    i <= k < all.len() ==> next_tick.not_before((#[trigger] all[k]).next_tick),
            decreases i,
        {
            i = i - 1;
        }
        pending.insert(i, TimeoutTask { next_tick, task });
        proof {
            let new = TimeoutTask { next_tick, task };
            let after = pending@;
            assert forall|k: int| 0 <= k < after.len() implies #[trigger] after[k] == if k < i {
                all[k]
            } else if k == i {
                new
            } else {
                all[k - 1]
            } by {}
            assert forall|a: int, b: int| 0 <= a < b < after.len() implies (
            #[trigger] after[a]).next_tick.not_before((#[trigger] after[b]).next_tick) by {
                if b == i {
                    if a < i - 1 {
                        assert(all[a].next_tick.not_before(all[i - 1].next_tick));
                    }
                }
            }
            assert(pairs(after) =~= pairs(all).insert(i as int, (next_tick, task)));
            vstd::seq_lib::to_multiset_insert(pairs(all), i as int, (next_tick, task));
        }
        self.pending = pending;
    }

    /// The time at which the first task is due.
    pub fn next_timeout(&self) -> (r: Option<Instant>)
        ensures
            match r {
                Some(tick) => is_first(self@, tick),
                None => self@.len() == 0,
            },
    {
        proof {
            use_type_invariant(self);
            vstd::seq_lib::to_multiset_len(pairs(self.pending@));
        }
        let n: usize = self.pending.len();
        if n == 0 {
            return None;
        }
        proof {
            lemma_last_is_first(self.pending@);
        }
        Some(self.pending[n - 1].next_tick)
    }

    /// Takes out a task that is due at `instant`, of those due first. `None`
    /// where no task is due.
    pub fn pop_task_before(&mut self, instant: Instant) -> (r: Option<T>)
        ensures
            match r {
                Some(task) => exists|tick: Instant| #[trigger]
                    is_due_first(old(self)@, instant, tick, task) && final(self)@
                        == old(self)@.remove((tick, task)),
                None => none_due(old(self)@, instant) && final(self)@ == old(self)@,
            },
    {
        proof {
            use_type_invariant(&*self);
            lemma_last_is_first(self.pending@);
        }
        let ghost all = self.pending@;
        let n: usize = self.pending.len();
        if n > 0 && self.pending[n - 1].next_tick <= instant {
            let mut pending: Vec<TimeoutTask<T>> = Vec::new();
            std::mem::swap(&mut pending, &mut self.pending);
            let first: TimeoutTask<T> = pending.pop().unwrap();
            proof {
                assert(pending@ =~= all.drop_last());
                assert(pairs(pending@) =~= pairs(all).remove(n - 1));
                vstd::seq_lib::to_multiset_remove(pairs(all), n - 1);
                vstd::seq_lib::to_multiset_contains(
                    pairs(all),
                    (first.next_tick, first.task),
                );
                assert(pairs(all)[n - 1] == (first.next_tick, first.task));
                assert(old(self)@.contains((first.next_tick, first.task)));
            }
            let ghost tick = first.next_tick;
            self.pending = pending;
            let r: Option<T> = Some(first.task);
            assert(is_due_first(old(self)@, instant, tick, r->0));
            assert(self@ == old(self)@.remove((tick, r->0)));
            return r;
        }
        proof {
            assert forall|e: (Instant, T)| #[trigger] old(self)@.contains(e) implies
                !instant.not_before(e.0) by {
                lemma_due_after_last(all, e, instant);
            }
        }
        None
    }
}

proof fn lemma_empty<A>(s: Seq<A>)
    requires
        s.len() == 0,
    ensures
        s.to_multiset() == Multiset::<A>::empty(),
{
    vstd::seq_lib::to_multiset_len(s);
    broadcast use vstd::multiset::group_multiset_axioms;

    assert forall|a: A| s.to_multiset().count(a) == 0 by {
        vstd::seq_lib::to_multiset_contains(s, a);
    }
    assert(s.to_multiset() =~= Multiset::empty());
}

spec fn descending<T>(s: Seq<TimeoutTask<T>>) -> bool {
    forall|i: int, j: int|
        0 <= i < j < s.len() ==> (#[trigger] s[i]).next_tick.not_before(
            (#[trigger] s[j]).next_tick,
        )
}

proof fn lemma_last_is_first<T>(s: Seq<TimeoutTask<T>>)
    requires
        descending(s),
    ensures
        s.len() > 0 ==> is_first(pairs(s).to_multiset(), s.last().next_tick),
{
    if s.len() > 0 {
        let tasks = pairs(s).to_multiset();
        let n = s.len() - 1;
        assert forall|e: (Instant, T)| #[trigger] tasks.contains(e) implies e.0.not_before(
            s.last().next_tick,
        ) by {
            vstd::seq_lib::to_multiset_contains(pairs(s), e);
            let i = choose|i: int| 0 <= i < pairs(s).len() && pairs(s)[i] == e;
            if i < n {
                assert(s[i].next_tick.not_before(s[n].next_tick));
            }
        }
        vstd::seq_lib::to_multiset_contains(pairs(s), (s[n].next_tick, s[n].task));
        assert(pairs(s)[n] == (s[n].next_tick, s[n].task));
        assert(tasks.contains((s.last().next_tick, s.last().task)));
    }
}

/// Whether calls of `pop_task_before(instant)` can take out `out`, in this
/// order, and leave `left`.
pub open spec fn pops_to<T>(
    tasks: Multiset<(Instant, T)>,
    instant: Instant,
    out: Seq<(Instant, T)>,
    left: Multiset<(Instant, T)>,
) -> bool
    decreases out.len(),
{
    if out.len() == 0 {
        left == tasks
    } else {
        is_due_first(tasks, instant, out[0].0, out[0].1) && pops_to(
            tasks.remove(out[0]),
            instant,
            out.drop_first(),
            left,
        )
    }
}

proof fn lemma_pops_add_up<T>(
    tasks: Multiset<(Instant, T)>,
    instant: Instant,
    out: Seq<(Instant, T)>,
    left: Multiset<(Instant, T)>,
)
    requires
        pops_to(tasks, instant, out, left),
    ensures
        forall|e: (Instant, T)| #[trigger]
            tasks.count(e) == out.to_multiset().count(e) + left.count(e),
        forall|i: int|
            0 <= i < out.len() ==> instant.not_before((#[trigger] out[i]).0) && tasks.contains(
                out[i],
            ),
        forall|i: int, j: int|
            0 <= i < j < out.len() ==> (#[trigger] out[j]).0.not_before((#[trigger] out[i]).0),
    decreases out.len(),
{
    broadcast use vstd::multiset::group_multiset_axioms;

    if out.len() == 0 {
        lemma_empty(out);
    } else {
        let first = out[0];
        let rest = out.drop_first();
        lemma_pops_add_up(tasks.remove(first), instant, rest, left);
        assert(out =~= seq![first] + rest);
        vstd::seq_lib::lemma_multiset_commutative(seq![first], rest);
        lemma_one(first);
        assert forall|e: (Instant, T)| #[trigger]
            tasks.count(e) == out.to_multiset().count(e) + left.count(e) by {
            assert(tasks.remove(first).count(e) == rest.to_multiset().count(e) + left.count(e));
        }
        assert forall|i: int| 0 <= i < out.len() implies instant.not_before((#[trigger] out[i]).0)
            && tasks.contains(out[i]) by {
            if i > 0 {
                assert(out[i] == rest[i - 1]);
                assert(tasks.remove(first).count(out[i]) <= tasks.count(out[i]));
            }
        }
        assert forall|i: int, j: int| 0 <= i < j < out.len() implies (
        #[trigger] out[j]).0.not_before((#[trigger] out[i]).0) by {
            assert(out[j] == rest[j - 1]);
            if i > 0 {
                assert(out[i] == rest[i - 1]);
            }
        }
    }
}

/// Popping until nothing comes gives every task that is due and no other, in
/// the order in which they are due. What is left is what was not due.
pub proof fn lemma_popping_gives_all_due<T>(
    tasks: Multiset<(Instant, T)>,
    instant: Instant,
    out: Seq<(Instant, T)>,
    left: Multiset<(Instant, T)>,
)
    requires
        pops_to(tasks, instant, out, left),
        none_due(left, instant),
    ensures
        forall|e: (Instant, T)|
            #![trigger out.to_multiset().count(e)]
            #![trigger left.count(e)]
            if instant.not_before(e.0) {
                out.to_multiset().count(e) == tasks.count(e) && left.count(e) == 0
            } else {
                out.to_multiset().count(e) == 0 && left.count(e) == tasks.count(e)
            },
        forall|i: int, j: int|
            0 <= i < j < out.len() ==> (#[trigger] out[j]).0.not_before((#[trigger] out[i]).0),
{
    lemma_pops_add_up(tasks, instant, out, left);
    assert forall|e: (Instant, T)|
        #![trigger out.to_multiset().count(e)]
        #![trigger left.count(e)]
        if instant.not_before(e.0) {
            out.to_multiset().count(e) == tasks.count(e) && left.count(e) == 0
        } else {
            out.to_multiset().count(e) == 0 && left.count(e) == tasks.count(e)
        } by {
        assert(tasks.count(e) == out.to_multiset().count(e) + left.count(e));
        if instant.not_before(e.0) {
            assert(!left.contains(e));
        } else {
            vstd::seq_lib::to_multiset_contains(out, e);
        }
    }
}

proof fn lemma_one<A>(a: A)
    ensures
        seq![a].to_multiset() == Multiset::singleton(a),
{
    broadcast use vstd::multiset::group_multiset_axioms;

    assert(seq![a] =~= Seq::<A>::empty().push(a));
    vstd::seq_lib::to_multiset_build(Seq::<A>::empty(), a);
    lemma_empty(Seq::<A>::empty());
    assert(seq![a].to_multiset() =~= Multiset::singleton(a));
}

proof fn lemma_due_after_last<T>(s: Seq<TimeoutTask<T>>, e: (Instant, T), instant: Instant)
    requires
        descending(s),
        pairs(s).to_multiset().contains(e),
        s.len() > 0 ==> !instant.not_before(s.last().next_tick),
    ensures
        !instant.not_before(e.0),
{
    vstd::seq_lib::to_multiset_contains(pairs(s), e);
    let i = choose|i: int| 0 <= i < pairs(s).len() && pairs(s)[i] == e;
    let n = s.len() - 1;
    if i < n {
        assert(s[i].next_tick.not_before(s[n].next_tick));
    }
}

/// A clock that never goes backward: it counts whole milliseconds since its
/// start and keeps the highest count.
#[derive(Debug)]
pub struct RatchetClockState {
    last_now_ms: u64,
}

impl View for RatchetClockState {
    type V = u64;

    closed spec fn view(&self) -> u64 {
        self.last_now_ms
    }
}

/// The milliseconds of a span, in 64 bits.
pub open spec fn ms_count(span: nat) -> u64 {
    (span / 1_000_000) as u64
}

/// The higher of two counts.
pub open spec fn ratcheted(last: u64, now: u64) -> u64 {
    if now > last {
        now
    } else {
        last
    }
}

impl RatchetClockState {
    pub fn new() -> (r: RatchetClockState)
        ensures
            r@ == 0,
    {
        RatchetClockState { last_now_ms: 0 }
    }

    /// The reading of this clock, as the span since its start, where the clock
    /// below it shows `since_start`.
    pub fn now(&mut self, since_start: Duration) -> (r: Duration)
        ensures
            final(self)@ == ratcheted(old(self)@, ms_count(since_start@)),
            r@ == final(self)@ * 1_000_000,
    {
        let now_ms: u64 = since_start.as_millis() as u64;
        if now_ms > self.last_now_ms {
            self.last_now_ms = now_ms;
            Duration::from_millis(now_ms)
        } else {
            Duration::from_millis(self.last_now_ms)
        }
    }
}

/// A ratchet clock never goes backward, whatever the clock below it shows, and
/// follows that clock while it goes forward.
pub proof fn lemma_ratchet_never_backward(last: u64, span: nat)
    ensures
        ratcheted(last, ms_count(span)) >= last,
        ms_count(span) >= last ==> ratcheted(last, ms_count(span)) == ms_count(span),
{
}

/// A clock for delays, which follows the logical clock from the point in time
/// at which it was made.
#[derive(Clone, Copy, Debug)]
pub struct SteadyClock {
    steady_time_point: Timespec,
}

impl View for SteadyClock {
    type V = Timespec;

    closed spec fn view(&self) -> Timespec {
        self.steady_time_point
    }
}

impl SteadyClock {
    /// A clock that starts at this point in time.
    pub fn at(start: Timespec) -> (r: SteadyClock)
        ensures
            r@ == start,
    {
        SteadyClock { steady_time_point: start }
    }

    /// The span from the start to `now`, which is not before it.
    pub fn elapsed(&self, now: Timespec) -> (r: Duration)
        requires
            now.not_before(self@),
            fine_fits(now, self@),
        ensures
            r@ == fine_span(now, self@),
    {
        Instant::elapsed_duration(now, self.steady_time_point)
    }

    /// A clock that starts now.
    pub fn new(clock: &mut LogicalClock) -> (r: SteadyClock)
        ensures
            r@ == timespec_of(old(clock)@.nanos as int),
            final(clock)@ == old(clock)@.read(),
    {
        SteadyClock::at(monotonic_raw_now(clock))
    }

    /// Whether the logical clock has not gone back behind the start.
    pub fn is_readable(&self, clock: &LogicalClock) -> (r: bool)
        ensures
            r == (timespec_of(clock@.nanos as int).not_before(self@) && fine_fits(
                timespec_of(clock@.nanos as int),
                self@,
            )),
    {
        let now: Timespec = Timespec::from_total_nanos(dst_now_nanos(clock) as i128);
        now >= self.steady_time_point && Instant::Monotonic(now).can_subtract(
            Instant::Monotonic(self.steady_time_point),
        )
    }

    /// The span since the start. The logical clock has not gone back behind
    /// it.
    pub fn now(&self, clock: &mut LogicalClock) -> (r: Duration)
        requires
            timespec_of(old(clock)@.nanos as int).not_before(self@),
            fine_fits(timespec_of(old(clock)@.nanos as int), self@),
        ensures
            r@ == fine_span(timespec_of(old(clock)@.nanos as int), self@),
            final(clock)@ == old(clock)@.read(),
    {
        self.elapsed(monotonic_raw_now(clock))
    }
}

/// A steady clock that was made when the logical clock showed `start` can be
/// read as long as that shows no less, and shows just the difference.
pub proof fn lemma_steady_clock_follows(start: i64, now: i64)
    requires
        now >= start,
    ensures
        timespec_of(now as int).not_before(timespec_of(start as int)),
        fine_fits(timespec_of(now as int), timespec_of(start as int)),
        fine_span(timespec_of(now as int), timespec_of(start as int)) == now - start,
{
    lemma_clock_spans_fit(now, start);
}

/// The most that a caller waits for a turn of the timer thread, in
/// milliseconds.
pub const SYNC_TIMEOUT_MS: u64 = 200;

/// How long a caller sleeps between two looks, in microseconds.
pub const SYNC_SLEEP_US: u64 = 5;

/// Counts the turns of a timer thread that were asked for and done, so that a
/// caller can wait until all delays that are due have fired.
#[derive(Debug)]
pub struct TimerSync {
    requested: u64,
    completed: u64,
}

/// What a timer sync holds.
#[verifier::ext_equal]
pub struct SyncView {
    pub requested: u64,
    pub completed: u64,
}

impl View for TimerSync {
    type V = SyncView;

    closed spec fn view(&self) -> SyncView {
        SyncView { requested: self.requested, completed: self.completed }
    }
}

impl SyncView {
    /// The counts after the timer thread has done a turn: at most one request
    /// is answered.
    pub open spec fn acked(self) -> SyncView {
        if self.requested > self.completed {
            SyncView { completed: (self.completed + 1) as u64, ..self }
        } else {
            self
        }
    }

    /// The counts after `n` turns.
    pub open spec fn acked_times(self, n: nat) -> SyncView
        decreases n,
    {
        if n == 0 {
            self
        } else {
            self.acked_times((n - 1) as nat).acked()
        }
    }
}

impl TimerSync {
    pub fn new() -> (r: TimerSync)
        ensures
            r@ == (SyncView { requested: 0, completed: 0 }),
    {
        TimerSync { requested: 0, completed: 0 }
    }

    /// How many turns were asked for.
    pub fn requested(&self) -> (r: u64)
        ensures
            r == self@.requested,
    {
        self.requested
    }

    /// Whether the wait for request number `req` goes on, and if so how long
    /// to sleep until the next look. It ends once the request is answered or
    /// the caller has waited too long.
    pub fn wait_step(&self, req: u64, waited: Duration) -> (r: Option<Duration>)
        ensures
            match r {
                Some(sleep) => self@.completed < req && waited@ <= SYNC_TIMEOUT_MS * 1_000_000
                    && sleep@ == SYNC_SLEEP_US * 1_000,
                None => self@.completed >= req || waited@ > SYNC_TIMEOUT_MS * 1_000_000,
            },
    {
        if self.completed >= req {
            return None;
        }
        if !Duration::from_millis(SYNC_TIMEOUT_MS).at_least(&waited) {
            return None;
        }
        Some(Duration::from_micros(SYNC_SLEEP_US))
    }
}

/// Answers one request, if there is one, after a turn of the timer thread.
pub fn ack_if_requested(sync: &mut TimerSync)
    ensures
        final(sync)@ == old(sync)@.acked(),
{
    if sync.requested > sync.completed {
        sync.completed = sync.completed + 1;
    }
}

/// Asks for a turn of the timer thread, so that all delays that are due fire.
/// Returns the number of the request, which the caller waits for.
pub fn dst_process_timers(sync: &mut TimerSync) -> (r: u64)
    requires
        old(sync)@.requested < u64::MAX,
    ensures
        r == old(sync)@.requested + 1,
        final(sync)@ == (SyncView { requested: r, ..old(sync)@ }),
{
    sync.requested = sync.requested + 1;
    sync.requested
}

/// Every request is answered: after as many turns as there are open requests
/// none is left, and turns without a request change nothing.
pub proof fn lemma_requests_answered(v: SyncView, n: nat)
    requires
        v.completed <= v.requested,
    ensures
        v.acked_times(n).requested == v.requested,
        v.acked_times(n).completed == if n <= v.requested - v.completed {
            v.completed + n
        } else {
            v.requested as int
        },
    decreases n,
{
    if n > 0 {
        lemma_requests_answered(v, (n - 1) as nat);
    }
}

/// The time that comes first: some task is due then, all are of its kind, and
/// none is due at fewer seconds, or at the same seconds and fewer nanoseconds.
pub proof fn lemma_first_is_earliest<T>(
    tasks: Multiset<(Instant, T)>,
    tick: Instant,
    e: (Instant, T),
)
    requires
        is_first(tasks, tick),
        tasks.contains(e),
    ensures
        exists|task: T| #[trigger] tasks.contains((tick, task)),
        e.0 is Monotonic == tick is Monotonic,
        e.0.time().sec >= tick.time().sec,
        e.0.time().sec == tick.time().sec ==> e.0.time().nsec >= tick.time().nsec,
{
    assert(e.0.not_before(tick));
}

/// What comes out of a timer was due: it is of the kind of the instant that was
/// asked for, and not later. As long as a task of that kind is due something
/// comes out, and what comes out is no later than it.
pub proof fn lemma_due_by_seconds<T>(
    tasks: Multiset<(Instant, T)>,
    instant: Instant,
    tick: Instant,
    task: T,
    e: (Instant, T),
)
    requires
        tasks.contains(e),
    ensures
        ({
            let same = e.0 is Monotonic == instant is Monotonic;
            let later = e.0.time().sec > instant.time().sec || (e.0.time().sec
                == instant.time().sec && e.0.time().nsec > instant.time().nsec);
            &&& none_due(tasks, instant) ==> !same || later
            &&& is_due_first(tasks, instant, tick, task) ==> {
                &&& tasks.contains((tick, task))
                &&& tick is Monotonic == instant is Monotonic
                &&& tick.time().sec <= instant.time().sec
                &&& tick.time().sec == instant.time().sec ==> tick.time().nsec
                    <= instant.time().nsec
                &&& tick.time().sec <= e.0.time().sec
                &&& tick.time().sec == e.0.time().sec ==> tick.time().nsec <= e.0.time().nsec
            }
            &&& all_of_kind(tasks, instant) ==> same
        }),
{
    if none_due(tasks, instant) {
        assert(!instant.not_before(e.0));
    }
    if is_due_first(tasks, instant, tick, task) {
        assert(e.0.not_before(tick));
    }
    if all_of_kind(tasks, instant) {
        assert(e.0.same_kind(instant));
    }
}

/// A ratchet clock counts whole milliseconds: its count is the highest that the
/// clock below it has shown, and moves for nothing less.
pub proof fn lemma_ratchet_counts_milliseconds(last: u64, span: nat)
    requires
        span < 18_446_744_073_709_551_616_000_000,
    ensures
        ms_count(span) * 1_000_000 <= span < (ms_count(span) + 1) * 1_000_000,
        span >= last * 1_000_000 ==> ratcheted(last, ms_count(span)) == span / 1_000_000,
        span < last * 1_000_000 ==> ratcheted(last, ms_count(span)) == last,
{
}

/// A turn of the timer thread answers one request where one is open, and none
/// is answered before it was made.
pub proof fn lemma_turn_answers_one(v: SyncView)
    ensures
        v.acked().requested == v.requested,
        v.completed < v.requested ==> v.acked().completed == v.completed + 1,
        v.completed >= v.requested ==> v.acked().completed == v.completed,
        SYNC_TIMEOUT_MS * 1_000_000 == 200_000_000,
        SYNC_SLEEP_US * 1_000 == 5_000,
{
}

/// A timer accepts a task where all the others are fine, or all are coarse, as
/// the reading is.
pub proof fn lemma_all_of_one_kind<T>(tasks: Multiset<(Instant, T)>, now: Instant)
    ensures
        all_of_kind(tasks, now) <==> forall|e: (Instant, T)| #[trigger]
            tasks.contains(e) ==> (e.0 is Monotonic <==> now is Monotonic),
{
    if forall|e: (Instant, T)| #[trigger]
        tasks.contains(e) ==> (e.0 is Monotonic <==> now is Monotonic) {
        assert forall|e: (Instant, T)| #[trigger] tasks.contains(e) implies e.0.same_kind(now) by {}
    }
    if all_of_kind(tasks, now) {
        assert forall|e: (Instant, T)| #[trigger] tasks.contains(e) implies (e.0 is Monotonic
            <==> now is Monotonic) by {
            assert(e.0.same_kind(now));
        }
    }
}

} // verus!
