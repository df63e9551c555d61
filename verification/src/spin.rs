//! Waiting by spinning: how long one round takes is measured once, then spans
//! are turned into rounds.

use crate::chain::{is_chain, within};
use crate::duration::Duration;
use crate::instant::Instant;
use vstd::prelude::*;

verus! {

/// A measurement takes at most this many rounds.
pub const MAX_SPIN_ROUNDS: u64 = 2_097_152;

/// How often the clock is looked at while measuring, in rounds.
pub const MEASURE_CHECK_ROUNDS: u64 = 1_024;

/// How often the clock is looked at while waiting, in rounds.
pub const WAIT_CHECK_ROUNDS: u64 = 100;

/// A measurement is over after so many milliseconds.
pub const INSPECT_MILLIS: u64 = 10;

/// How long one round of spinning takes.
#[derive(Clone, Copy, Debug)]
pub struct SpinInterval {
    one_round_nanos: u64,
    measured: bool,
}

/// What a spin interval holds.
pub struct SpinView {
    pub one_round_nanos: u64,
    pub measured: bool,
}

impl View for SpinInterval {
    type V = SpinView;

    closed spec fn view(&self) -> SpinView {
        SpinView { one_round_nanos: self.one_round_nanos, measured: self.measured }
    }
}

/// The nanoseconds per round that a measurement gives.
pub open spec fn per_round(elapsed: nat, count: u64) -> u64 {
    (elapsed as u64) / count
}

/// How many rounds make up a span.
pub open spec fn rounds_of(span: nat, one_round_nanos: u64) -> u64 {
    (span as u64) / one_round_nanos
}

impl SpinView {
    /// The interval after a measurement of `count` rounds in `elapsed`
    /// nanoseconds. One that gives nothing leaves it as it was.
    pub open spec fn after_measure(self, elapsed: nat, count: u64) -> SpinView {
        SpinView {
            one_round_nanos: if per_round(elapsed, count) > 0 {
                per_round(elapsed, count)
            } else {
                self.one_round_nanos
            },
            measured: true,
        }
    }
}

impl SpinInterval {
    #[verifier::type_invariant]
    spec fn type_inv(self) -> bool {
        self.one_round_nanos > 0
    }

    /// One nanosecond per round, until it is measured.
    pub fn new() -> (r: SpinInterval)
        ensures
            r@ == (SpinView { one_round_nanos: 1, measured: false }),
    {
        SpinInterval { one_round_nanos: 1, measured: false }
    }

    /// Takes note of a measurement.
    pub fn record(&mut self, elapsed: Duration, count: u64)
        requires
            count > 0,
        ensures
            final(self)@ == old(self)@.after_measure(elapsed@, count),
    {
        proof {
            use_type_invariant(&*self);
        }
        let one_round: u64 = elapsed.as_nanos() as u64 / count;
        if one_round > 0 {
            self.one_round_nanos = one_round;
        }
        self.measured = true;
    }

    /// How many rounds make up a span.
    pub fn rounds(&self, span: Duration) -> (r: u64)
        ensures
            r == rounds_of(span@, self@.one_round_nanos),
            self@.one_round_nanos > 0,
    {
        proof {
            use_type_invariant(self);
        }
        span.as_nanos() as u64 / self.one_round_nanos
    }
}

/// Whether `now` reads a clock: it can be called, and a span can be taken
/// between any two readings.
pub open spec fn reads_clock<C, F: Fn(&mut C) -> Instant>(now: F) -> bool {
    &&& forall|c: &mut C| #[trigger] now.requires((c,))
    &&& forall|c: &mut C, d: &mut C, a: Instant, b: Instant|
        #[trigger] now.ensures((c,), a) && #[trigger] now.ensures((d,), b) ==> b.same_kind(a)
            && b.span_fits(a)
}

/// Whether no look before look `n` shows that `span` has passed since the
/// first reading. Look `i` is reading `i`.
pub open spec fn unpassed_before(readings: Seq<Instant>, n: int, span: nat) -> bool {
    forall|i: int| 0 < i < n ==> (#[trigger] readings[i]).span_since(readings[0]) < span
}

/// Whether look `n` shows that `span` has passed since the first reading.
pub open spec fn passed_at(readings: Seq<Instant>, n: int, span: nat) -> bool {
    n > 0 && readings[n].span_since(readings[0]) >= span
}

/// Whether a measurement with these readings makes `after` of `before`. The
/// first reading starts it, each of the next comes after `MEASURE_CHECK_ROUNDS`
/// more rounds, until one shows that `INSPECT_MILLIS` have passed or the rounds
/// are used up, and the last one ends it. Nothing is read where `before` was
/// measured.
pub open spec fn measured_by(before: SpinView, readings: Seq<Instant>, after: SpinView) -> bool {
    let looks = readings.len() - 2;
    let inspect = (INSPECT_MILLIS * 1_000_000) as nat;
    if before.measured {
        readings.len() == 0 && after == before
    } else {
        &&& 1 <= looks <= MAX_SPIN_ROUNDS / MEASURE_CHECK_ROUNDS
        &&& unpassed_before(readings, looks, inspect)
        &&& passed_at(readings, looks, inspect) || looks == MAX_SPIN_ROUNDS / MEASURE_CHECK_ROUNDS
        &&& after == before.after_measure(
            readings.last().span_since(readings[0]),
            (looks * MEASURE_CHECK_ROUNDS) as u64,
        )
    }
}

/// Whether waiting for `span` with these readings takes `taken` of `rounds`
/// rounds. The first reading starts it, and each of the others comes after
/// `WAIT_CHECK_ROUNDS` more rounds, until one shows that the span has passed or
/// the rounds are used up.
pub open spec fn waited_by(span: nat, rounds: u64, readings: Seq<Instant>, taken: u64) -> bool {
    let looks = readings.len() - 1;
    &&& 0 <= looks <= rounds / WAIT_CHECK_ROUNDS
    &&& unpassed_before(readings, looks, span)
    &&& if passed_at(readings, looks, span) {
        taken == looks * WAIT_CHECK_ROUNDS
    } else {
        looks == rounds / WAIT_CHECK_ROUNDS && taken == rounds
    }
}

/// Reads the clock once more, after the readings so far.
fn look<C, F: Fn(&mut C) -> Instant>(
    clock: &mut C,
    now: &F,
    Ghost(clocks): Ghost<Seq<C>>,
    Ghost(readings): Ghost<Seq<Instant>>,
) -> (r: Instant)
    requires
        reads_clock(*now),
        clocks.len() == readings.len() + 1,
        clocks.last() == *old(clock),
        forall|i: int|
            #![trigger readings[i]]
            #![trigger within(readings, i)]
            within(readings, i) ==> exists|c: &mut C| #[trigger]
                now.ensures((c,), readings[i]) && *c == clocks[i] && *final(c) == clocks[i + 1],
    ensures
        forall|i: int|
            #![trigger readings.push(r)[i]]
            #![trigger within(readings.push(r), i)]
            within(readings.push(r), i) ==> exists|c: &mut C| #[trigger]
                now.ensures((c,), readings.push(r)[i]) && *c == clocks.push(*final(clock))[i]
                    && *final(c) == clocks.push(*final(clock))[i + 1],
        forall|i: int|
            within(readings, i) ==> r.same_kind(#[trigger] readings[i]) && r.span_fits(readings[i]),
{
    let r: Instant = now(clock);
    proof {
        let after = clocks.push(*clock);
        let all = readings.push(r);
        assert forall|i: int|
            #![trigger all[i]]
            #![trigger within(all, i)]
            within(all, i) implies exists|c: &mut C| #[trigger]
            now.ensures((c,), all[i]) && *c == after[i] && *final(c) == after[i + 1] by {
            if i < readings.len() {
                assert(within(readings, i));
                assert(all[i] == readings[i]);
                assert(after[i] == clocks[i] && after[i + 1] == clocks[i + 1]);
            } else {
                assert(all[i] == r);
            }
        }
        assert forall|i: int| within(readings, i) implies r.same_kind(#[trigger] readings[i])
            && r.span_fits(readings[i]) by {
            assert(within(readings, i));
        }
    }
    r
}

/// Measures, if that was not done yet. Tells the readings, and the clocks
/// between them.
fn measure<C, F: Fn(&mut C) -> Instant>(spin: &mut SpinInterval, clock: &mut C, now: &F) -> (r: (
    Ghost<Seq<C>>,
    Ghost<Seq<Instant>>,
))
    requires
        reads_clock(*now),
    ensures
        is_chain(r.0@, r.1@.len(), *old(clock), *final(clock)),
        measured_by(old(spin)@, r.1@, final(spin)@),
        forall|i: int|
            #![trigger r.1@[i]]
            #![trigger within(r.1@, i)]
            within(r.1@, i) ==> exists|c: &mut C| #[trigger]
                now.ensures((c,), r.1@[i]) && *c == r.0@[i] && *final(c) == r.0@[i + 1],
{
    let ghost mut clocks: Seq<C> = seq![*clock];
    let ghost mut readings: Seq<Instant> = Seq::empty();
    if spin.measured {
        return (Ghost(clocks), Ghost(readings));
    }
    let inspect: Duration = Duration::from_millis(INSPECT_MILLIS);
    let start: Instant = look(clock, now, Ghost(clocks), Ghost(readings));
    proof {
        clocks = clocks.push(*clock);
        readings = readings.push(start);
    }
    let mut count: u64 = 0;
    let mut over: bool = false;
    while count < MAX_SPIN_ROUNDS && !over
        invariant
            count <= MAX_SPIN_ROUNDS,
            inspect@ == INSPECT_MILLIS * 1_000_000,
            reads_clock(*now),
            readings.len() >= 1,
            readings[0] == start,
            readings.len() - 1 == count / MEASURE_CHECK_ROUNDS,
            over ==> count % MEASURE_CHECK_ROUNDS == 0,
            unpassed_before(readings, readings.len() - 1, inspect@),
            over == passed_at(readings, readings.len() - 1, inspect@),
            is_chain(clocks, readings.len(), *old(clock), *clock),
            forall|i: int|
                #![trigger readings[i]]
                #![trigger within(readings, i)]
                within(readings, i) ==> exists|c: &mut C| #[trigger]
                    now.ensures((c,), readings[i]) && *c == clocks[i] && *final(c) == clocks[i + 1],
        decreases MAX_SPIN_ROUNDS - count,
    {
        count = count + 1;
        if count % MEASURE_CHECK_ROUNDS == 0 {
            let later: Instant = look(clock, now, Ghost(clocks), Ghost(readings));
            let d: Duration = later.saturating_duration_since(start);
            over = d.at_least(&inspect);
            proof {
                clocks = clocks.push(*clock);
                readings = readings.push(later);
            }
        }
    }
    let end: Instant = look(clock, now, Ghost(clocks), Ghost(readings));
    let d: Duration = end.saturating_duration_since(start);
    spin.record(d, count);
    proof {
        clocks = clocks.push(*clock);
        readings = readings.push(end);
    }
    (Ghost(clocks), Ghost(readings))
}

/// Measures once how long one round of spinning takes: spins for a while,
/// counts the rounds, and divides. `now` reads the clock.
pub fn setup_for_spin_interval<C, F: Fn(&mut C) -> Instant>(
    spin: &mut SpinInterval,
    clock: &mut C,
    now: F,
)
    requires
        reads_clock(now),
    ensures
        exists|clocks: Seq<C>, readings: Seq<Instant>|
            #![trigger is_chain(clocks, readings.len(), *old(clock), *final(clock)), measured_by(
                old(spin)@,
                readings,
                final(spin)@,
            )]
            {
                &&& is_chain(clocks, readings.len(), *old(clock), *final(clock))
                &&& measured_by(old(spin)@, readings, final(spin)@)
                &&& forall|i: int|
                    #![trigger readings[i]]
                    #![trigger within(readings, i)]
                    within(readings, i) ==> exists|c: &mut C| #[trigger]
                        now.ensures((c,), readings[i]) && *c == clocks[i] && *final(c) == clocks[i
                            + 1]
            },
{
    let _told: (Ghost<Seq<C>>, Ghost<Seq<Instant>>) = measure(spin, clock, &now);
}

/// Waits for at least `span` by spinning, give or take what the measurement is
/// worth, which is made first where there is none. Returns the rounds. `now`
/// reads the clock.
pub fn spin_at_least<C, F: Fn(&mut C) -> Instant>(
    spin: &mut SpinInterval,
    span: Duration,
    clock: &mut C,
    now: F,
) -> (r: u64)
    requires
        reads_clock(now),
    ensures
        exists|clocks: Seq<C>, measuring: Seq<Instant>, waiting: Seq<Instant>|
            #![trigger is_chain(
                clocks,
                (measuring + waiting).len(),
                *old(clock),
                *final(clock),
            ), measured_by(old(spin)@, measuring, final(spin)@)]
            {
                let readings = measuring + waiting;
                &&& is_chain(clocks, readings.len(), *old(clock), *final(clock))
                &&& measured_by(old(spin)@, measuring, final(spin)@)
                &&& waited_by(
                    span@,
                    rounds_of(span@, final(spin)@.one_round_nanos),
                    waiting,
                    r,
                )
                &&& forall|i: int|
                    #![trigger readings[i]]
                    #![trigger within(readings, i)]
                    within(readings, i) ==> exists|c: &mut C| #[trigger]
                        now.ensures((c,), readings[i]) && *c == clocks[i] && *final(c) == clocks[i
                            + 1]
            },
{
    let (Ghost(clocks0), Ghost(measuring)) = measure(spin, clock, &now);
    let ghost mut clocks: Seq<C> = clocks0;
    let ghost mut waiting: Seq<Instant> = Seq::empty();
    assert(measuring + waiting =~= measuring);
    let rounds: u64 = spin.rounds(span);
    let start: Instant = look(clock, &now, Ghost(clocks), Ghost(measuring + waiting));
    proof {
        assert((measuring + waiting).push(start) =~= measuring + waiting.push(start));
        clocks = clocks.push(*clock);
        waiting = waiting.push(start);
        assert((measuring + waiting)[measuring.len() as int] == start);
    }
    let mut i: u64 = 0;
    let mut over: bool = false;
    while i < rounds && !over
        invariant
            i <= rounds,
            reads_clock(now),
            waiting.len() >= 1,
            waiting[0] == start,
            (measuring + waiting)[measuring.len() as int] == start,
            waiting.len() - 1 == i / WAIT_CHECK_ROUNDS,
            over ==> i % WAIT_CHECK_ROUNDS == 0,
            unpassed_before(waiting, waiting.len() - 1, span@),
            over == passed_at(waiting, waiting.len() - 1, span@),
            is_chain(clocks, (measuring + waiting).len(), *old(clock), *clock),
            forall|i: int|
                #![trigger (measuring + waiting)[i]]
                #![trigger within(measuring + waiting, i)]
                within(measuring + waiting, i) ==> exists|c: &mut C| #[trigger]
                    now.ensures((c,), (measuring + waiting)[i]) && *c == clocks[i] && *final(c)
                        == clocks[i + 1],
        decreases rounds - i,
    {
        i = i + 1;
        if i % WAIT_CHECK_ROUNDS == 0 {
            let later: Instant = look(clock, &now, Ghost(clocks), Ghost(measuring + waiting));
            assert(within(measuring + waiting, measuring.len() as int));
            let d: Duration = later.saturating_duration_since(start);
            over = d.at_least(&span);
            proof {
                assert((measuring + waiting).push(later) =~= measuring + waiting.push(later));
                clocks = clocks.push(*clock);
                waiting = waiting.push(later);
                assert((measuring + waiting)[measuring.len() as int] == start);
            }
        }
    }
    i
}

/// A measurement, in numbers. Between its first and its last reading there are
/// up to 2048 looks, one after each 1024 rounds, and it goes on just until one
/// shows ten milliseconds. A round then takes what the whole took divided by
/// the rounds; where that is less than a nanosecond it is left as it was.
pub proof fn lemma_measuring_in_numbers(
    before: SpinView,
    readings: Seq<Instant>,
    after: SpinView,
)
    requires
        measured_by(before, readings, after),
    ensures
        before.measured ==> readings.len() == 0 && after == before,
        !before.measured ==> {
            let rounds = (readings.len() - 2) * 1_024;
            let elapsed = readings.last().span_since(readings[0]);
            &&& after.measured
            &&& 3 <= readings.len() <= 2_050
            &&& forall|i: int|
                0 < i < readings.len() - 2 ==> (#[trigger] readings[i]).span_since(readings[0])
                    < 10_000_000
            &&& readings.len() < 2_050 ==> readings[readings.len() - 2].span_since(readings[0])
                >= 10_000_000
            &&& elapsed < rounds ==> after.one_round_nanos == before.one_round_nanos
            &&& rounds <= elapsed <= u64::MAX ==> after.one_round_nanos * rounds <= elapsed
                < (after.one_round_nanos + 1) * rounds
        },
{
    if !before.measured {
        let looks = readings.len() - 2;
        let rounds = (looks * 1_024) as u64;
        let elapsed = readings.last().span_since(readings[0]);
        assert(rounds == looks * 1_024);
        if elapsed <= u64::MAX {
            lemma_quotient(elapsed as u64, rounds);
        }
    }
}

/// Waiting, in numbers: the clock is looked at after each hundred rounds, and
/// the wait goes on just until a look shows that the span has passed or as many
/// rounds as fit in the span are done. It never takes more rounds than that.
pub proof fn lemma_waiting_in_numbers(
    span: nat,
    one_round_nanos: u64,
    readings: Seq<Instant>,
    taken: u64,
)
    requires
        one_round_nanos > 0,
        span <= u64::MAX,
        waited_by(span, rounds_of(span, one_round_nanos), readings, taken),
    ensures
        readings.len() == taken / 100 + 1,
        forall|i: int|
            0 < i < readings.len() - 1 ==> (#[trigger] readings[i]).span_since(readings[0]) < span,
        taken * one_round_nanos <= span,
        (taken + 1) * one_round_nanos > span || (taken % 100 == 0 && taken > 0
            && readings.last().span_since(readings[0]) >= span),
{
    let rounds = rounds_of(span, one_round_nanos);
    lemma_quotient(span as u64, one_round_nanos);
    assert(taken <= rounds);
    assert(taken * one_round_nanos <= rounds * one_round_nanos) by (nonlinear_arith)
        requires
            taken <= rounds,
    ;
}

proof fn lemma_quotient(a: u64, b: u64)
    requires
        b > 0,
    ensures
        (a / b) * b <= a < (a / b + 1) * b,
        a < b ==> a / b == 0,
        a >= b ==> a / b > 0,
{
    assert((a / b) * b <= a < (a / b + 1) * b) by (nonlinear_arith)
        requires
            b > 0,
    ;
    assert(a < b ==> a / b == 0) by (nonlinear_arith)
        requires
            b > 0,
    ;
    assert(a >= b ==> a / b > 0) by (nonlinear_arith)
        requires
            b > 0,
    ;
}

} // verus!
