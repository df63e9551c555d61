//! Measurements of a monotonic clock, and timers built on them.

use crate::duration::{
    duration_of, in_time_range, lemma_time_duration_of, to_std_duration, to_time_duration,
    Duration,
};
use crate::logical_clock::{
    monotonic_coarse_now, monotonic_now, monotonic_raw_now, ClockView, LogicalClock,
};
use crate::timespec::{timespec_of, Timespec};
use std::cmp::Ordering;
use std::ops::{Add, Sub};
use vstd::prelude::*;
use vstd::std_specs::cmp::PartialOrdSpec;
use vstd::std_specs::ops::{AddSpec, AddSpecImpl, SubSpec, SubSpecImpl};

verus! {

/// A measurement of a monotonic clock. Measurements of different kinds are
/// neither equal nor ordered.
#[derive(Copy, Clone, Debug, PartialEq, Eq, Structural)]
pub enum Instant {
    Monotonic(Timespec),
    MonotonicCoarse(Timespec),
}

/// The milliseconds of a point in time, with those of the nanoseconds cut
/// toward zero.
pub open spec fn whole_ms(t: Timespec) -> int {
    t.sec * 1_000 + if t.nsec >= 0 {
        t.nsec as int / 1_000_000
    } else {
        -((-t.nsec) / 1_000_000)
    }
}

/// Whether the milliseconds of a point in time can be held.
pub open spec fn ms_fits(t: Timespec) -> bool {
    i64::MIN <= t.sec * 1_000 <= i64::MAX && i64::MIN <= whole_ms(t) <= i64::MAX
}

/// Whether the span between two points in time can be taken in milliseconds.
pub open spec fn coarse_fits(later: Timespec, earlier: Timespec) -> bool {
    ms_fits(later) && ms_fits(earlier) && i64::MIN <= whole_ms(later) - whole_ms(earlier)
        <= i64::MAX
}

/// Whether the span between two points in time can be taken, and is not
/// negative.
pub open spec fn fine_fits(later: Timespec, earlier: Timespec) -> bool {
    &&& i64::MIN <= later.sec - earlier.sec <= i64::MAX
    &&& in_time_range(later.nanos() - earlier.nanos())
    &&& later.nanos() >= earlier.nanos()
}

/// The span between two points in time in whole milliseconds; zero where the
/// second is later.
pub open spec fn coarse_span(later: Timespec, earlier: Timespec) -> nat {
    if whole_ms(later) >= whole_ms(earlier) {
        ((whole_ms(later) - whole_ms(earlier)) * 1_000_000) as nat
    } else {
        0
    }
}

/// The span between two points in time; zero where the second is later.
pub open spec fn fine_span(later: Timespec, earlier: Timespec) -> nat {
    if later.not_before(earlier) {
        (later.nanos() - earlier.nanos()) as nat
    } else {
        0
    }
}

fn ms_of(t: Timespec) -> (r: i64)
    requires
        ms_fits(t),
    ensures
        r == whole_ms(t),
{
    let nsec: i64 = t.nsec as i64;
    let part: i64 = if nsec >= 0 {
        nsec / 1_000_000
    } else {
        -((-nsec) / 1_000_000)
    };
    t.sec * 1_000 + part
}

/// Whether 64 bits hold `n`.
fn is_i64(n: i128) -> (r: bool)
    ensures
        r == (i64::MIN <= n <= i64::MAX),
{
    -0x8000_0000_0000_0000 <= n && n <= 0x7fff_ffff_ffff_ffff
}

fn is_fine_fit(later: Timespec, earlier: Timespec) -> (r: bool)
    ensures
        r == fine_fits(later, earlier),
{
    let secs: i128 = later.sec as i128 - earlier.sec as i128;
    let nanos: i128 = secs * 1_000_000_000 + (later.nsec as i128 - earlier.nsec as i128);
    is_i64(secs) && nanos >= 0 && nanos <= 9_223_372_036_854_775_807_999_999_999
}

fn is_coarse_fit(later: Timespec, earlier: Timespec) -> (r: bool)
    ensures
        r == coarse_fits(later, earlier),
{
    let (later_ms, earlier_ms): (i128, i128) = (wide_ms(later), wide_ms(earlier));
    is_i64(later.sec as i128 * 1_000) && is_i64(later_ms) && is_i64(earlier.sec as i128 * 1_000)
        && is_i64(earlier_ms) && is_i64(later_ms - earlier_ms)
}

fn wide_ms(t: Timespec) -> (r: i128)
    ensures
        r == whole_ms(t),
{
    let nsec: i64 = t.nsec as i64;
    let part: i64 = if nsec >= 0 {
        nsec / 1_000_000
    } else {
        -((-nsec) / 1_000_000)
    };
    t.sec as i128 * 1_000 + part as i128
}

impl Instant {
    /// The point in time that was measured.
    pub open spec fn time(self) -> Timespec {
        match self {
            Instant::Monotonic(t) => t,
            Instant::MonotonicCoarse(t) => t,
        }
    }

    /// Whether two measurements are of one kind.
    pub open spec fn same_kind(self, other: Instant) -> bool {
        self is Monotonic == other is Monotonic
    }

    /// The measurement of the same kind at another point in time.
    pub open spec fn with_time(self, t: Timespec) -> Instant {
        match self {
            Instant::Monotonic(_) => Instant::Monotonic(t),
            Instant::MonotonicCoarse(_) => Instant::MonotonicCoarse(t),
        }
    }

    /// Whether `self` is of the same kind as `other` and not before it.
    pub open spec fn not_before(self, other: Instant) -> bool {
        self.same_kind(other) && self.time().not_before(other.time())
    }

    /// The span since `earlier`, zero where that is later: in whole
    /// milliseconds between coarse measurements.
    pub open spec fn span_since(self, earlier: Instant) -> nat {
        if self is Monotonic {
            fine_span(self.time(), earlier.time())
        } else {
            coarse_span(self.time(), earlier.time())
        }
    }

    /// Whether that span can be taken.
    pub open spec fn span_fits(self, earlier: Instant) -> bool {
        if self is Monotonic {
            self.time().not_before(earlier.time()) ==> fine_fits(self.time(), earlier.time())
        } else {
            coarse_fits(self.time(), earlier.time())
        }
    }

    /// The measurement of the same kind that a clock would give now.
    pub open spec fn at_clock(self, clock: ClockView) -> Instant {
        self.with_time(timespec_of(clock.nanos as int))
    }

    pub fn now(clock: &mut LogicalClock) -> (r: Instant)
        ensures
            r == Instant::MonotonicCoarse(timespec_of(old(clock)@.nanos as int)),
            final(clock)@ == old(clock)@.read(),
    {
        Instant::MonotonicCoarse(monotonic_coarse_now(clock))
    }

    pub fn now_coarse(clock: &mut LogicalClock) -> (r: Instant)
        ensures
            r == Instant::MonotonicCoarse(timespec_of(old(clock)@.nanos as int)),
            final(clock)@ == old(clock)@.read(),
    {
        Instant::MonotonicCoarse(monotonic_coarse_now(clock))
    }

    /// The span since this measurement; zero where it is in the future.
    pub fn saturating_elapsed(&self, clock: &mut LogicalClock) -> (r: Duration)
        requires
            self.at_clock(old(clock)@).span_fits(*self),
        ensures
            r@ == self.at_clock(old(clock)@).span_since(*self),
            final(clock)@ == old(clock)@.read(),
    {
        match *self {
            Instant::Monotonic(t) => {
                let now: Timespec = monotonic_now(clock);
                Instant::saturating_elapsed_duration(now, t)
            },
            Instant::MonotonicCoarse(t) => {
                let now: Timespec = monotonic_coarse_now(clock);
                Instant::saturating_elapsed_duration_coarse(now, t)
            },
        }
    }

    /// Whether `earlier` is of the same kind and the span since it can be
    /// taken.
    pub fn can_subtract(&self, earlier: Instant) -> (r: bool)
        ensures
            r == (self.same_kind(earlier) && self.span_fits(earlier)),
    {
        match (*self, earlier) {
            (Instant::Monotonic(a), Instant::Monotonic(b)) => !(a >= b) || is_fine_fit(a, b),
            (Instant::MonotonicCoarse(a), Instant::MonotonicCoarse(b)) => is_coarse_fit(a, b),
            _ => false,
        }
    }

    /// The span since `earlier`, which is of the same kind. Between fine
    /// measurements `earlier` is not later.
    pub fn duration_since(&self, earlier: Instant) -> (r: Duration)
        requires
            self.same_kind(earlier),
            self is Monotonic ==> self.time().not_before(earlier.time()),
            self.span_fits(earlier),
        ensures
            r@ == self.span_since(earlier),
            r == duration_of(r@),
    {
        match (*self, earlier) {
            (Instant::Monotonic(later), Instant::Monotonic(earlier)) => Instant::elapsed_duration(
                later,
                earlier,
            ),
            (
                Instant::MonotonicCoarse(later),
                Instant::MonotonicCoarse(earlier),
            ) => Instant::saturating_elapsed_duration_coarse(later, earlier),
            _ => Duration::from_millis(0),
        }
    }

    /// The span since `earlier`, which is of the same kind; zero where it is
    /// later.
    pub fn saturating_duration_since(&self, earlier: Instant) -> (r: Duration)
        requires
            self.same_kind(earlier),
            self.span_fits(earlier),
        ensures
            r@ == self.span_since(earlier),
            r == duration_of(r@),
    {
        match (*self, earlier) {
            (
                Instant::Monotonic(later),
                Instant::Monotonic(earlier),
            ) => Instant::saturating_elapsed_duration(later, earlier),
            (
                Instant::MonotonicCoarse(later),
                Instant::MonotonicCoarse(earlier),
            ) => Instant::saturating_elapsed_duration_coarse(later, earlier),
            _ => Duration::from_millis(0),
        }
    }

    /// The span since `other`, or `None` where `other` is later or of another
    /// kind.
    pub fn checked_sub(&self, other: Instant) -> (r: Option<Duration>)
        requires
            self.not_before(other) ==> self.span_fits(other),
        ensures
            match r {
                Some(d) => self.not_before(other) && d@ == self.span_since(other) && d
                    == duration_of(d@),
                None => !self.not_before(other),
            },
    {
        if *self >= other {
            Some(self.duration_since(other))
        } else {
            None
        }
    }

    /// The span between two points in time.
    pub fn elapsed_duration(later: Timespec, earlier: Timespec) -> (r: Duration)
        requires
            later.not_before(earlier),
            fine_fits(later, earlier),
        ensures
            r@ == fine_span(later, earlier),
            r == duration_of(r@),
    {
        proof {
            lemma_time_duration_of(later.nanos() - earlier.nanos());
        }
        to_std_duration(later - earlier)
    }

    pub(crate) fn saturating_elapsed_duration(later: Timespec, earlier: Timespec) -> (r: Duration)
        requires
            later.not_before(earlier) ==> fine_fits(later, earlier),
        ensures
            r@ == fine_span(later, earlier),
            r == duration_of(r@),
    {
        if later >= earlier {
            proof {
                lemma_time_duration_of(later.nanos() - earlier.nanos());
            }
            to_std_duration(later - earlier)
        } else {
            Duration::from_millis(0)
        }
    }

    pub(crate) fn saturating_elapsed_duration_coarse(
        later: Timespec,
        earlier: Timespec,
    ) -> (r: Duration)
        requires
            coarse_fits(later, earlier),
        ensures
            r@ == coarse_span(later, earlier),
            r == duration_of(r@),
    {
        let later_ms: i64 = ms_of(later);
        let earlier_ms: i64 = ms_of(earlier);
        let dur: i64 = later_ms - earlier_ms;
        if dur >= 0 {
            Duration::from_millis(dur as u64)
        } else {
            Duration::from_millis(0)
        }
    }

    /// Moves this measurement forward.
    pub fn add_assign(&mut self, rhs: Duration)
        requires
            in_time_range(rhs@ as int),
        ensures
            *final(self) == old(self).with_time(timespec_of(old(self).time().nanos() + rhs@)),
    {
        *self = *self + rhs;
    }

    /// Moves this measurement backward.
    pub fn sub_assign(&mut self, rhs: Duration)
        requires
            in_time_range(rhs@ as int),
        ensures
            *final(self) == old(self).with_time(timespec_of(old(self).time().nanos() - rhs@)),
    {
        *self = *self - rhs;
    }
}

/// Measurements of one kind are ordered by their points in time.
impl PartialOrd for Instant {
    fn partial_cmp(&self, other: &Instant) -> (r: Option<Ordering>) {
        match (*self, *other) {
            (Instant::Monotonic(this), Instant::Monotonic(that)) => this.partial_cmp(&that),
            (Instant::MonotonicCoarse(this), Instant::MonotonicCoarse(that)) => this.partial_cmp(
                &that,
            ),
            _ => None,
        }
    }
}

impl vstd::std_specs::cmp::PartialOrdSpecImpl for Instant {
    open spec fn obeys_partial_cmp_spec() -> bool {
        true
    }

    open spec fn partial_cmp_spec(&self, other: &Instant) -> Option<Ordering> {
        if !self.same_kind(*other) {
            None
        } else if self.time() == other.time() {
            Some(Ordering::Equal)
        } else if self.time().not_before(other.time()) {
            Some(Ordering::Greater)
        } else {
            Some(Ordering::Less)
        }
    }
}

impl Add<Duration> for Instant {
    type Output = Instant;

    fn add(self, other: Duration) -> (r: Instant) {
        match self {
            Instant::Monotonic(t) => Instant::Monotonic(t + to_time_duration(other)),
            Instant::MonotonicCoarse(t) => Instant::MonotonicCoarse(t + to_time_duration(other)),
        }
    }
}

impl AddSpecImpl<Duration> for Instant {
    open spec fn obeys_add_spec() -> bool {
        true
    }

    open spec fn add_req(self, rhs: Duration) -> bool {
        in_time_range(rhs@ as int)
    }

    open spec fn add_spec(self, rhs: Duration) -> Instant {
        self.with_time(timespec_of(self.time().nanos() + rhs@))
    }
}

impl Sub<Duration> for Instant {
    type Output = Instant;

    fn sub(self, other: Duration) -> (r: Instant) {
        match self {
            Instant::Monotonic(t) => Instant::Monotonic(t - to_time_duration(other)),
            Instant::MonotonicCoarse(t) => Instant::MonotonicCoarse(t - to_time_duration(other)),
        }
    }
}

impl SubSpecImpl<Duration> for Instant {
    open spec fn obeys_sub_spec() -> bool {
        true
    }

    open spec fn sub_req(self, rhs: Duration) -> bool {
        in_time_range(rhs@ as int)
    }

    open spec fn sub_spec(self, rhs: Duration) -> Instant {
        self.with_time(timespec_of(self.time().nanos() - rhs@))
    }
}

/// The span since the other measurement; zero where that is later.
impl Sub<Instant> for Instant {
    type Output = Duration;

    fn sub(self, other: Instant) -> (r: Duration) {
        self.saturating_duration_since(other)
    }
}

impl SubSpecImpl<Instant> for Instant {
    open spec fn obeys_sub_spec() -> bool {
        true
    }

    open spec fn sub_req(self, rhs: Instant) -> bool {
        self.same_kind(rhs) && self.span_fits(rhs)
    }

    open spec fn sub_spec(self, rhs: Instant) -> Duration {
        duration_of(self.span_since(rhs))
    }
}

/// Between two times of a clock every span can be taken.
pub proof fn lemma_clock_spans_fit(now: i64, before: i64)
    ensures
        coarse_fits(timespec_of(now as int), timespec_of(before as int)),
        now >= before ==> fine_fits(timespec_of(now as int), timespec_of(before as int)),
        timespec_of(now as int).not_before(timespec_of(before as int)) == (now >= before),
{
}

/// Coarse spans are off by less than a millisecond.
pub proof fn lemma_coarse_span_close(now: i64, before: i64)
    requires
        now >= before,
    ensures
        fine_span(timespec_of(now as int), timespec_of(before as int)) == now - before,
        -1_000_000 < coarse_span(timespec_of(now as int), timespec_of(before as int)) - (now
            - before) < 1_000_000,
{
}

/// Adding a span to a measurement and taking the span in between gives the
/// span again, up to a millisecond for coarse measurements.
pub proof fn lemma_add_then_span(i: Instant, delta: nat)
    requires
        i.time().is_normal(),
        i.time().nanos() + delta < (i64::MAX + 1) * 1_000_000_000,
    ensures
        i.with_time(timespec_of(i.time().nanos() + delta)).not_before(i),
        i is Monotonic ==> i.with_time(timespec_of(i.time().nanos() + delta)).span_since(i)
            == delta,
        i is MonotonicCoarse ==> -1_000_000 < i.with_time(
            timespec_of(i.time().nanos() + delta),
        ).span_since(i) - delta < 1_000_000,
{
}

/// Tells whether something takes longer than it should.
#[derive(Debug)]
pub struct SlowTimer {
    slow_time: Duration,
    t: Instant,
}

/// How long something may take unless said otherwise, in seconds.
pub const DEFAULT_SLOW_SECS: u64 = 1;

/// What a slow timer holds: how long something may take, in nanoseconds, and
/// when it began.
pub struct SlowView {
    pub slow_time: nat,
    pub start: Timespec,
}

/// Whether a slow timer can begin at this point in time: its milliseconds leave
/// room for the spans to be taken.
pub open spec fn can_begin(t: Timespec) -> bool {
    i64::MIN / 2 <= whole_ms(t) <= i64::MAX / 2
}

impl View for SlowTimer {
    type V = SlowView;

    closed spec fn view(&self) -> SlowView {
        SlowView { slow_time: self.slow_time@, start: self.t.time() }
    }
}

impl SlowTimer {
    #[verifier::type_invariant]
    spec fn type_inv(self) -> bool {
        self.t is MonotonicCoarse && can_begin(self.t.time())
    }

    /// A timer that begins at `now`, a coarse reading of any clock. `None` where
    /// it is a fine one, or no timer can begin there.
    pub fn from_reading(slow_time: Duration, now: Instant) -> (r: Option<SlowTimer>)
        ensures
            match r {
                Some(timer) => now is MonotonicCoarse && can_begin(now.time()) && timer@ == (
                SlowView { slow_time: slow_time@, start: now.time() }),
                None => !(now is MonotonicCoarse && can_begin(now.time())),
            },
    {
        match now {
            Instant::MonotonicCoarse(t) => {
                let ms: i128 = wide_ms(t);
                if i64::MIN as i128 / 2 <= ms && ms <= i64::MAX as i128 / 2 {
                    Some(SlowTimer { slow_time, t: now })
                } else {
                    None
                }
            },
            _ => None,
        }
    }

    /// When the timer began.
    pub fn start(&self) -> (r: Instant)
        ensures
            r == Instant::MonotonicCoarse(self@.start),
    {
        proof {
            use_type_invariant(self);
        }
        self.t
    }

    /// The span from the beginning to `now`, a coarse reading, in whole
    /// milliseconds.
    pub fn saturating_elapsed_at(&self, now: Instant) -> (r: Duration)
        requires
            now is MonotonicCoarse,
            coarse_fits(now.time(), self@.start),
        ensures
            r@ == coarse_span(now.time(), self@.start),
    {
        proof {
            use_type_invariant(self);
        }
        now.saturating_duration_since(self.t)
    }

    /// Whether it takes too long by `now`, a coarse reading.
    pub fn is_slow_at(&self, now: Instant) -> (r: bool)
        requires
            now is MonotonicCoarse,
            coarse_fits(now.time(), self@.start),
        ensures
            r == (coarse_span(now.time(), self@.start) >= self@.slow_time),
    {
        self.saturating_elapsed_at(now).at_least(&self.slow_time)
    }

    /// A timer that begins now, with one second.
    pub fn new(clock: &mut LogicalClock) -> (r: SlowTimer)
        ensures
            r@ == (SlowView {
                slow_time: 1_000_000_000,
                start: timespec_of(old(clock)@.nanos as int),
            }),
            final(clock)@ == old(clock)@.read(),
    {
        SlowTimer::from_secs(DEFAULT_SLOW_SECS, clock)
    }

    /// A timer that begins now.
    pub fn from(slow_time: Duration, clock: &mut LogicalClock) -> (r: SlowTimer)
        ensures
            r@ == (SlowView {
                slow_time: slow_time@,
                start: timespec_of(old(clock)@.nanos as int),
            }),
            final(clock)@ == old(clock)@.read(),
    {
        SlowTimer { slow_time, t: Instant::now_coarse(clock) }
    }

    pub fn from_secs(secs: u64, clock: &mut LogicalClock) -> (r: SlowTimer)
        ensures
            r@ == (SlowView {
                slow_time: (secs * 1_000_000_000) as nat,
                start: timespec_of(old(clock)@.nanos as int),
            }),
            final(clock)@ == old(clock)@.read(),
    {
        SlowTimer::from(Duration::from_secs(secs), clock)
    }

    pub fn from_millis(millis: u64, clock: &mut LogicalClock) -> (r: SlowTimer)
        ensures
            r@ == (SlowView {
                slow_time: (millis * 1_000_000) as nat,
                start: timespec_of(old(clock)@.nanos as int),
            }),
            final(clock)@ == old(clock)@.read(),
    {
        SlowTimer::from(Duration::from_millis(millis), clock)
    }

    /// The span since the timer began, in whole milliseconds.
    pub fn saturating_elapsed(&self, clock: &mut LogicalClock) -> (r: Duration)
        ensures
            r@ == coarse_span(timespec_of(old(clock)@.nanos as int), self@.start),
            final(clock)@ == old(clock)@.read(),
    {
        proof {
            use_type_invariant(self);
        }
        let now: Instant = Instant::now_coarse(clock);
        self.saturating_elapsed_at(now)
    }

    /// Whether it takes too long by now.
    pub fn is_slow(&self, clock: &mut LogicalClock) -> (r: bool)
        ensures
            r == (coarse_span(timespec_of(old(clock)@.nanos as int), self@.start)
                >= self@.slow_time),
            final(clock)@ == old(clock)@.read(),
    {
        self.saturating_elapsed(clock).at_least(&self.slow_time)
    }
}

/// A coarse clock for rate limiting.
#[derive(Copy, Clone, Default, Debug)]
pub struct CoarseClock;

impl CoarseClock {
    pub fn now(&self, clock: &mut LogicalClock) -> (r: Instant)
        ensures
            r == Instant::MonotonicCoarse(timespec_of(old(clock)@.nanos as int)),
            final(clock)@ == old(clock)@.read(),
    {
        Instant::now_coarse(clock)
    }
}

/// Tells whether read requests come from the same stream.
#[derive(PartialEq, Eq, Debug, Structural)]
pub struct ThreadReadId {
    sequence: u64,
    pub create_time: Timespec,
}

impl Clone for ThreadReadId {
    fn clone(&self) -> (r: ThreadReadId)
        ensures
            r == *self,
    {
        ThreadReadId { sequence: self.sequence, create_time: self.create_time }
    }
}

impl ThreadReadId {
    /// The number of this id among those of its thread.
    pub closed spec fn sequence(self) -> u64 {
        self.sequence
    }

    /// When this id was made.
    pub closed spec fn created(self) -> Timespec {
        self.create_time
    }

    /// The next id of a thread, whose last number was `last`.
    pub fn new(last: &mut u64, clock: &mut LogicalClock) -> (r: ThreadReadId)
        requires
            *old(last) < u64::MAX,
        ensures
            r.sequence() == *old(last) + 1,
            *final(last) == *old(last) + 1,
            r.created() == timespec_of(old(clock)@.nanos as int),
            final(clock)@ == old(clock)@.read(),
    {
        let now: Timespec = monotonic_raw_now(clock);
        ThreadReadId::at(last, now)
    }

    /// The next id of a thread, whose last number was `last`, made at `now`, a
    /// reading of any clock.
    pub fn at(last: &mut u64, now: Timespec) -> (r: ThreadReadId)
        requires
            *old(last) < u64::MAX,
        ensures
            r.sequence() == *old(last) + 1,
            *final(last) == *old(last) + 1,
            r.created() == now,
    {
        let sequence: u64 = *last + 1;
        *last = sequence;
        ThreadReadId { sequence, create_time: now }
    }
}

/// The milliseconds of a point in time in normal form are the whole ones in it.
pub proof fn lemma_whole_milliseconds(t: Timespec)
    requires
        t.is_normal(),
    ensures
        whole_ms(t) * 1_000_000 <= t.sec * 1_000_000_000 + t.nsec < (whole_ms(t) + 1) * 1_000_000,
        can_begin(t) == (-0x4000_0000_0000_0000 <= whole_ms(t) <= 0x3fff_ffff_ffff_ffff),
{
}

/// The span between two measurements, in numbers. Between fine ones it is the
/// difference of the points in time, between coarse ones that of their whole
/// milliseconds; it is zero where the difference is negative.
pub proof fn lemma_spans_in_numbers(later: Timespec, earlier: Timespec)
    requires
        later.is_normal(),
        earlier.is_normal(),
    ensures
        ({
            let a = later.sec * 1_000_000_000 + later.nsec;
            let b = earlier.sec * 1_000_000_000 + earlier.nsec;
            let fine = Instant::Monotonic(later).span_since(Instant::Monotonic(earlier));
            let coarse = Instant::MonotonicCoarse(later).span_since(
                Instant::MonotonicCoarse(earlier),
            );
            let ms = a / 1_000_000 - b / 1_000_000;
            &&& fine == fine_span(later, earlier)
            &&& coarse == coarse_span(later, earlier)
            &&& a >= b ==> fine == a - b
            &&& a < b ==> fine == 0
            &&& ms >= 0 ==> coarse == ms * 1_000_000
            &&& ms < 0 ==> coarse == 0
        }),
{
}

/// Where a span can be taken: for fine measurements where the difference of the
/// seconds fits in 64 bits, for coarse ones where the milliseconds and their
/// difference do.
pub proof fn lemma_spans_that_fit(later: Timespec, earlier: Timespec)
    requires
        later.is_normal(),
        earlier.is_normal(),
    ensures
        ({
            let a = Instant::Monotonic(later);
            let b = Instant::Monotonic(earlier);
            let c = Instant::MonotonicCoarse(later);
            let d = Instant::MonotonicCoarse(earlier);
            let last = 0x7fff_ffff_ffff_ffffint;
            let first = -0x8000_0000_0000_0000int;
            let x = (later.sec * 1_000_000_000 + later.nsec) / 1_000_000;
            let y = (earlier.sec * 1_000_000_000 + earlier.nsec) / 1_000_000;
            &&& a.span_fits(b) == (later.sec - earlier.sec <= last)
            &&& c.span_fits(d) == {
                &&& first <= later.sec * 1_000 && x <= last
                &&& first <= earlier.sec * 1_000 && y <= last
                &&& first <= x - y <= last
            }
        }),
{
}

/// Measurements of one kind are ordered by seconds, then nanoseconds; those of
/// different kinds have no order and neither is before the other.
pub proof fn lemma_order_of_measurements(a: Timespec, b: Timespec)
    ensures
        ({
            let less = a.sec < b.sec || (a.sec == b.sec && a.nsec < b.nsec);
            let more = a.sec > b.sec || (a.sec == b.sec && a.nsec > b.nsec);
            let order = if less {
                Some(Ordering::Less)
            } else if more {
                Some(Ordering::Greater)
            } else {
                Some(Ordering::Equal)
            };
            &&& Instant::Monotonic(a).partial_cmp_spec(&Instant::Monotonic(b)) == order
            &&& Instant::MonotonicCoarse(a).partial_cmp_spec(&Instant::MonotonicCoarse(b)) == order
            &&& Instant::Monotonic(a).partial_cmp_spec(&Instant::MonotonicCoarse(b)) is None
            &&& Instant::MonotonicCoarse(a).partial_cmp_spec(&Instant::Monotonic(b)) is None
            &&& Instant::Monotonic(a).not_before(Instant::Monotonic(b)) == !less
            &&& Instant::MonotonicCoarse(a).not_before(Instant::MonotonicCoarse(b)) == !less
            &&& !Instant::Monotonic(a).not_before(Instant::MonotonicCoarse(b))
            &&& !Instant::MonotonicCoarse(a).not_before(Instant::Monotonic(b))
        }),
{
}

/// Moving a measurement by a span keeps its kind and changes its point in time
/// by just that span, forward and backward, where the result can be held.
pub proof fn lemma_moved_measurement(t: Timespec, delta: Duration)
    requires
        t.is_normal(),
        in_time_range(delta@ as int),
        i64::MIN * 1_000_000_000 <= t.nanos() - delta@,
        t.nanos() + delta@ < (i64::MAX + 1) * 1_000_000_000,
    ensures
        ({
            let start = t.sec * 1_000_000_000 + t.nsec;
            let forward = AddSpec::add_spec(Instant::Monotonic(t), delta);
            let backward = SubSpec::sub_spec(Instant::Monotonic(t), delta);
            let coarse = Instant::MonotonicCoarse(t);
            &&& forward is Monotonic && backward is Monotonic
            &&& forward.time().sec * 1_000_000_000 + forward.time().nsec == start + delta@
            &&& backward.time().sec * 1_000_000_000 + backward.time().nsec == start - delta@
            &&& forward.time().is_normal() && backward.time().is_normal()
            &&& AddSpec::add_spec(coarse, delta) == Instant::MonotonicCoarse(forward.time())
            &&& SubSpec::sub_spec(coarse, delta)
                == Instant::MonotonicCoarse(backward.time())
        }),
{
}

/// What a clock shows is the measurement of the same kind with its nanoseconds.
pub proof fn lemma_measurement_of_clock(i: Instant, clock: ClockView)
    ensures
        i.at_clock(clock) is Monotonic == i is Monotonic,
        i.at_clock(clock).time().sec * 1_000_000_000 + i.at_clock(clock).time().nsec == clock.nanos,
        0 <= i.at_clock(clock).time().nsec < 1_000_000_000,
{
}

} // verus!
