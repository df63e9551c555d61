//! Points in time as seconds and nanoseconds, and conversions of spans.

use crate::duration::{
    in_time_range, lemma_time_duration_of, time_duration_of, Duration, TimeDuration,
    MICROSECONDS_PER_SECOND, MILLISECONDS_PER_SECOND, NANOSECONDS_PER_MICROSECOND,
    NANOSECONDS_PER_MILLISECOND, NANOSECONDS_PER_SECOND,
};
use std::cmp::Ordering;
use std::ops::{Add, Sub};
use vstd::prelude::*;
use vstd::std_specs::cmp::PartialOrdSpec;
use vstd::std_specs::ops::{AddSpec, AddSpecImpl, SubSpec, SubSpecImpl};

verus! {

/// A point in time.
#[derive(Clone, Copy, Debug, Eq, PartialEq, Ord, Hash, Structural)]
pub struct Timespec {
    pub sec: i64,
    pub nsec: i32,
}

/// The point in time `nanos` nanoseconds after the start: whole seconds, cut
/// to 64 bits, and nanoseconds below one second.
pub open spec fn timespec_of(nanos: int) -> Timespec {
    Timespec { sec: (nanos / 1_000_000_000) as i64, nsec: (nanos % 1_000_000_000) as i32 }
}

impl Timespec {
    /// The nanoseconds since the start.
    pub open spec fn nanos(self) -> int {
        self.sec * 1_000_000_000 + self.nsec
    }

    /// Whether the nanoseconds are below one second.
    pub open spec fn is_normal(self) -> bool {
        0 <= self.nsec < 1_000_000_000
    }

    /// The point in time with this many seconds and nanoseconds, brought into
    /// normal form.
    pub fn new(sec: i64, nsec: i32) -> (r: Timespec)
        ensures
            r == timespec_of(sec * 1_000_000_000 + nsec),
            r.is_normal(),
    {
        Timespec::from_total_nanos((sec as i128) * NANOSECONDS_PER_SECOND as i128 + nsec as i128)
    }

    pub(crate) fn from_total_nanos(total_nanos: i128) -> (r: Timespec)
        ensures
            r == timespec_of(total_nanos as int),
            r.is_normal(),
    {
        let unit: i128 = NANOSECONDS_PER_SECOND as i128;
        let sec: i128 = total_nanos.checked_div_euclid(unit).unwrap();
        let nsec: i128 = total_nanos.checked_rem_euclid(unit).unwrap();
        Timespec { sec: sec as i64, nsec: nsec as i32 }
    }

    fn total_nanos(self) -> (r: i128)
        ensures
            r == self.nanos(),
    {
        (self.sec as i128) * NANOSECONDS_PER_SECOND as i128 + self.nsec as i128
    }

    /// Whether this point in time is not before the other: seconds decide,
    /// then nanoseconds.
    pub open spec fn not_before(self, other: Timespec) -> bool {
        self.sec > other.sec || (self.sec == other.sec && self.nsec >= other.nsec)
    }
}

impl Default for Timespec {
    fn default() -> (r: Timespec)
        ensures
            r == (Timespec { sec: 0, nsec: 0 }),
    {
        Timespec { sec: 0, nsec: 0 }
    }
}

/// Seconds decide, then nanoseconds.
impl PartialOrd for Timespec {
    fn partial_cmp(&self, other: &Timespec) -> (r: Option<Ordering>) {
        if self.sec < other.sec || (self.sec == other.sec && self.nsec < other.nsec) {
            Some(Ordering::Less)
        } else if self.sec == other.sec && self.nsec == other.nsec {
            Some(Ordering::Equal)
        } else {
            Some(Ordering::Greater)
        }
    }
}

impl vstd::std_specs::cmp::PartialOrdSpecImpl for Timespec {
    open spec fn obeys_partial_cmp_spec() -> bool {
        true
    }

    open spec fn partial_cmp_spec(&self, other: &Timespec) -> Option<Ordering> {
        if self.sec < other.sec || (self.sec == other.sec && self.nsec < other.nsec) {
            Some(Ordering::Less)
        } else if self.sec == other.sec && self.nsec == other.nsec {
            Some(Ordering::Equal)
        } else {
            Some(Ordering::Greater)
        }
    }
}

/// In normal form the order of points in time is that of their nanoseconds.
pub proof fn lemma_order_of_nanos(a: Timespec, b: Timespec)
    requires
        a.is_normal(),
        b.is_normal(),
    ensures
        a.not_before(b) == (a.nanos() >= b.nanos()),
        a.nanos() == b.nanos() ==> a == b,
{
}

/// Splitting nanoseconds into seconds and the rest loses nothing, as long as
/// the seconds can be held.
pub proof fn lemma_timespec_of(nanos: int)
    requires
        i64::MIN * 1_000_000_000 <= nanos < (i64::MAX + 1) * 1_000_000_000,
    ensures
        timespec_of(nanos).nanos() == nanos,
        timespec_of(nanos).is_normal(),
{
}

/// A point in time in normal form is made again from its nanoseconds.
pub proof fn lemma_timespec_nanos(t: Timespec)
    requires
        t.is_normal(),
    ensures
        timespec_of(t.nanos()) == t,
{
}

impl Add<TimeDuration> for Timespec {
    type Output = Timespec;

    fn add(self, rhs: TimeDuration) -> (r: Timespec) {
        let delta: i128 = rhs.whole_nanoseconds();
        Timespec::from_total_nanos(self.total_nanos() + delta)
    }
}

impl AddSpecImpl<TimeDuration> for Timespec {
    open spec fn obeys_add_spec() -> bool {
        true
    }

    open spec fn add_req(self, rhs: TimeDuration) -> bool {
        true
    }

    open spec fn add_spec(self, rhs: TimeDuration) -> Timespec {
        timespec_of(self.nanos() + rhs@)
    }
}

impl Sub<TimeDuration> for Timespec {
    type Output = Timespec;

    fn sub(self, rhs: TimeDuration) -> (r: Timespec) {
        let delta: i128 = rhs.whole_nanoseconds();
        Timespec::from_total_nanos(self.total_nanos() - delta)
    }
}

impl SubSpecImpl<TimeDuration> for Timespec {
    open spec fn obeys_sub_spec() -> bool {
        true
    }

    open spec fn sub_req(self, rhs: TimeDuration) -> bool {
        true
    }

    open spec fn sub_spec(self, rhs: TimeDuration) -> Timespec {
        timespec_of(self.nanos() - rhs@)
    }
}

impl Sub<Timespec> for Timespec {
    type Output = TimeDuration;

    fn sub(self, rhs: Timespec) -> (r: TimeDuration) {
        let sec: i64 = self.sec.checked_sub(rhs.sec).unwrap();
        let nsec: i64 = self.nsec as i64 - rhs.nsec as i64;
        TimeDuration::seconds(sec).checked_add(TimeDuration::nanoseconds(nsec)).unwrap()
    }
}

impl SubSpecImpl<Timespec> for Timespec {
    open spec fn obeys_sub_spec() -> bool {
        true
    }

    open spec fn sub_req(self, rhs: Timespec) -> bool {
        i64::MIN <= self.sec - rhs.sec <= i64::MAX && in_time_range(self.nanos() - rhs.nanos())
    }

    open spec fn sub_spec(self, rhs: Timespec) -> TimeDuration {
        time_duration_of(self.nanos() - rhs.nanos())
    }
}

/// Adding a span and taking it away again gives the same point in time, where
/// nothing overflows in between.
pub proof fn lemma_add_then_sub(t: Timespec, delta: int)
    requires
        t.is_normal(),
        i64::MIN * 1_000_000_000 <= t.nanos() + delta < (i64::MAX + 1) * 1_000_000_000,
    ensures
        timespec_of(timespec_of(t.nanos() + delta).nanos() - delta) == t,
{
    lemma_timespec_of(t.nanos() + delta);
    lemma_timespec_nanos(t);
}

/// The whole milliseconds of a span.
pub fn duration_to_ms(d: Duration) -> (r: u64)
    requires
        d@ / 1_000_000 <= u64::MAX,
    ensures
        r == d@ / 1_000_000,
{
    let nanos: u64 = d.subsec_nanos() as u64;
    d.as_secs() * MILLISECONDS_PER_SECOND + (nanos / NANOSECONDS_PER_MILLISECOND)
}

/// The whole microseconds of a span.
pub fn duration_to_us(d: Duration) -> (r: u64)
    requires
        d@ / 1_000 <= u64::MAX,
    ensures
        r == d@ / 1_000,
{
    let nanos: u64 = d.subsec_nanos() as u64;
    d.as_secs() * MICROSECONDS_PER_SECOND + (nanos / NANOSECONDS_PER_MICROSECOND)
}

/// The nanoseconds of a span.
pub fn duration_to_ns(d: Duration) -> (r: u64)
    requires
        d@ <= u64::MAX,
    ensures
        r == d@,
{
    let nanos: u64 = d.subsec_nanos() as u64;
    d.as_secs() * NANOSECONDS_PER_SECOND + nanos
}

/// The nanoseconds of a point in time that is not before the start.
pub fn timespec_to_ns(t: Timespec) -> (r: u64)
    requires
        (t.sec as u64) * 1_000_000_000 + (t.nsec as u64) <= u64::MAX,
    ensures
        r == (t.sec as u64) * 1_000_000_000 + (t.nsec as u64),
        t.sec >= 0 && t.nsec >= 0 ==> r == t.nanos(),
{
    (t.sec as u64) * NANOSECONDS_PER_SECOND + t.nsec as u64
}

/// The time of day, given the span since the Unix epoch.
pub fn get_time(since_epoch: Duration) -> (r: Timespec)
    ensures
        r == timespec_of(
            ((since_epoch@ / 1_000_000_000) as u64 as i64) * 1_000_000_000 + since_epoch@
                % 1_000_000_000,
        ),
        since_epoch@ < (i64::MAX + 1) * 1_000_000_000 ==> r.nanos() == since_epoch@,
{
    Timespec::new(since_epoch.as_secs() as i64, since_epoch.subsec_nanos() as i32)
}

/// A time in seconds since the start of the Unix epoch.
#[derive(Clone, Copy, Debug, Default, Eq, PartialEq, Ord, PartialOrd, Hash, Structural)]
pub struct UnixSecs(u64);

impl View for UnixSecs {
    type V = nat;

    closed spec fn view(&self) -> nat {
        self.0 as nat
    }
}

impl UnixSecs {
    /// The current time, given the span since the Unix epoch.
    pub fn now(since_epoch: Duration) -> (r: UnixSecs)
        ensures
            r@ == since_epoch@ / 1_000_000_000,
    {
        UnixSecs(since_epoch.as_secs())
    }

    pub fn zero() -> (r: UnixSecs)
        ensures
            r@ == 0,
    {
        UnixSecs(0)
    }

    pub fn into_inner(self) -> (r: u64)
        ensures
            r == self@,
    {
        self.0
    }

    pub fn is_zero(self) -> (r: bool)
        ensures
            r == (self@ == 0),
    {
        self.0 == 0
    }
}

/// A point in time in seconds and nanoseconds: the nanoseconds are what is left
/// above the whole seconds, and together they are the nanoseconds that it was
/// made of.
pub proof fn lemma_seconds_and_nanoseconds(nanos: int)
    requires
        i64::MIN * 1_000_000_000 <= nanos < (i64::MAX + 1) * 1_000_000_000,
    ensures
        timespec_of(nanos).sec * 1_000_000_000 + timespec_of(nanos).nsec == nanos,
        0 <= timespec_of(nanos).nsec < 1_000_000_000,
        timespec_of(nanos).is_normal(),
{
}

/// Of two points in time the one with more seconds is later; among those with
/// the same seconds the one with more nanoseconds. One that is neither before
/// nor behind another is the same.
pub proof fn lemma_order_of_points(a: Timespec, b: Timespec)
    ensures
        a.sec > b.sec ==> a.not_before(b) && !b.not_before(a),
        a.sec == b.sec ==> a.not_before(b) == (a.nsec >= b.nsec),
        a.not_before(b) && b.not_before(a) ==> a == b,
        a.not_before(b) == (a.partial_cmp_spec(&b) != Some(Ordering::Less)),
        a.sec > b.sec ==> a.partial_cmp_spec(&b) == Some(Ordering::Greater),
        a.sec < b.sec ==> a.partial_cmp_spec(&b) == Some(Ordering::Less),
        a.sec == b.sec && a.nsec > b.nsec ==> a.partial_cmp_spec(&b) == Some(Ordering::Greater),
        a.sec == b.sec && a.nsec < b.nsec ==> a.partial_cmp_spec(&b) == Some(Ordering::Less),
        a.partial_cmp_spec(&b) == Some(Ordering::Equal) <==> a == b,
{
}

/// Moving a point in time by a span changes its seconds and nanoseconds by just
/// that much, forward and backward, where the result can be held. The span
/// between the two is the one that it was moved by.
pub proof fn lemma_moved_by_a_span(t: Timespec, delta: TimeDuration)
    requires
        t.is_normal(),
        i64::MIN * 1_000_000_000 <= t.nanos() + delta@ < (i64::MAX + 1) * 1_000_000_000,
        i64::MIN * 1_000_000_000 <= t.nanos() - delta@ < (i64::MAX + 1) * 1_000_000_000,
    ensures
        ({
            let later = AddSpec::add_spec(t, delta);
            let earlier = SubSpec::sub_spec(t, delta);
            let start = t.sec * 1_000_000_000 + t.nsec;
            &&& later.sec * 1_000_000_000 + later.nsec == start + delta@
            &&& earlier.sec * 1_000_000_000 + earlier.nsec == start - delta@
            &&& later.is_normal() && earlier.is_normal()
            &&& AddSpec::add_req(t, delta)
            &&& SubSpec::sub_req(t, delta)
        }),
{
}

/// The span between two points in time is the difference of their seconds and
/// nanoseconds, negative where the second is later.
pub proof fn lemma_difference_of_points(a: Timespec, b: Timespec)
    requires
        i64::MIN <= a.sec - b.sec < i64::MAX,
        i64::MIN * 1_000_000_000 <= a.nanos() - b.nanos() <= i64::MAX * 1_000_000_000,
    ensures
        SubSpec::sub_req(a, b),
        SubSpec::sub_spec(a, b)@ == (a.sec - b.sec) * 1_000_000_000
            + (a.nsec - b.nsec),
{
    lemma_time_duration_of(a.nanos() - b.nanos());
}

} // verus!
