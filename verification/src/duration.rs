//! Spans of time with nanosecond resolution.

use std::cmp::Ordering;
use vstd::prelude::*;
use vstd::std_specs::cmp::PartialOrdSpec;

verus! {

pub const NANOSECONDS_PER_SECOND: u64 = 1_000_000_000;

pub const MILLISECONDS_PER_SECOND: u64 = 1_000;

pub const MICROSECONDS_PER_SECOND: u64 = 1_000_000;

pub const NANOSECONDS_PER_MILLISECOND: u64 = 1_000_000;

pub const NANOSECONDS_PER_MICROSECOND: u64 = 1_000;

/// A span of time that is not negative: seconds, and nanoseconds below one
/// second.
#[derive(Clone, Copy, Debug, PartialEq, Eq, Ord, Hash, Structural)]
pub struct Duration {
    secs: u64,
    nanos: u32,
}

/// Its length in nanoseconds.
impl View for Duration {
    type V = nat;

    closed spec fn view(&self) -> nat {
        (self.secs * 1_000_000_000 + self.nanos) as nat
    }
}

impl Duration {
    #[verifier::type_invariant]
    spec fn type_inv(self) -> bool {
        self.nanos < 1_000_000_000
    }

    /// The span of `secs` seconds and `nanos` nanoseconds, of which whole
    /// seconds are carried over.
    pub fn new(secs: u64, nanos: u32) -> (r: Duration)
        requires
            secs + nanos / 1_000_000_000 <= u64::MAX,
        ensures
            r@ == secs * 1_000_000_000 + nanos,
            r == duration_of(r@),
    {
        Duration { secs: secs + (nanos / 1_000_000_000) as u64, nanos: nanos % 1_000_000_000 }
    }

    pub fn from_secs(secs: u64) -> (r: Duration)
        ensures
            r@ == secs * 1_000_000_000,
            r == duration_of(r@),
    {
        Duration { secs, nanos: 0 }
    }

    pub fn from_millis(millis: u64) -> (r: Duration)
        ensures
            r@ == millis * 1_000_000,
            r == duration_of(r@),
    {
        Duration { secs: millis / 1_000, nanos: ((millis % 1_000) * 1_000_000) as u32 }
    }

    pub fn from_micros(micros: u64) -> (r: Duration)
        ensures
            r@ == micros * 1_000,
            r == duration_of(r@),
    {
        Duration { secs: micros / 1_000_000, nanos: ((micros % 1_000_000) * 1_000) as u32 }
    }

    /// The whole seconds.
    pub fn as_secs(&self) -> (r: u64)
        ensures
            r == self@ / 1_000_000_000,
    {
        proof {
            use_type_invariant(self);
        }
        self.secs
    }

    /// The nanoseconds above the whole seconds.
    pub fn subsec_nanos(&self) -> (r: u32)
        ensures
            r == self@ % 1_000_000_000,
            r < 1_000_000_000,
    {
        proof {
            use_type_invariant(self);
        }
        self.nanos
    }

    /// The whole milliseconds.
    pub fn as_millis(&self) -> (r: u128)
        ensures
            r == self@ / 1_000_000,
    {
        proof {
            use_type_invariant(self);
        }
        self.secs as u128 * 1_000 + (self.nanos / 1_000_000) as u128
    }

    pub fn as_nanos(&self) -> (r: u128)
        ensures
            r == self@,
    {
        self.secs as u128 * 1_000_000_000 + self.nanos as u128
    }

    /// Whether this span is at least as long as the other.
    pub fn at_least(&self, other: &Duration) -> (r: bool)
        ensures
            r == (self@ >= other@),
    {
        self.as_nanos() >= other.as_nanos()
    }
}

/// Longer spans are greater.
impl PartialOrd for Duration {
    fn partial_cmp(&self, other: &Duration) -> (r: Option<Ordering>) {
        let a: u128 = self.as_nanos();
        let b: u128 = other.as_nanos();
        if a < b {
            Some(Ordering::Less)
        } else if a == b {
            Some(Ordering::Equal)
        } else {
            Some(Ordering::Greater)
        }
    }
}

impl vstd::std_specs::cmp::PartialOrdSpecImpl for Duration {
    open spec fn obeys_partial_cmp_spec() -> bool {
        true
    }

    open spec fn partial_cmp_spec(&self, other: &Duration) -> Option<Ordering> {
        if self@ < other@ {
            Some(Ordering::Less)
        } else if self@ == other@ {
            Some(Ordering::Equal)
        } else {
            Some(Ordering::Greater)
        }
    }
}

/// The longest span in nanoseconds.
pub open spec fn max_duration() -> nat {
    (u64::MAX * 1_000_000_000 + 999_999_999) as nat
}

/// The span of `n` nanoseconds.
pub closed spec fn duration_of(n: nat) -> Duration {
    Duration { secs: (n / 1_000_000_000) as u64, nanos: (n % 1_000_000_000) as u32 }
}

/// A span is as long as it was made.
pub broadcast proof fn lemma_duration_of(n: nat)
    requires
        n <= max_duration(),
    ensures
        #[trigger] duration_of(n)@ == n,
{
}

/// A span of time that may be negative: seconds, and nanoseconds below one
/// second with the sign of the seconds.
#[derive(Clone, Copy, Debug, PartialEq, Eq, Structural)]
pub struct TimeDuration {
    secs: i64,
    nanos: i32,
}

/// Its length in nanoseconds, negative for a span backward.
impl View for TimeDuration {
    type V = int;

    closed spec fn view(&self) -> int {
        self.secs * 1_000_000_000 + self.nanos
    }
}

/// Whether a signed span of `n` nanoseconds can be held.
pub open spec fn in_time_range(n: int) -> bool {
    i64::MIN * 1_000_000_000 - 999_999_999 <= n <= i64::MAX * 1_000_000_000 + 999_999_999
}

/// The signed span of `n` nanoseconds.
pub closed spec fn time_duration_of(n: int) -> TimeDuration {
    if n >= 0 {
        TimeDuration { secs: (n / 1_000_000_000) as i64, nanos: (n % 1_000_000_000) as i32 }
    } else {
        TimeDuration {
            secs: -((-n) / 1_000_000_000) as i64,
            nanos: -((-n) % 1_000_000_000) as i32,
        }
    }
}

/// A signed span is as long as it was made.
pub broadcast proof fn lemma_time_duration_of(n: int)
    requires
        in_time_range(n),
    ensures
        #[trigger] time_duration_of(n)@ == n,
{
}

/// Whether seconds and nanoseconds together are a signed span: less than one
/// second of nanoseconds, with the sign of the seconds.
pub open spec fn is_time_pair(secs: i64, nanos: i32) -> bool {
    &&& -1_000_000_000 < nanos < 1_000_000_000
    &&& secs > 0 ==> nanos >= 0
    &&& secs < 0 ==> nanos <= 0
}

/// `time::Duration::nanoseconds` splits nanoseconds into whole seconds and the
/// rest, both with the sign of the whole.
#[verifier::external_body]
fn time_nanoseconds(nanoseconds: i64) -> (r: (i64, i32))
    ensures
        is_time_pair(r.0, r.1),
        r.0 * 1_000_000_000 + r.1 == nanoseconds,
{
    let d = time::Duration::nanoseconds(nanoseconds);
    (d.whole_seconds(), d.subsec_nanoseconds())
}

/// `time::Duration::checked_add` adds two signed spans, each given as seconds
/// and nanoseconds. It gives `None` just where the sum cannot be held.
#[verifier::external_body]
fn time_checked_add(a: (i64, i32), b: (i64, i32)) -> (r: Option<(i64, i32)>)
    requires
        is_time_pair(a.0, a.1),
        is_time_pair(b.0, b.1),
    ensures
        match r {
            Some(d) => is_time_pair(d.0, d.1) && d.0 * 1_000_000_000 + d.1 == (a.0 * 1_000_000_000
                + a.1) + (b.0 * 1_000_000_000 + b.1),
            None => !in_time_range(
                (a.0 * 1_000_000_000 + a.1) + (b.0 * 1_000_000_000 + b.1),
            ),
        },
{
    let sum = time::Duration::new(a.0, a.1).checked_add(time::Duration::new(b.0, b.1));
    sum.map(|d| (d.whole_seconds(), d.subsec_nanoseconds()))
}

impl TimeDuration {
    #[verifier::type_invariant]
    spec fn type_inv(self) -> bool {
        is_time_pair(self.secs, self.nanos)
    }

    /// The span of so many seconds.
    pub fn seconds(seconds: i64) -> (r: TimeDuration)
        ensures
            r@ == seconds * 1_000_000_000,
            r == time_duration_of(r@),
    {
        TimeDuration { secs: seconds, nanos: 0 }
    }

    /// The span of so many nanoseconds.
    pub fn nanoseconds(nanoseconds: i64) -> (r: TimeDuration)
        ensures
            r@ == nanoseconds,
            r == time_duration_of(r@),
    {
        let (secs, nanos): (i64, i32) = time_nanoseconds(nanoseconds);
        TimeDuration { secs, nanos }
    }

    /// The sum of two spans, or `None` where it cannot be held.
    pub fn checked_add(self, rhs: TimeDuration) -> (r: Option<TimeDuration>)
        ensures
            r == if in_time_range(self@ + rhs@) {
                Some(time_duration_of(self@ + rhs@))
            } else {
                None
            },
    {
        proof {
            use_type_invariant(&self);
            use_type_invariant(&rhs);
        }
        match time_checked_add((self.secs, self.nanos), (rhs.secs, rhs.nanos)) {
            Some((secs, nanos)) => Some(TimeDuration { secs, nanos }),
            None => None,
        }
    }

    pub fn whole_nanoseconds(self) -> (r: i128)
        ensures
            r == self@,
            in_time_range(r as int),
    {
        proof {
            use_type_invariant(&self);
        }
        self.secs as i128 * 1_000_000_000 + self.nanos as i128
    }
}

/// The same span without a sign.
pub fn to_std_duration(duration: TimeDuration) -> (r: Duration)
    requires
        duration@ >= 0,
    ensures
        r@ == duration@,
        r == duration_of(duration@ as nat),
{
    proof {
        use_type_invariant(&duration);
    }
    Duration { secs: duration.secs as u64, nanos: duration.nanos as u32 }
}

/// The same span with a sign.
pub fn to_time_duration(duration: Duration) -> (r: TimeDuration)
    requires
        in_time_range(duration@ as int),
    ensures
        r@ == duration@,
        r == time_duration_of(duration@ as int),
{
    proof {
        use_type_invariant(&duration);
    }
    TimeDuration { secs: duration.secs as i64, nanos: duration.nanos as i32 }
}

/// Spans are ordered by their length.
pub proof fn lemma_order_of_spans(a: Duration, b: Duration)
    ensures
        a.partial_cmp_spec(&b) == Some(Ordering::Less) <==> a@ < b@,
        a.partial_cmp_spec(&b) == Some(Ordering::Equal) <==> a@ == b@,
        a.partial_cmp_spec(&b) == Some(Ordering::Greater) <==> a@ > b@,
{
}

/// The spans that can be held: without a sign up to 64 bits of seconds, with
/// one up to 63, and less than one second above that.
pub proof fn lemma_ranges_of_spans(n: int)
    ensures
        max_duration() == 18_446_744_073_709_551_615_999_999_999,
        in_time_range(n) == (-9_223_372_036_854_775_808_999_999_999 <= n
            <= 9_223_372_036_854_775_807_999_999_999),
        0 <= n <= max_duration() ==> duration_of(n as nat)@ == n,
        in_time_range(n) ==> time_duration_of(n)@ == n,
        NANOSECONDS_PER_SECOND == 1_000_000_000,
        MILLISECONDS_PER_SECOND == 1_000,
        MICROSECONDS_PER_SECOND == 1_000_000,
        NANOSECONDS_PER_MILLISECOND == 1_000_000,
        NANOSECONDS_PER_MICROSECOND == 1_000,
{
}

} // verus!
