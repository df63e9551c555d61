//! The logical clock. Reading it never advances it: time moves only when it is
//! told to, or with a driver that adds a step per tick of the wall clock.

use crate::det_clock_bridge::{
    init_done, lemma_write_tells_time, sync, ClockBridge, ClockWrite,
};
use crate::duration::Duration;
use crate::timespec::{lemma_order_of_nanos, lemma_timespec_of, timespec_of, Timespec};
use vstd::prelude::*;

verus! {

/// How far a reset leaps forward, so that no time that was read before is in
/// the future: one hour.
pub const RESET_EPOCH_NANOS: i64 = 3_600_000_000_000;

/// The step of a new clock: one millisecond.
pub const DEFAULT_STEP_NANOS: i64 = 1_000_000;

/// A driver that is to be started: it ticks the clock once per interval.
#[derive(Clone, Copy, Debug)]
pub struct DriverStart {
    pub wall_interval: Duration,
    /// What each tick adds.
    pub step_nanos: i64,
}

/// What a logical clock holds.
#[verifier::ext_equal]
pub struct ClockView {
    pub nanos: i64,
    pub step_nanos: i64,
    /// The step of the driver, once there is one.
    pub driver: Option<i64>,
    pub manual_only: bool,
    /// The interval of a driver that was asked for and is not started yet.
    pub to_start: Option<nat>,
    /// The shared file that the time is kept in.
    pub bridge: Option<Seq<char>>,
}

/// The sum, but no more than the last time the clock can show.
pub open spec fn capped_sum(nanos: i64, added: i64) -> i64 {
    if nanos + added > i64::MAX {
        i64::MAX
    } else {
        (nanos + added) as i64
    }
}

/// The nanoseconds in `n` times `unit`, but no more than the clock can show.
pub open spec fn capped_product(unit: i64, n: u64) -> i64 {
    if unit * n > i64::MAX {
        i64::MAX
    } else {
        (unit * n) as i64
    }
}

fn later(nanos: i64, added: i64) -> (r: i64)
    requires
        added > 0,
    ensures
        r == capped_sum(nanos, added),
{
    if nanos > i64::MAX - added {
        i64::MAX
    } else {
        nanos + added
    }
}

/// The nanoseconds in `n` times `unit`, but no more than the clock can show.
pub fn capped_nanos(unit: i64, n: u64) -> (r: i64)
    requires
        unit > 0,
    ensures
        r == capped_product(unit, n),
        r >= 0,
        n > 0 ==> r > 0,
{
    proof {
        lemma_product_of_positives(unit, n);
    }
    match (unit as u64).checked_mul(n) {
        Some(total) => if total > i64::MAX as u64 {
            i64::MAX
        } else {
            total as i64
        },
        None => i64::MAX,
    }
}

proof fn lemma_product_of_positives(unit: i64, n: u64)
    requires
        unit > 0,
    ensures
        unit * n >= n,
{
    assert(unit * n >= n) by (nonlinear_arith)
        requires
            unit > 0,
            n >= 0,
    ;
}

impl ClockView {
    /// The clock at another time.
    pub open spec fn at(self, nanos: i64) -> ClockView {
        ClockView { nanos, ..self }
    }

    /// Whether `w` is the write that brings the shared file up to date.
    pub open spec fn synced_by(self, w: Option<ClockWrite>) -> bool {
        match w {
            Some(w) => self.bridge is Some && w.writes(self.bridge->0, self.nanos),
            None => self.bridge is None,
        }
    }

    /// The clock after `dst_advance`.
    pub open spec fn advanced(self, nanos: i64) -> ClockView {
        if nanos > 0 {
            self.at(capped_sum(self.nanos, nanos))
        } else {
            self
        }
    }

    /// Whether `dst_step` moves the clock.
    pub open spec fn steps(self, n: u64) -> bool {
        self.step_nanos > 0 && n > 0
    }

    /// The clock after `dst_step`.
    pub open spec fn stepped(self, n: u64) -> ClockView {
        if self.steps(n) {
            self.at(capped_sum(self.nanos, capped_product(self.step_nanos, n)))
        } else {
            self
        }
    }

    /// The clock after `dst_reset`.
    pub open spec fn reset(self) -> ClockView {
        self.at(capped_sum(self.nanos, RESET_EPOCH_NANOS))
    }

    /// The clock after a driver with this interval was asked for.
    pub open spec fn with_driver(self, wall_interval: nat) -> ClockView {
        if self.manual_only || self.driver is Some {
            self
        } else {
            ClockView { driver: Some(self.step_nanos), to_start: Some(wall_interval), ..self }
        }
    }

    /// The clock after it was read: the first reader asks for a driver that
    /// ticks every millisecond.
    pub open spec fn read(self) -> ClockView {
        self.with_driver(1_000_000)
    }

    /// The clock after a tick of its driver, which pauses in manual mode and
    /// only ever advances.
    pub open spec fn ticked(self) -> ClockView {
        match self.driver {
            Some(step) => if self.manual_only {
                self
            } else {
                self.advanced(step)
            },
            None => self,
        }
    }
}

/// A clock that shows nanoseconds of logical time.
#[derive(Debug)]
pub struct LogicalClock {
    logical_nanos: i64,
    step_nanos: i64,
    driver: Option<i64>,
    manual_only: bool,
    to_start: Option<Duration>,
    bridge: ClockBridge,
}

impl View for LogicalClock {
    type V = ClockView;

    closed spec fn view(&self) -> ClockView {
        ClockView {
            nanos: self.logical_nanos,
            step_nanos: self.step_nanos,
            driver: self.driver,
            manual_only: self.manual_only,
            to_start: match self.to_start {
                Some(d) => Some(d@),
                None => None,
            },
            bridge: self.bridge@,
        }
    }
}

impl LogicalClock {
    /// A clock at zero, with a step of one millisecond and no driver.
    pub fn new() -> (r: LogicalClock)
        ensures
            r@ == (ClockView {
                nanos: 0,
                step_nanos: DEFAULT_STEP_NANOS,
                driver: None,
                manual_only: false,
                to_start: None,
                bridge: None,
            }),
    {
        LogicalClock {
            logical_nanos: 0,
            step_nanos: DEFAULT_STEP_NANOS,
            driver: None,
            manual_only: false,
            to_start: None,
            bridge: ClockBridge::new(),
        }
    }

    /// The bridge to the shared file.
    pub fn bridge(&self) -> (r: &ClockBridge)
        ensures
            r@ == self@.bridge,
    {
        &self.bridge
    }

    /// Takes note of how the first write to a shared file went.
    pub fn bridge_written(&mut self, first: ClockWrite, written: bool)
        ensures
            final(self)@ == (ClockView {
                bridge: if written {
                    Some(first.path@)
                } else {
                    old(self)@.bridge
                },
                ..old(self)@
            }),
    {
        init_done(&mut self.bridge, first, written);
    }

    /// The driver that was asked for since the last call, if any. The caller
    /// starts it.
    pub fn take_driver_start(&mut self) -> (r: Option<DriverStart>)
        ensures
            final(self)@ == (ClockView { to_start: None, ..old(self)@ }),
            match r {
                Some(s) => old(self)@.to_start == Some(s.wall_interval@) && old(self)@.driver
                    == Some(s.step_nanos),
                None => old(self)@.to_start is None || old(self)@.driver is None,
            },
    {
        let asked: Option<Duration> = self.to_start;
        self.to_start = None;
        match (asked, self.driver) {
            (Some(wall_interval), Some(step_nanos)) => Some(
                DriverStart { wall_interval, step_nanos },
            ),
            _ => None,
        }
    }

    /// One tick of the driver. Returns the write that is then due.
    pub fn driver_tick(&mut self) -> (r: Option<ClockWrite>)
        ensures
            final(self)@ == old(self)@.ticked(),
            if old(self)@.driver is Some && !old(self)@.manual_only {
                final(self)@.synced_by(r)
            } else {
                r is None
            },
    {
        if self.manual_only {
            return None;
        }
        match self.driver {
            Some(step) => {
                if step > 0 {
                    self.logical_nanos = later(self.logical_nanos, step);
                }
                sync(&self.bridge, self.logical_nanos)
            },
            None => None,
        }
    }
}

/// Sets what `dst_step` and a driver that is started later add per step.
pub fn dst_set_step(clock: &mut LogicalClock, nanos: i64)
    ensures
        final(clock)@ == (ClockView { step_nanos: nanos, ..old(clock)@ }),
{
    clock.step_nanos = nanos;
}

/// Turns the driver off or on. Without it time moves only by the functions
/// below.
pub fn dst_set_manual_only(clock: &mut LogicalClock, manual: bool)
    ensures
        final(clock)@ == (ClockView { manual_only: manual, ..old(clock)@ }),
{
    clock.manual_only = manual;
}

/// Advances the clock, which stays at the last time that it can show. Returns
/// the write that is then due.
pub fn dst_advance(clock: &mut LogicalClock, nanos: i64) -> (r: Option<ClockWrite>)
    ensures
        final(clock)@ == old(clock)@.advanced(nanos),
        if nanos > 0 {
            final(clock)@.synced_by(r)
        } else {
            r is None
        },
{
    if nanos > 0 {
        clock.logical_nanos = later(clock.logical_nanos, nanos);
        sync(&clock.bridge, clock.logical_nanos)
    } else {
        None
    }
}

/// Advances the clock by `n` steps, as far as it can go. Returns the write that
/// is then due.
pub fn dst_step(clock: &mut LogicalClock, n: u64) -> (r: Option<ClockWrite>)
    ensures
        final(clock)@ == old(clock)@.stepped(n),
        if old(clock)@.steps(n) {
            final(clock)@.synced_by(r)
        } else {
            r is None
        },
{
    let step: i64 = clock.step_nanos;
    if step > 0 && n > 0 {
        let total: i64 = capped_nanos(step, n);
        clock.logical_nanos = later(clock.logical_nanos, total);
        sync(&clock.bridge, clock.logical_nanos)
    } else {
        None
    }
}

/// Starts a new epoch without going backward. Returns the write that is then
/// due.
pub fn dst_reset(clock: &mut LogicalClock) -> (r: Option<ClockWrite>)
    ensures
        final(clock)@ == old(clock)@.reset(),
        final(clock)@.synced_by(r),
{
    clock.logical_nanos = later(clock.logical_nanos, RESET_EPOCH_NANOS);
    sync(&clock.bridge, clock.logical_nanos)
}

/// Sets the clock. Returns the write that is then due.
pub fn dst_set_logical_nanos(clock: &mut LogicalClock, nanos: i64) -> (r: Option<ClockWrite>)
    ensures
        final(clock)@ == old(clock)@.at(nanos),
        final(clock)@.synced_by(r),
{
    clock.logical_nanos = nanos;
    sync(&clock.bridge, clock.logical_nanos)
}

/// The current time in nanoseconds.
pub fn dst_now_nanos(clock: &LogicalClock) -> (r: i64)
    ensures
        r == clock@.nanos,
{
    clock.logical_nanos
}

/// Asks for a driver that ticks every `wall_interval`. Nothing is asked for in
/// manual mode, nor a second time.
pub fn dst_start_hybrid_driver(clock: &mut LogicalClock, wall_interval: Duration)
    ensures
        final(clock)@ == old(clock)@.with_driver(wall_interval@),
{
    if clock.manual_only {
        return;
    }
    if clock.driver.is_some() {
        return;
    }
    clock.driver = Some(clock.step_nanos);
    clock.to_start = Some(wall_interval);
}

fn ensure_driver(clock: &mut LogicalClock)
    ensures
        final(clock)@ == old(clock)@.read(),
{
    if clock.manual_only {
        return;
    }
    if clock.driver.is_none() {
        dst_start_hybrid_driver(clock, Duration::from_millis(1));
    }
}

fn read_now(clock: &mut LogicalClock) -> (r: Timespec)
    ensures
        r == timespec_of(old(clock)@.nanos as int),
        r.is_normal(),
        r.nanos() == old(clock)@.nanos,
        final(clock)@ == old(clock)@.read(),
{
    ensure_driver(clock);
    Timespec::from_total_nanos(clock.logical_nanos as i128)
}

/// The time of the clock.
pub fn monotonic_raw_now(clock: &mut LogicalClock) -> (r: Timespec)
    ensures
        r == timespec_of(old(clock)@.nanos as int),
        r.is_normal(),
        r.nanos() == old(clock)@.nanos,
        final(clock)@ == old(clock)@.read(),
{
    read_now(clock)
}

/// The time of the clock.
pub fn monotonic_now(clock: &mut LogicalClock) -> (r: Timespec)
    ensures
        r == timespec_of(old(clock)@.nanos as int),
        r.is_normal(),
        r.nanos() == old(clock)@.nanos,
        final(clock)@ == old(clock)@.read(),
{
    read_now(clock)
}

/// The time of the clock.
pub fn monotonic_coarse_now(clock: &mut LogicalClock) -> (r: Timespec)
    ensures
        r == timespec_of(old(clock)@.nanos as int),
        r.is_normal(),
        r.nanos() == old(clock)@.nanos,
        final(clock)@ == old(clock)@.read(),
{
    read_now(clock)
}

/// The clock never goes backward, whichever way it is moved but for setting
/// it: what was read before is not in the future.
pub proof fn lemma_never_backward(v: ClockView, nanos: i64, n: u64)
    ensures
        v.read().nanos == v.nanos,
        v.advanced(nanos).nanos >= v.nanos,
        v.stepped(n).nanos >= v.nanos,
        v.reset().nanos >= v.nanos,
        v.ticked().nanos >= v.nanos,
{
    if v.steps(n) {
        lemma_product_of_positives(v.step_nanos, n);
    }
}

/// What can be done to a clock between two readings, but for setting its time.
pub enum ClockMove {
    Advance(i64),
    Step(u64),
    Reset,
    SetStep(i64),
    SetManualOnly(bool),
    StartDriver(nat),
    DriverTick,
    Read,
}

impl ClockView {
    /// The clock after a move.
    pub open spec fn after(self, m: ClockMove) -> ClockView {
        match m {
            ClockMove::Advance(nanos) => self.advanced(nanos),
            ClockMove::Step(n) => self.stepped(n),
            ClockMove::Reset => self.reset(),
            ClockMove::SetStep(nanos) => ClockView { step_nanos: nanos, ..self },
            ClockMove::SetManualOnly(manual) => ClockView { manual_only: manual, ..self },
            ClockMove::StartDriver(wall_interval) => self.with_driver(wall_interval),
            ClockMove::DriverTick => self.ticked(),
            ClockMove::Read => self.read(),
        }
    }

    /// The clock after moves, one after the other.
    pub open spec fn after_moves(self, moves: Seq<ClockMove>) -> ClockView
        decreases moves.len(),
    {
        if moves.len() == 0 {
            self
        } else {
            self.after_moves(moves.drop_last()).after(moves.last())
        }
    }
}

/// A later reading is not before an earlier one, whatever was done in between
/// but for setting the time.
pub proof fn lemma_readings_never_backward(v: ClockView, moves: Seq<ClockMove>)
    ensures
        v.after_moves(moves).nanos >= v.nanos,
        timespec_of(v.after_moves(moves).nanos as int).not_before(timespec_of(v.nanos as int)),
    decreases moves.len(),
{
    if moves.len() > 0 {
        let w = v.after_moves(moves.drop_last());
        lemma_readings_never_backward(v, moves.drop_last());
        match moves.last() {
            ClockMove::Advance(nanos) => lemma_never_backward(w, nanos, 0),
            ClockMove::Step(n) => lemma_never_backward(w, 0, n),
            _ => lemma_never_backward(w, 0, 0),
        }
    }
    let later = v.after_moves(moves).nanos as int;
    lemma_timespec_of(later);
    lemma_timespec_of(v.nanos as int);
    lemma_order_of_nanos(timespec_of(later), timespec_of(v.nanos as int));
}

/// Whether no move leaves manual mode.
pub open spec fn stays_manual(moves: Seq<ClockMove>) -> bool {
    forall|i: int| 0 <= i < moves.len() ==> #[trigger] moves[i] != ClockMove::SetManualOnly(false)
}

/// In manual mode time depends on the moves alone: two clocks that show the
/// same time and have the same step go on to show the same time.
pub proof fn lemma_manual_moves_replay(v: ClockView, w: ClockView, moves: Seq<ClockMove>)
    requires
        v.manual_only && w.manual_only,
        v.nanos == w.nanos,
        v.step_nanos == w.step_nanos,
        stays_manual(moves),
    ensures
        v.after_moves(moves).manual_only && w.after_moves(moves).manual_only,
        v.after_moves(moves).nanos == w.after_moves(moves).nanos,
        v.after_moves(moves).step_nanos == w.after_moves(moves).step_nanos,
    decreases moves.len(),
{
    if moves.len() > 0 {
        assert(moves[moves.len() - 1] == moves.last());
        assert forall|i: int| 0 <= i < moves.len() - 1 implies #[trigger] moves.drop_last()[i]
            != ClockMove::SetManualOnly(false) by {
            assert(moves.drop_last()[i] == moves[i]);
        }
        lemma_manual_moves_replay(v, w, moves.drop_last());
    }
}

/// Short of the last time that it can show, a move takes the clock just as far
/// as asked, and a reset leaps ahead of every time that was read before.
pub proof fn lemma_moves_are_exact(v: ClockView, nanos: i64, n: u64)
    ensures
        0 <= nanos && v.nanos + nanos <= i64::MAX ==> v.advanced(nanos).nanos == v.nanos + nanos,
        v.step_nanos > 0 && v.step_nanos * n <= i64::MAX && v.nanos + v.step_nanos * n <= i64::MAX
            ==> v.stepped(n).nanos == v.nanos + v.step_nanos * n,
        v.nanos + RESET_EPOCH_NANOS <= i64::MAX ==> v.reset().nanos == v.nanos + RESET_EPOCH_NANOS,
        v.nanos < i64::MAX ==> v.reset().nanos > v.nanos,
{
    if v.step_nanos > 0 {
        lemma_product_of_positives(v.step_nanos, n);
        assert(v.step_nanos * 0 == 0);
    }
}

/// Advancing twice is advancing by the sum.
pub proof fn lemma_advances_add_up(v: ClockView, a: i64, b: i64)
    requires
        a > 0,
        b > 0,
        a + b <= i64::MAX,
    ensures
        v.advanced(a).advanced(b) == v.advanced((a + b) as i64),
{
}

/// Stepping `a` times and then `b` times is stepping `a + b` times, where the
/// clock can show that span.
pub proof fn lemma_steps_add_up(v: ClockView, a: u64, b: u64)
    requires
        a + b <= u64::MAX,
        v.step_nanos * (a + b) <= i64::MAX,
    ensures
        v.stepped(a).stepped(b) == v.stepped((a + b) as u64),
{
    if v.step_nanos > 0 {
        lemma_product_of_positives(v.step_nanos, a);
        lemma_product_of_positives(v.step_nanos, b);
        assert(v.step_nanos * (a + b) == v.step_nanos * a + v.step_nanos * b) by (nonlinear_arith);
    }
}

/// In manual mode only the explicit moves change the time: neither readers nor
/// the driver do.
pub proof fn lemma_manual_mode_freezes(v: ClockView)
    requires
        v.manual_only,
    ensures
        v.read() == v,
        v.ticked() == v,
{
}

/// The moves of a clock, in numbers: advancing adds what is positive, stepping
/// adds the step as often as asked, a reset adds an hour, a tick adds the
/// driver's step unless the clock is in manual mode; and nothing goes past the
/// last time that 63 bits hold. Nothing else of the clock changes.
pub proof fn lemma_moves_in_numbers(v: ClockView, nanos: i64, n: u64)
    ensures
        ({
            let last = 0x7fff_ffff_ffff_ffffint;
            let capped = |x: int|
                if x > last {
                    last
                } else {
                    x
                };
            &&& v.advanced(nanos) == v.at(v.advanced(nanos).nanos)
            &&& v.advanced(nanos).nanos == if nanos > 0 {
                capped(v.nanos + nanos)
            } else {
                v.nanos as int
            }
            &&& v.stepped(n) == v.at(v.stepped(n).nanos)
            &&& v.stepped(n).nanos == if v.step_nanos > 0 {
                capped(v.nanos + capped(v.step_nanos * n))
            } else {
                v.nanos as int
            }
            &&& v.steps(n) == (v.step_nanos > 0 && n > 0)
            &&& v.reset() == v.at(v.reset().nanos)
            &&& v.reset().nanos == capped(v.nanos + 3_600_000_000_000)
            &&& v.ticked() == v.at(v.ticked().nanos)
            &&& v.ticked().nanos == match v.driver {
                Some(step) => if v.manual_only || step <= 0 {
                    v.nanos as int
                } else {
                    capped(v.nanos + step)
                },
                None => v.nanos as int,
            }
            &&& v.at(nanos) == (ClockView { nanos, ..v })
            &&& DEFAULT_STEP_NANOS == 1_000_000
        }),
{
    if v.step_nanos > 0 {
        lemma_product_of_positives(v.step_nanos, n);
        assert(v.step_nanos * 0 == 0);
    }
}

/// The first one to read a clock that is not in manual mode asks for a driver
/// that ticks every millisecond with the step of that moment; whoever asks for
/// one by name says how often it ticks. In manual mode, and once there is one,
/// nobody asks.
pub proof fn lemma_driver_is_asked_for_once(v: ClockView, wall_interval: nat)
    ensures
        ({
            let w = v.with_driver(wall_interval);
            let asks = !v.manual_only && v.driver is None;
            &&& asks ==> w.driver == Some(v.step_nanos) && w.to_start == Some(wall_interval)
            &&& !asks ==> w == v
            &&& w == (ClockView { driver: w.driver, to_start: w.to_start, ..v })
            &&& w.with_driver(wall_interval) == w
            &&& asks ==> v.read().to_start == Some(1_000_000nat)
            &&& v.read().driver == v.with_driver(wall_interval).driver
            &&& !asks ==> v.read() == v
            &&& v.read().nanos == v.nanos
        }),
{
}

/// Whoever moves a clock that has a shared file writes the new time to that
/// file, in eight bytes from which it can be read back; without a file nothing
/// is written.
pub proof fn lemma_writes_show_the_time(v: ClockView, w: ClockWrite)
    ensures
        v.synced_by(None) == (v.bridge is None),
        v.synced_by(Some(w)) ==> v.bridge == Some(w.path@) && w.bytes@.len() == 8
            && crate::number::le_value(w.bytes@) == if v.nanos >= 0 {
            v.nanos as int
        } else {
            v.nanos + 0x1_0000_0000_0000_0000
        },
{
    if v.synced_by(Some(w)) {
        lemma_write_tells_time(w, w.path@, v.nanos);
    }
}

} // verus!
