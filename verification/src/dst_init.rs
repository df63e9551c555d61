//! Sets up a run: the logical clock, the random numbers, the shared clock file
//! and the environment of the process.

use crate::det_clock_bridge::{init, shm_path, sync, ClockWrite, DEFAULT_PATH};
use crate::dst_rng::{
    after_words, dst_set_rng_seed, seeded_words, two_words, word_bytes, DstRng,
};
use crate::logical_clock::{
    capped_nanos, capped_product, dst_advance, dst_reset, dst_set_logical_nanos,
    dst_set_manual_only, dst_set_step, dst_step, lemma_manual_moves_replay, stays_manual, ClockMove,
    ClockView, LogicalClock,
};
use crate::text::{append_decimal, decimal};
use crate::timer::{dst_process_timers, SyncView, TimerSync};
use vstd::prelude::*;

verus! {

/// The step of a run: one millisecond.
pub const INIT_STEP_NANOS: i64 = 1_000_000;

/// What the threads of a run share.
pub struct DstPlane {
    pub clock: LogicalClock,
    pub timers: TimerSync,
    /// Raised whenever shims that watch the environment are to start over.
    pub reset_nonce: u64,
}

impl DstPlane {
    pub fn new() -> (r: DstPlane)
        ensures
            r.clock@ == (ClockView {
                nanos: 0,
                step_nanos: crate::logical_clock::DEFAULT_STEP_NANOS,
                driver: None,
                manual_only: false,
                to_start: None,
                bridge: None,
            }),
            r.timers@ == (SyncView { requested: 0, completed: 0 }),
            r.reset_nonce == 0,
    {
        DstPlane {
            clock: LogicalClock::new(),
            timers: TimerSync::new(),
            reset_nonce: 0,
        }
    }
}

/// `n` in decimal.
fn decimal_text(n: u64) -> (r: String)
    ensures
        r@ == decimal(n as nat),
{
    let mut out: String = String::new();
    append_decimal(&mut out, n);
    assert(out@ =~= decimal(n as nat));
    out
}

/// The clock of a run that starts: at time zero, in manual mode.
pub open spec fn started(v: ClockView) -> ClockView {
    ClockView { nanos: 0, step_nanos: INIT_STEP_NANOS, manual_only: true, ..v }
}

/// The writes that the first part of the setup asks for, in their order.
#[derive(Debug)]
pub struct InitWrites {
    /// The new epoch, where a shared file was in use already.
    pub epoch: Option<ClockWrite>,
    /// Time zero, where a shared file was in use already.
    pub zero: Option<ClockWrite>,
    /// The first write to the shared file at the default place.
    pub bridge: ClockWrite,
}

/// Starts the setup of a run: the clock goes into manual mode at time zero and
/// the random numbers of the thread start from the seed. The caller makes the writes and
/// says in `dst_init_rest` whether the last one succeeded.
pub fn dst_init(plane: &mut DstPlane, thread_rng: &mut DstRng, seed: u64) -> (r: InitWrites)
    ensures
        final(plane).clock@ == started(old(plane).clock@),
        final(thread_rng)@ == seeded_words(seed),
        final(plane).timers@ == old(plane).timers@,
        final(plane).reset_nonce == old(plane).reset_nonce,
        old(plane).clock@.reset().synced_by(r.epoch),
        final(plane).clock@.synced_by(r.zero),
        r.bridge.writes(DEFAULT_PATH@, 0),
{
    dst_set_manual_only(&mut plane.clock, true);
    dst_set_step(&mut plane.clock, INIT_STEP_NANOS);
    let epoch: Option<ClockWrite> = dst_reset(&mut plane.clock);
    let zero: Option<ClockWrite> = dst_set_logical_nanos(&mut plane.clock, 0);
    dst_set_rng_seed(thread_rng, seed);
    let bridge: ClockWrite = init(None, 0);
    InitWrites { epoch, zero, bridge }
}

/// What the second part of the setup asks for, in its order.
#[derive(Debug)]
pub struct InitRest {
    /// The shared file once more, where one is in use.
    pub sync: Option<ClockWrite>,
    /// `DET_CLOCK_SHM`, where it is not set yet.
    pub shm_env: Option<String>,
    /// `DST_RNG_SEED`.
    pub seed_env: String,
    /// `DST_RNG_RESET`.
    pub reset_env: String,
    /// The seed for the entropy source of the process. Then the thread's
    /// generator is drained and the entropy source starts over.
    pub entropy_seed: u64,
}

/// Finishes the setup of a run, given whether the first write to the shared
/// file succeeded and whether the variable with its place is set already.
pub fn dst_init_rest(
    plane: &mut DstPlane,
    seed: u64,
    first: ClockWrite,
    written: bool,
    shm_env_set: bool,
) -> (r: InitRest)
    requires
        old(plane).reset_nonce < u64::MAX,
    ensures
        final(plane).clock@ == (ClockView {
            bridge: if written {
                Some(first.path@)
            } else {
                old(plane).clock@.bridge
            },
            ..old(plane).clock@
        }),
        final(plane).timers@ == old(plane).timers@,
        final(plane).reset_nonce == old(plane).reset_nonce + 1,
        final(plane).clock@.synced_by(r.sync),
        match r.shm_env {
            Some(path) => !shm_env_set && path@ == match final(plane).clock@.bridge {
                Some(p) => p,
                None => DEFAULT_PATH@,
            },
            None => shm_env_set,
        },
        r.seed_env@ == decimal(seed as nat),
        r.reset_env@ == decimal(final(plane).reset_nonce as nat),
        r.entropy_seed == seed,
{
    plane.clock.bridge_written(first, written);
    let sync_write: Option<ClockWrite> = sync(
        plane.clock.bridge(),
        crate::logical_clock::dst_now_nanos(&plane.clock),
    );
    let shm_env: Option<String> = if shm_env_set {
        None
    } else {
        Some(shm_path(plane.clock.bridge()))
    };
    plane.reset_nonce = plane.reset_nonce + 1;
    InitRest {
        sync: sync_write,
        shm_env,
        seed_env: decimal_text(seed),
        reset_env: decimal_text(plane.reset_nonce),
        entropy_seed: seed,
    }
}

/// The values of `DST_RNG_RESET` before and after the entropy source starts
/// over.
#[derive(Debug)]
pub struct Reseed {
    pub before: String,
    pub after: String,
}

/// Starts the random numbers of the process over, before the deterministic
/// phase of a run. The caller sets `DST_RNG_RESET`, starts the entropy source
/// over, drains the thread's generator, starts the entropy source over again,
/// and sets `DST_RNG_RESET` once more.
pub fn dst_reseed_before_phase(plane: &mut DstPlane) -> (r: Reseed)
    requires
        old(plane).reset_nonce < u64::MAX - 1,
    ensures
        final(plane).reset_nonce == old(plane).reset_nonce + 2,
        final(plane).clock@ == old(plane).clock@,
        final(plane).timers@ == old(plane).timers@,
        r.before@ == decimal((old(plane).reset_nonce + 1) as nat),
        r.after@ == decimal((old(plane).reset_nonce + 2) as nat),
{
    plane.reset_nonce = plane.reset_nonce + 1;
    let before: String = decimal_text(plane.reset_nonce);
    plane.reset_nonce = plane.reset_nonce + 1;
    let after: String = decimal_text(plane.reset_nonce);
    Reseed { before, after }
}

/// What is due after the clock was moved: a write, then a turn of the timer
/// thread that the caller waits for.
#[derive(Debug)]
pub struct Moved {
    pub write: Option<ClockWrite>,
    pub timer_request: u64,
}

/// The nanoseconds by which `dst_sleep_ms` advances the clock.
pub open spec fn sleep_nanos(millis: u64) -> i64 {
    capped_product(1_000_000, millis)
}

/// Advances the clock by so many milliseconds and asks for a turn of the
/// timers. Nobody sleeps.
pub fn dst_sleep_ms(plane: &mut DstPlane, millis: u64) -> (r: Moved)
    requires
        old(plane).timers@.requested < u64::MAX,
    ensures
        final(plane).clock@ == old(plane).clock@.advanced(sleep_nanos(millis)),
        if sleep_nanos(millis) > 0 {
            final(plane).clock@.synced_by(r.write)
        } else {
            r.write is None
        },
        r.timer_request == old(plane).timers@.requested + 1,
        final(plane).timers@ == (SyncView {
            requested: r.timer_request,
            ..old(plane).timers@
        }),
        final(plane).reset_nonce == old(plane).reset_nonce,
{
    let write: Option<ClockWrite> = dst_advance(
        &mut plane.clock,
        capped_nanos(1_000_000, millis),
    );
    let timer_request: u64 = dst_process_timers(&mut plane.timers);
    Moved { write, timer_request }
}

/// Advances the clock by one step and asks for a turn of the timers.
pub fn dst_tick(plane: &mut DstPlane) -> (r: Moved)
    requires
        old(plane).timers@.requested < u64::MAX,
    ensures
        final(plane).clock@ == old(plane).clock@.stepped(1),
        if old(plane).clock@.steps(1) {
            final(plane).clock@.synced_by(r.write)
        } else {
            r.write is None
        },
        r.timer_request == old(plane).timers@.requested + 1,
        final(plane).timers@ == (SyncView {
            requested: r.timer_request,
            ..old(plane).timers@
        }),
        final(plane).reset_nonce == old(plane).reset_nonce,
{
    let write: Option<ClockWrite> = dst_step(&mut plane.clock, 1);
    let timer_request: u64 = dst_process_timers(&mut plane.timers);
    Moved { write, timer_request }
}

/// One seed gives one run, whatever was before: after the setup the clock shows
/// zero and then whatever the moves make of it, and the thread's generator
/// gives the same numbers.
pub proof fn lemma_init_replays(
    before: ClockView,
    again: ClockView,
    moves: Seq<ClockMove>,
    rng: DstRng,
    rng_again: DstRng,
    seed: u64,
    n: nat,
)
    requires
        stays_manual(moves),
        rng@ == seeded_words(seed),
        rng_again@ == seeded_words(seed),
    ensures
        started(before).nanos == 0,
        started(before).manual_only,
        started(before).stepped(1).nanos == 1_000_000,
        started(before).after_moves(moves).nanos == started(again).after_moves(moves).nanos,
        two_words(rng@) == two_words(rng_again@),
        word_bytes(rng@, n) == word_bytes(rng_again@, n),
        after_words(rng@, n) == after_words(rng_again@, n),
{
    lemma_manual_moves_replay(started(before), started(again), moves);
}

/// Sleeping advances the clock by just that span, as far as the clock can go.
pub proof fn lemma_sleep_is_exact(v: ClockView, millis: u64)
    requires
        v.nanos >= 0,
    ensures
        v.nanos + millis * 1_000_000 <= i64::MAX ==> v.advanced(sleep_nanos(millis)).nanos == v.nanos
            + millis * 1_000_000,
        v.nanos + millis * 1_000_000 > i64::MAX ==> v.advanced(sleep_nanos(millis)).nanos
            == i64::MAX,
{
}

/// A run starts at time zero, in manual mode, with a step of one millisecond.
/// The driver, what is to be started and the shared file stay as they were, and
/// nothing that reads the clock starts a driver.
pub proof fn lemma_run_starts_at_zero(v: ClockView, n: u64)
    ensures
        ({
            let w = started(v);
            &&& w.nanos == 0
            &&& w.step_nanos == 1_000_000
            &&& w.manual_only
            &&& w.driver == v.driver
            &&& w.to_start == v.to_start
            &&& w.bridge == v.bridge
            &&& w.read() == w
            &&& w.ticked() == w
            &&& n * 1_000_000 <= i64::MAX ==> w.stepped(n).nanos == n * 1_000_000
            &&& sleep_nanos(n) == if n * 1_000_000 <= i64::MAX {
                n * 1_000_000
            } else {
                i64::MAX as int
            }
        }),
{
}

} // verus!
