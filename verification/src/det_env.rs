//! Control of the disk I/O of one node: a trace of reads and writes, an
//! artificial delay, and a stall.

use crate::duration::Duration;
use std::collections::VecDeque;
use vstd::prelude::*;

verus! {

/// What kind of operation was logged.
#[derive(Debug, Clone, Copy, PartialEq, Eq, Structural)]
pub enum IoKind {
    Read,
    Write,
}

/// A logged operation: its kind, its length, and the logical time. Paths are
/// not known here.
#[derive(Debug, Clone, Copy)]
pub struct IoOp {
    pub kind: IoKind,
    pub bytes: usize,
    pub logical_nanos: i64,
}

/// How long an operation sleeps before it looks again whether the disk is
/// still stalled, in milliseconds.
pub const STALL_POLL_MS: u64 = 1;

/// What an operation does next.
#[derive(Debug)]
pub enum IoWait {
    /// The disk is stalled: sleep, then ask again.
    Stalled(Duration),
    /// Sleep, then go on.
    Delayed(Duration),
    /// Go on.
    Ready,
}

/// What the control of a disk holds.
#[verifier::ext_equal]
pub struct DetEnvView {
    pub log: Seq<IoOp>,
    pub paused: bool,
    pub delay_ms: u64,
    pub log_enabled: bool,
}

impl DetEnvView {
    /// The control after an operation was seen.
    pub open spec fn recorded(self, op: IoOp) -> DetEnvView {
        if self.log_enabled {
            DetEnvView { log: self.log.push(op), ..self }
        } else {
            self
        }
    }
}

/// The control of the disk of one node.
#[derive(Debug)]
pub struct DetEnv {
    io_log: VecDeque<IoOp>,
    paused: bool,
    delay_ms: u64,
    log_enabled: bool,
}

impl View for DetEnv {
    type V = DetEnvView;

    closed spec fn view(&self) -> DetEnvView {
        DetEnvView {
            log: self.io_log@,
            paused: self.paused,
            delay_ms: self.delay_ms,
            log_enabled: self.log_enabled,
        }
    }
}

impl Default for DetEnv {
    fn default() -> (r: DetEnv)
        ensures
            r@ == (DetEnvView {
                log: Seq::empty(),
                paused: false,
                delay_ms: 0,
                log_enabled: false,
            }),
    {
        DetEnv::new()
    }
}

impl DetEnv {
    pub fn new() -> (r: DetEnv)
        ensures
            r@ == (DetEnvView {
                log: Seq::empty(),
                paused: false,
                delay_ms: 0,
                log_enabled: false,
            }),
    {
        DetEnv {
            io_log: VecDeque::with_capacity(1024),
            paused: false,
            delay_ms: 0,
            log_enabled: false,
        }
    }

    /// Stalls the disk, or lets it go on.
    pub fn set_paused(&mut self, paused: bool)
        ensures
            final(self)@ == (DetEnvView { paused, ..old(self)@ }),
    {
        self.paused = paused;
    }

    /// Delays every operation by so many milliseconds.
    pub fn set_delay_ms(&mut self, ms: u64)
        ensures
            final(self)@ == (DetEnvView { delay_ms: ms, ..old(self)@ }),
    {
        self.delay_ms = ms;
    }

    /// Turns the log on or off.
    pub fn set_log_enabled(&mut self, enabled: bool)
        ensures
            final(self)@ == (DetEnvView { log_enabled: enabled, ..old(self)@ }),
    {
        self.log_enabled = enabled;
    }

    /// Takes the logged operations out, the oldest first.
    pub fn drain_log(&mut self) -> (r: Vec<IoOp>)
        ensures
            r@ == old(self)@.log,
            final(self)@ == (DetEnvView { log: Seq::empty(), ..old(self)@ }),
    {
        let mut out: Vec<IoOp> = Vec::new();
        let ghost all = self.io_log@;
        loop
            invariant
                out@ + self.io_log@ == all,
                self@ == (DetEnvView { log: self.io_log@, ..old(self)@ }),
            ensures
                self.io_log@.len() == 0,
                out@ + self.io_log@ == all,
                self@ == (DetEnvView { log: self.io_log@, ..old(self)@ }),
            decreases self.io_log@.len(),
        {
            let ghost left = self.io_log@;
            let ghost done = out@;
            match self.io_log.pop_front() {
                Some(op) => {
                    out.push(op);
                    assert(out@ + self.io_log@ =~= done + left);
                },
                None => {
                    break;
                },
            }
        }
        assert(out@ =~= all);
        assert(self.io_log@ =~= Seq::empty());
        out
    }

    fn record(&mut self, kind: IoKind, bytes: usize, logical_nanos: i64)
        ensures
            final(self)@ == old(self)@.recorded(IoOp { kind, bytes, logical_nanos }),
    {
        if self.log_enabled {
            self.io_log.push_back(IoOp { kind, bytes, logical_nanos });
        }
    }

    /// What an operation that was recorded does next: it waits as long as the
    /// disk is stalled, then for the delay.
    pub fn next_wait(&self) -> (r: IoWait)
        ensures
            match r {
                IoWait::Stalled(d) => self@.paused && d@ == STALL_POLL_MS * 1_000_000,
                IoWait::Delayed(d) => !self@.paused && self@.delay_ms > 0 && d@ == self@.delay_ms
                    * 1_000_000,
                IoWait::Ready => !self@.paused && self@.delay_ms == 0,
            },
    {
        if self.paused {
            return IoWait::Stalled(Duration::from_millis(STALL_POLL_MS));
        }
        if self.delay_ms > 0 {
            return IoWait::Delayed(Duration::from_millis(self.delay_ms));
        }
        IoWait::Ready
    }

    /// Sees a read. The caller then waits as `next_wait` says, and reads the
    /// returned number of bytes: all of them.
    pub fn read(&mut self, len: usize, logical_nanos: i64) -> (r: usize)
        ensures
            r == len,
            final(self)@ == old(self)@.recorded(
                IoOp { kind: IoKind::Read, bytes: len, logical_nanos },
            ),
    {
        self.record(IoKind::Read, len, logical_nanos);
        len
    }

    /// Sees a write. The caller then waits as `next_wait` says, and writes the
    /// returned number of bytes: all of them.
    pub fn write(&mut self, len: usize, logical_nanos: i64) -> (r: usize)
        ensures
            r == len,
            final(self)@ == old(self)@.recorded(
                IoOp { kind: IoKind::Write, bytes: len, logical_nanos },
            ),
    {
        self.record(IoKind::Write, len, logical_nanos);
        len
    }
}

/// What to use where a crash between two writes is to be simulated.
pub const CRASH_BETWEEN_NOTE: &'static str = "use test_dst CrashBetween + failpoint pause; DetEnv buffer-drop is P1";

/// The control after these operations, one after the other.
pub open spec fn recorded_all(v: DetEnvView, ops: Seq<IoOp>) -> DetEnvView
    decreases ops.len(),
{
    if ops.len() == 0 {
        v
    } else {
        recorded_all(v, ops.drop_last()).recorded(ops.last())
    }
}

/// The log is a trace: while it is on it holds every operation in order, and
/// while it is off it does not change.
pub proof fn lemma_log_is_trace(v: DetEnvView, ops: Seq<IoOp>)
    ensures
        recorded_all(v, ops) == (DetEnvView {
            log: if v.log_enabled {
                v.log + ops
            } else {
                v.log
            },
            ..v
        }),
    decreases ops.len(),
{
    if ops.len() > 0 {
        lemma_log_is_trace(v, ops.drop_last());
        assert(v.log + ops =~= (v.log + ops.drop_last()).push(ops.last()));
    } else {
        assert(v.log + ops =~= v.log);
    }
}

/// While the log is on, an operation is added behind the others; while it is
/// off nothing is. Nothing else changes, and a stalled disk is looked at every
/// millisecond.
pub proof fn lemma_operation_is_logged_last(v: DetEnvView, op: IoOp)
    ensures
        v.log_enabled ==> v.recorded(op).log.len() == v.log.len() + 1 && v.recorded(op).log.last()
            == op && v.recorded(op).log.drop_last() == v.log,
        !v.log_enabled ==> v.recorded(op).log == v.log,
        v.recorded(op) == (DetEnvView { log: v.recorded(op).log, ..v }),
        STALL_POLL_MS * 1_000_000 == 1_000_000,
{
    assert(v.log.push(op).drop_last() =~= v.log);
}

} // verus!
