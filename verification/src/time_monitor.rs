//! Watches the time of day and tells when it jumps back.

use crate::duration::{Duration, TimeDuration};
use vstd::prelude::*;

verus! {

/// How long the monitor waits between two readings, in milliseconds.
pub const DEFAULT_WAIT_MS: u64 = 100;

/// What the monitor asks for next.
#[derive(Debug)]
pub enum MonitorAction {
    /// Look whether a message to quit has come.
    Poll,
    /// Read the time of day.
    ReadTime,
    /// Wait so long.
    Wait(Duration),
    /// The time jumped back from the first to the second reading: report it,
    /// then look for a message to quit.
    Report(TimeDuration, TimeDuration),
    /// End.
    Quit,
}

/// What has happened.
#[derive(Clone, Copy, Debug)]
pub enum MonitorEvent {
    /// Whether a message to quit had come.
    Polled(bool),
    /// The time of day, since the Unix epoch.
    Time(TimeDuration),
    /// The wait is over.
    Waited,
}

/// Where the monitor is in its round.
#[derive(Clone, Copy, Debug)]
pub enum MonitorState {
    Polling,
    ReadingBefore,
    Waiting(TimeDuration),
    ReadingAfter(TimeDuration),
    Stopped,
}

/// The state after an event. Events that the state does not wait for change
/// nothing.
pub open spec fn next_state(s: MonitorState, e: MonitorEvent) -> MonitorState {
    match (s, e) {
        (MonitorState::Polling, MonitorEvent::Polled(quit)) => if quit {
            MonitorState::Stopped
        } else {
            MonitorState::ReadingBefore
        },
        (MonitorState::ReadingBefore, MonitorEvent::Time(t)) => MonitorState::Waiting(t),
        (MonitorState::Waiting(t), MonitorEvent::Waited) => MonitorState::ReadingAfter(t),
        (MonitorState::ReadingAfter(_), MonitorEvent::Time(_)) => MonitorState::Polling,
        _ => s,
    }
}

/// Whether an action is what a state asks for.
pub open spec fn asks(s: MonitorState, a: MonitorAction) -> bool {
    match s {
        MonitorState::Polling => a is Poll,
        MonitorState::ReadingBefore => a is ReadTime,
        MonitorState::Waiting(_) => a matches MonitorAction::Wait(d) && d@ == DEFAULT_WAIT_MS
            * 1_000_000,
        MonitorState::ReadingAfter(_) => a is ReadTime,
        MonitorState::Stopped => a is Quit,
    }
}

/// Whether an event shows that the time jumped back: the second reading of a
/// round is before the first.
pub open spec fn jumped_back(s: MonitorState, e: MonitorEvent) -> bool {
    match (s, e) {
        (MonitorState::ReadingAfter(before), MonitorEvent::Time(after)) => after@ < before@,
        _ => false,
    }
}

/// Watches the time of day, one round after the other: read it, wait, read it
/// again, compare.
#[derive(Debug)]
pub struct Monitor {
    state: MonitorState,
}

impl View for Monitor {
    type V = MonitorState;

    closed spec fn view(&self) -> MonitorState {
        self.state
    }
}

fn action_of(s: MonitorState) -> (r: MonitorAction)
    ensures
        asks(s, r),
{
    match s {
        MonitorState::Polling => MonitorAction::Poll,
        MonitorState::ReadingBefore => MonitorAction::ReadTime,
        MonitorState::Waiting(_) => MonitorAction::Wait(Duration::from_millis(DEFAULT_WAIT_MS)),
        MonitorState::ReadingAfter(_) => MonitorAction::ReadTime,
        MonitorState::Stopped => MonitorAction::Quit,
    }
}

impl Monitor {
    /// A monitor at the start of a round, which asks to poll.
    pub fn new() -> (r: Monitor)
        ensures
            r@ is Polling,
    {
        Monitor { state: MonitorState::Polling }
    }

    /// Takes an event and says what to do next.
    pub fn on_event(&mut self, event: MonitorEvent) -> (r: MonitorAction)
        ensures
            final(self)@ == next_state(old(self)@, event),
            match r {
                MonitorAction::Report(before, after) => jumped_back(old(self)@, event)
                    && old(self)@ == MonitorState::ReadingAfter(before) && event
                    == MonitorEvent::Time(after),
                _ => !jumped_back(old(self)@, event) && asks(final(self)@, r),
            },
    {
        let state: MonitorState = self.state;
        match (state, event) {
            (MonitorState::Polling, MonitorEvent::Polled(quit)) => {
                self.state = if quit {
                    MonitorState::Stopped
                } else {
                    MonitorState::ReadingBefore
                };
            },
            (MonitorState::ReadingBefore, MonitorEvent::Time(t)) => {
                self.state = MonitorState::Waiting(t);
            },
            (MonitorState::Waiting(t), MonitorEvent::Waited) => {
                self.state = MonitorState::ReadingAfter(t);
            },
            (MonitorState::ReadingAfter(before), MonitorEvent::Time(after)) => {
                self.state = MonitorState::Polling;
                if after.whole_nanoseconds() < before.whole_nanoseconds() {
                    return MonitorAction::Report(before, after);
                }
            },
            _ => {},
        }
        action_of(self.state)
    }
}

/// One round reports a jump exactly where the second reading is before the
/// first, and ends where it began.
pub proof fn lemma_round_reports_jumps(before: TimeDuration, after: TimeDuration)
    ensures
        ({
            let s1 = next_state(MonitorState::Polling, MonitorEvent::Polled(false));
            let s2 = next_state(s1, MonitorEvent::Time(before));
            let s3 = next_state(s2, MonitorEvent::Waited);
            &&& jumped_back(s3, MonitorEvent::Time(after)) == (after@ < before@)
            &&& next_state(s3, MonitorEvent::Time(after)) is Polling
        }),
{
}

/// Once stopped, the monitor stays so.
pub proof fn lemma_stopped_for_good(e: MonitorEvent)
    ensures
        next_state(MonitorState::Stopped, e) is Stopped,
        !jumped_back(MonitorState::Stopped, e),
{
}

/// A round in full: poll, read the time, wait a tenth of a second, read it
/// again, and poll anew. It ends for good where the poll found a message to
/// quit.
pub proof fn lemma_round_in_full(before: TimeDuration, after: TimeDuration, a: MonitorAction)
    ensures
        ({
            let polled = next_state(MonitorState::Polling, MonitorEvent::Polled(false));
            let read = next_state(polled, MonitorEvent::Time(before));
            let waited = next_state(read, MonitorEvent::Waited);
            let ended = next_state(waited, MonitorEvent::Time(after));
            let quit = next_state(MonitorState::Polling, MonitorEvent::Polled(true));
            &&& asks(MonitorState::Polling, a) == (a is Poll)
            &&& asks(polled, a) == (a is ReadTime)
            &&& asks(read, a) == (a is Wait && (a->Wait_0)@ == 100_000_000)
            &&& asks(waited, a) == (a is ReadTime)
            &&& asks(ended, a) == (a is Poll)
            &&& asks(quit, a) == (a is Quit)
            &&& quit is Stopped
            &&& ended is Polling
            &&& waited == MonitorState::ReadingAfter(before)
        }),
{
}

/// Only the event that a state asked for moves the monitor on, and only the
/// second reading of a round can show a jump.
pub proof fn lemma_other_events_are_ignored(s: MonitorState, e: MonitorEvent)
    ensures
        s is Polling && !(e is Polled) ==> next_state(s, e) == s,
        s is ReadingBefore && !(e is Time) ==> next_state(s, e) == s,
        s is Waiting && !(e is Waited) ==> next_state(s, e) == s,
        s is ReadingAfter && !(e is Time) ==> next_state(s, e) == s,
        s is Stopped ==> next_state(s, e) == s,
        jumped_back(s, e) ==> s is ReadingAfter && e is Time,
{
}

} // verus!
