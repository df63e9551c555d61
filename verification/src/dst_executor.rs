//! Single-threaded cooperative executor. Pollers are stepped in the order in
//! which they were registered, so that one schedule covers them all.
//!
//! In manual drive the background driver idles and only `step_all_once`
//! advances the pollers.

use vstd::prelude::*;

verus! {

/// One cooperative step. Returns `false` when the poller has stopped for good
/// and is to be removed.
pub trait Pollable: Send {
    fn step(&mut self) -> bool;
}

/// Names the flag of an executor that is set once a poller has stopped.
#[derive(Clone, Copy, Debug, PartialEq, Eq, Structural)]
pub struct DoneFlag {
    index: usize,
}

impl View for DoneFlag {
    type V = int;

    closed spec fn view(&self) -> int {
        self.index as int
    }
}

/// A registered poller.
pub struct Entry<P> {
    pub id: u64,
    pub poller: P,
    pub done: DoneFlag,
}

/// The answer to a registration.
#[derive(Clone, Copy, Debug)]
pub struct Registration {
    pub id: u64,
    /// Whether this is the first one, so that the driver is to be started.
    pub start_driver: bool,
}

/// What an executor holds.
#[verifier::ext_equal]
#[verifier::reject_recursive_types(P)]
pub struct ExecView<P> {
    pub pollers: Seq<Entry<P>>,
    pub next_id: u64,
    pub driver_started: bool,
    pub manual_drive: bool,
    pub flags: Seq<bool>,
}

/// Where the poller with this id is among `s`, or the length of `s`.
pub open spec fn id_pos<P>(s: Seq<Entry<P>>, id: u64) -> nat
    decreases s.len(),
{
    if s.len() == 0 {
        0
    } else if s[0].id == id {
        0
    } else {
        1 + id_pos(s.drop_first(), id)
    }
}

/// Where the first poller with this flag is among `s`, or the length of `s`.
pub open spec fn flag_pos<P>(s: Seq<Entry<P>>, flag: int) -> nat
    decreases s.len(),
{
    if s.len() == 0 {
        0
    } else if s[0].done@ == flag {
        0
    } else {
        1 + flag_pos(s.drop_first(), flag)
    }
}

/// The ids of pollers, in their order.
pub open spec fn ids<P>(s: Seq<Entry<P>>) -> Seq<u64> {
    s.map_values(|e: Entry<P>| e.id)
}

/// Where an id goes among ascending ids.
pub open spec fn place<P>(s: Seq<Entry<P>>, id: u64) -> nat
    decreases s.len(),
{
    if s.len() == 0 {
        0
    } else if s.last().id < id {
        s.len()
    } else {
        place(s.drop_last(), id)
    }
}

impl<P> ExecView<P> {
    /// What every executor keeps: ids ascend, the next one is new, and each
    /// poller has a flag.
    pub open spec fn valid(self) -> bool {
        &&& forall|i: int, j: int|
            0 <= i < j < self.pollers.len() ==> (#[trigger] self.pollers[i]).id < (
            #[trigger] self.pollers[j]).id
        &&& forall|i: int|
            0 <= i < self.pollers.len() ==> (#[trigger] self.pollers[i]).id < self.next_id
        &&& forall|i: int|
            0 <= i < self.pollers.len() ==> self.owns((#[trigger] self.pollers[i]).done)
    }

    /// Whether a flag is one of this executor.
    pub open spec fn owns(self, done: DoneFlag) -> bool {
        0 <= done@ < self.flags.len()
    }

    /// Whether a poller with this id is there.
    pub open spec fn has(self, id: u64) -> bool {
        id_pos(self.pollers, id) < self.pollers.len()
    }

    /// The poller with this id.
    pub open spec fn entry(self, id: u64) -> Entry<P> {
        self.pollers[id_pos(self.pollers, id) as int]
    }

    /// Whether a poller that was taken out for its step can be put back.
    pub open spec fn can_return(self, e: Entry<P>) -> bool {
        !self.has(e.id) && e.id < self.next_id && self.owns(e.done)
    }

    /// Whether a step of this id calls its poller.
    pub open spec fn steps(self, id: u64) -> bool {
        self.has(id) && !self.flags[self.entry(id).done@]
    }

    /// The executor without the poller with this id.
    pub open spec fn without(self, id: u64) -> ExecView<P> {
        if self.has(id) {
            ExecView {
                pollers: self.pollers.remove(id_pos(self.pollers, id) as int),
                ..self
            }
        } else {
            self
        }
    }

    /// The executor with this poller in its place.
    pub open spec fn with_entry(self, e: Entry<P>) -> ExecView<P> {
        ExecView { pollers: self.pollers.insert(place(self.pollers, e.id) as int, e), ..self }
    }

    /// The executor with this flag set.
    pub open spec fn stopped(self, flag: int) -> ExecView<P> {
        ExecView { flags: self.flags.update(flag, true), ..self }
    }

    /// The executor after a poller that had been taken out for its step has
    /// answered: it goes on, or it is done.
    pub open spec fn after_step(self, e: Entry<P>, goes_on: bool) -> ExecView<P> {
        if goes_on && !self.flags[e.done@] {
            self.with_entry(e)
        } else {
            self.stopped(e.done@)
        }
    }

    /// The executor after a step of this id, where the poller became `p` and
    /// answered `goes_on`.
    pub open spec fn after_one(self, id: u64, p: P, goes_on: bool) -> ExecView<P> {
        if self.steps(id) {
            let e = self.entry(id);
            self.without(id).after_step(Entry { id: e.id, poller: p, done: e.done }, goes_on)
        } else {
            self.without(id)
        }
    }

    /// The executor after steps of `round`, where step `i` left the poller as
    /// `outcomes[i].0` with the answer `outcomes[i].1`.
    pub open spec fn after_round(self, round: Seq<u64>, outcomes: Seq<(P, bool)>) -> ExecView<P>
        decreases round.len(),
    {
        if round.len() == 0 {
            self
        } else {
            self.after_round(round.drop_last(), outcomes.drop_last()).after_one(
                round.last(),
                outcomes.last().0,
                outcomes.last().1,
            )
        }
    }

    /// The executor when it is the turn of `round[i]`.
    pub open spec fn before_turn(
        self,
        round: Seq<u64>,
        outcomes: Seq<(P, bool)>,
        i: int,
    ) -> ExecView<P> {
        self.after_round(round.take(i), outcomes.take(i))
    }

    /// How many of these steps call a poller.
    pub open spec fn round_steps(self, round: Seq<u64>, outcomes: Seq<(P, bool)>) -> nat
        decreases round.len(),
    {
        if round.len() == 0 {
            0
        } else {
            self.round_steps(round.drop_last(), outcomes.drop_last()) + if self.after_round(
                round.drop_last(),
                outcomes.drop_last(),
            ).steps(round.last()) {
                1nat
            } else {
                0
            }
        }
    }

    /// The executor after `force_stop`.
    pub open spec fn after_force_stop(self, flag: int) -> ExecView<P> {
        let i = flag_pos(self.pollers, flag);
        let v = self.stopped(flag);
        if i < self.pollers.len() {
            ExecView { pollers: self.pollers.remove(i as int), ..v }
        } else {
            v
        }
    }
}

/// Pollers in ascending order of their ids, with the flags that tell which
/// have stopped.
pub struct Executor<P> {
    pollers: Vec<Entry<P>>,
    next_id: u64,
    driver_started: bool,
    manual_drive: bool,
    flags: Vec<bool>,
}

impl<P> View for Executor<P> {
    type V = ExecView<P>;

    closed spec fn view(&self) -> ExecView<P> {
        ExecView {
            pollers: self.pollers@,
            next_id: self.next_id,
            driver_started: self.driver_started,
            manual_drive: self.manual_drive,
            flags: self.flags@,
        }
    }
}

proof fn lemma_id_pos<P>(s: Seq<Entry<P>>, id: u64)
    ensures
        id_pos(s, id) <= s.len(),
        id_pos(s, id) < s.len() ==> s[id_pos(s, id) as int].id == id,
        forall|i: int| 0 <= i < id_pos(s, id) ==> (#[trigger] s[i]).id != id,
    decreases s.len(),
{
    if s.len() > 0 && s[0].id != id {
        lemma_id_pos(s.drop_first(), id);
        assert forall|i: int| 0 <= i < id_pos(s, id) implies (#[trigger] s[i]).id != id by {
            if i > 0 {
                assert(s[i] == s.drop_first()[i - 1]);
            }
        }
    }
}

proof fn lemma_id_pos_at<P>(s: Seq<Entry<P>>, id: u64, k: int)
    requires
        0 <= k <= s.len(),
        k < s.len() ==> s[k].id == id,
        forall|i: int| 0 <= i < k ==> (#[trigger] s[i]).id != id,
    ensures
        id_pos(s, id) == k,
{
    lemma_id_pos(s, id);
    let p = id_pos(s, id) as int;
    if p < k {
        assert(s[p].id != id);
    } else if p > k {
        assert(s[k].id != id);
    }
}

proof fn lemma_flag_pos<P>(s: Seq<Entry<P>>, flag: int)
    ensures
        flag_pos(s, flag) <= s.len(),
        flag_pos(s, flag) < s.len() ==> s[flag_pos(s, flag) as int].done@ == flag,
        forall|i: int| 0 <= i < flag_pos(s, flag) ==> (#[trigger] s[i]).done@ != flag,
    decreases s.len(),
{
    if s.len() > 0 && s[0].done@ != flag {
        lemma_flag_pos(s.drop_first(), flag);
        assert forall|i: int| 0 <= i < flag_pos(s, flag) implies (#[trigger] s[i]).done@
            != flag by {
            if i > 0 {
                assert(s[i] == s.drop_first()[i - 1]);
            }
        }
    }
}

proof fn lemma_place<P>(v: ExecView<P>, id: u64)
    requires
        v.valid(),
    ensures
        place(v.pollers, id) <= v.pollers.len(),
        forall|i: int| 0 <= i < place(v.pollers, id) ==> (#[trigger] v.pollers[i]).id < id,
        forall|i: int|
            place(v.pollers, id) <= i < v.pollers.len() ==> (#[trigger] v.pollers[i]).id >= id,
    decreases v.pollers.len(),
{
    let s = v.pollers;
    if s.len() > 0 && s.last().id >= id {
        let w = ExecView { pollers: s.drop_last(), ..v };
        assert(w.valid());
        lemma_place(w, id);
        assert forall|i: int| place(s, id) <= i < s.len() implies (#[trigger] s[i]).id >= id by {
            if i < s.len() - 1 {
                assert(s[i] == w.pollers[i]);
            }
        }
        assert forall|i: int| 0 <= i < place(s, id) implies (#[trigger] s[i]).id < id by {
            assert(s[i] == w.pollers[i]);
        }
    }
}

impl<P> Executor<P> {
    pub fn new() -> (r: Self)
        ensures
            r@ == (ExecView::<P> {
                pollers: Seq::empty(),
                next_id: 1,
                driver_started: false,
                manual_drive: false,
                flags: Seq::empty(),
            }),
            r@.valid(),
    {
        Executor {
            pollers: Vec::new(),
            next_id: 1,
            driver_started: false,
            manual_drive: false,
            flags: Vec::new(),
        }
    }

    /// The id of the next registration.
    pub fn next_id(&self) -> (r: u64)
        ensures
            r == self@.next_id,
    {
        self.next_id
    }

    /// A flag that is not set yet.
    pub fn new_flag(&mut self) -> (r: DoneFlag)
        ensures
            r@ == old(self)@.flags.len(),
            final(self)@ == (ExecView { flags: old(self)@.flags.push(false), ..old(self)@ }),
            old(self)@.valid() ==> final(self)@.valid(),
    {
        let index: usize = self.flags.len();
        self.flags.push(false);
        DoneFlag { index }
    }

    /// Whether a flag is one of this executor.
    pub fn owns(&self, done: DoneFlag) -> (r: bool)
        ensures
            r == self@.owns(done),
    {
        done.index < self.flags.len()
    }

    /// Whether a flag is set.
    pub fn is_done(&self, done: DoneFlag) -> (r: bool)
        requires
            self@.owns(done),
        ensures
            r == self@.flags[done@],
    {
        self.flags[done.index]
    }

    fn find_id(&self, id: u64) -> (r: usize)
        ensures
            r == id_pos(self@.pollers, id),
            r <= self@.pollers.len(),
    {
        let mut i: usize = 0;
        while i < self.pollers.len() && self.pollers[i].id != id
            invariant
                i <= self.pollers@.len(),
                forall|j: int| 0 <= j < i ==> (#[trigger] self.pollers@[j]).id != id,
            decreases self.pollers@.len() - i,
        {
            i = i + 1;
        }
        proof {
            lemma_id_pos_at(self.pollers@, id, i as int);
        }
        i
    }

    fn find_place(&self, id: u64) -> (r: usize)
        ensures
            r == place(self@.pollers, id),
            r <= self@.pollers.len(),
    {
        let mut p: usize = self.pollers.len();
        assert(self.pollers@.take(p as int) =~= self.pollers@);
        while p > 0 && self.pollers[p - 1].id >= id
            invariant
                p <= self.pollers@.len(),
                place(self.pollers@.take(p as int), id) == place(self.pollers@, id),
            decreases p,
        {
            assert(self.pollers@.take(p as int).drop_last() =~= self.pollers@.take(p - 1));
            p = p - 1;
        }
        p
    }

    /// The ids that the background driver steps in its next round: none in
    /// manual drive.
    pub fn driver_round(&self) -> (r: Vec<u64>)
        ensures
            r@ == if self@.manual_drive {
                Seq::empty()
            } else {
                ids(self@.pollers)
            },
    {
        if self.manual_drive {
            Vec::new()
        } else {
            self.all_ids()
        }
    }

    /// The ids of all pollers, in ascending order.
    pub fn all_ids(&self) -> (r: Vec<u64>)
        ensures
            r@ == ids(self@.pollers),
    {
        let mut out: Vec<u64> = Vec::new();
        let mut i: usize = 0;
        while i < self.pollers.len()
            invariant
                i <= self.pollers@.len(),
                out@ == ids(self.pollers@.take(i as int)),
            decreases self.pollers@.len() - i,
        {
            out.push(self.pollers[i].id);
            assert(out@ =~= ids(self.pollers@.take(i + 1)));
            i = i + 1;
        }
        assert(self.pollers@.take(i as int) =~= self.pollers@);
        out
    }

    /// Whether a poller can be put back: its id was given and is not there,
    /// and its flag is one of this executor.
    pub fn accepts(&self, entry: &Entry<P>) -> (r: bool)
        ensures
            r == self@.can_return(*entry),
    {
        proof {
            lemma_id_pos(self.pollers@, entry.id);
        }
        self.find_id(entry.id) == self.pollers.len() && entry.id < self.next_id && entry.done.index
            < self.flags.len()
    }

    /// Takes a poller out for its step. One whose flag is set is removed and
    /// not stepped.
    pub fn begin_step(&mut self, id: u64) -> (r: Option<Entry<P>>)
        requires
            old(self)@.valid(),
        ensures
            final(self)@ == old(self)@.without(id),
            final(self)@.valid(),
            r == if old(self)@.steps(id) {
                Some(old(self)@.entry(id))
            } else {
                None
            },
            r matches Some(entry) ==> final(self)@.can_return(entry),
    {
        proof {
            lemma_without_keeps_valid(self@, id);
            lemma_without_is_gone(self@, id);
        }
        let i: usize = self.find_id(id);
        if i == self.pollers.len() {
            return None;
        }
        let entry: Entry<P> = self.pollers.remove(i);
        assert(self@ =~= old(self)@.without(id));
        if self.flags[entry.done.index] {
            None
        } else {
            Some(entry)
        }
    }

    /// Puts a poller back after its step, or sets its flag where it has
    /// stopped. The poller is one that `begin_step` took out.
    pub fn finish_step(&mut self, entry: Entry<P>, goes_on: bool)
        requires
            old(self)@.valid(),
            old(self)@.can_return(entry),
        ensures
            final(self)@ == old(self)@.after_step(entry, goes_on),
            final(self)@.valid(),
    {
        proof {
            lemma_insert_keeps_valid(old(self)@, entry);
        }
        let flag: usize = entry.done.index;
        if goes_on && !self.flags[flag] {
            let p: usize = self.find_place(entry.id);
            self.pollers.insert(p, entry);
        } else {
            self.flags.set(flag, true);
        }
    }
}

/// Registers a poller. `done` is set once the poller has stopped for good.
pub fn register<P>(exec: &mut Executor<P>, poller: P, done: DoneFlag) -> (r: Registration)
    requires
        old(exec)@.valid(),
        old(exec)@.owns(done),
        old(exec)@.next_id < u64::MAX,
    ensures
        r.id == old(exec)@.next_id,
        r.start_driver == !old(exec)@.driver_started,
        final(exec)@ == (ExecView {
            pollers: old(exec)@.pollers.push(Entry { id: r.id, poller, done }),
            next_id: (old(exec)@.next_id + 1) as u64,
            driver_started: true,
            ..old(exec)@
        }),
        final(exec)@.valid(),
{
    let id: u64 = exec.next_id;
    exec.next_id = id + 1;
    let p: usize = exec.find_place(id);
    proof {
        lemma_place(old(exec)@, id);
        if p < old(exec)@.pollers.len() {
            assert(old(exec)@.pollers[p as int].id < id);
        }
    }
    exec.pollers.insert(p, Entry { id, poller, done });
    let start_driver: bool = !exec.driver_started;
    exec.driver_started = true;
    assert(exec@.pollers =~= old(exec)@.pollers.push(Entry { id, poller, done }));
    Registration { id, start_driver }
}

/// Removes the poller that was registered with `done` and sets the flag.
pub fn force_stop<P>(exec: &mut Executor<P>, done: DoneFlag)
    requires
        old(exec)@.owns(done),
    ensures
        final(exec)@ == old(exec)@.after_force_stop(done@),
        old(exec)@.valid() ==> final(exec)@.valid(),
{
    exec.flags.set(done.index, true);
    let ghost s = exec.pollers@;
    let mut i: usize = 0;
    while i < exec.pollers.len() && exec.pollers[i].done.index != done.index
        invariant
            i <= exec.pollers@.len(),
            s == exec.pollers@,
            forall|j: int| 0 <= j < i ==> (#[trigger] s[j]).done@ != done@,
            exec@ == old(exec)@.stopped(done@),
        decreases exec.pollers@.len() - i,
    {
        i = i + 1;
    }
    proof {
        lemma_flag_pos(s, done@);
        let p = flag_pos(s, done@) as int;
        if p < i {
            assert(s[p].done@ != done@);
        } else if p > i {
            assert(s[i as int].done@ != done@);
        }
    }
    if i < exec.pollers.len() {
        let _entry: Entry<P> = exec.pollers.remove(i);
    }
    assert(exec@ =~= old(exec)@.after_force_stop(done@));
    proof {
        if old(exec)@.valid() {
            lemma_force_stop_keeps_valid(old(exec)@, done@);
        }
    }
}

/// Pauses or resumes the background driver.
pub fn set_manual_drive<P>(exec: &mut Executor<P>, on: bool)
    ensures
        final(exec)@ == (ExecView { manual_drive: on, ..old(exec)@ }),
        old(exec)@.valid() ==> final(exec)@.valid(),
{
    exec.manual_drive = on;
}

pub fn is_manual_drive<P>(exec: &Executor<P>) -> (r: bool)
    ensures
        r == exec@.manual_drive,
{
    exec.manual_drive
}

/// How many pollers have not stopped.
pub fn live_count<P>(exec: &Executor<P>) -> (r: usize)
    ensures
        r == exec@.pollers.len(),
{
    exec.pollers.len()
}

/// Steps one poller. Also tells what its poller became and answered.
fn step_and_tell<P: Pollable>(exec: &mut Executor<P>, id: u64) -> (r: (bool, Ghost<(P, bool)>))
    requires
        old(exec)@.valid(),
    ensures
        r.0 == old(exec)@.steps(id),
        r.0 ==> exists|l: &mut P| #[trigger]
            call_ensures(P::step, (l,), r.1@.1) && *l == old(exec)@.entry(id).poller && *final(l)
                == r.1@.0,
        final(exec)@ == old(exec)@.after_one(id, r.1@.0, r.1@.1),
        final(exec)@.valid(),
{
    proof {
        lemma_id_pos(old(exec)@.pollers, id);
    }
    match exec.begin_step(id) {
        Some(entry) => {
            let mut entry: Entry<P> = entry;
            let goes_on: bool = entry.poller.step();
            let ghost p = entry.poller;
            exec.finish_step(entry, goes_on);
            proof {
                lemma_step_keeps_valid(old(exec)@, id, p, goes_on);
            }
            let r: (bool, Ghost<(P, bool)>) = (true, Ghost((p, goes_on)));
            assert(r.1@.1 == goes_on);
            r
        },
        None => (false, Ghost((vstd::pervasive::arbitrary::<P>(), false))),
    }
}

/// Steps one poller. Returns whether it was found and stepped.
///
/// The poller that has this id is stepped once. It keeps its place where it
/// goes on, else it is removed and its flag is set. One whose flag is set
/// already is removed without a step.
pub fn step_one<P: Pollable>(exec: &mut Executor<P>, id: u64) -> (r: bool)
    requires
        old(exec)@.valid(),
    ensures
        r == old(exec)@.steps(id),
        old(exec)@.steps(id) ==> exists|l: &mut P, goes_on: bool| #[trigger]
            call_ensures(P::step, (l,), goes_on) && *l == old(exec)@.entry(id).poller
                && final(exec)@ == old(exec)@.after_one(id, *final(l), goes_on),
        !old(exec)@.steps(id) ==> final(exec)@ == old(exec)@.without(id),
        final(exec)@.valid(),
{
    step_and_tell(exec, id).0
}

/// Steps every poller once, in ascending order of the ids. Returns how many
/// were stepped.
///
/// Each poller is stepped as it stands when its turn comes. Where each has a
/// flag of its own that is not set, all of them get their turn.
pub fn step_all_once<P: Pollable>(exec: &mut Executor<P>) -> (r: usize)
    requires
        old(exec)@.valid(),
    ensures
        final(exec)@.valid(),
        exists|outcomes: Seq<(P, bool)>|
            outcomes.len() == old(exec)@.pollers.len() && final(exec)@
                == #[trigger] old(exec)@.after_round(ids(old(exec)@.pollers), outcomes) && r
                == old(exec)@.round_steps(ids(old(exec)@.pollers), outcomes) && (forall|i: int|
                0 <= i < outcomes.len() && (#[trigger] old(exec)@.before_turn(
                    ids(old(exec)@.pollers),
                    outcomes,
                    i,
                )).steps(ids(old(exec)@.pollers)[i]) ==> exists|l: &mut P| #[trigger]
                    call_ensures(P::step, (l,), outcomes[i].1) && *l
                        == old(exec)@.before_turn(ids(old(exec)@.pollers), outcomes, i).entry(
                        ids(old(exec)@.pollers)[i],
                    ).poller && *final(l) == outcomes[i].0),
        all_live(old(exec)@) ==> r == old(exec)@.pollers.len() && all_live(final(exec)@)
            && exists|outcomes: Seq<(P, bool)>|
            outcomes.len() == old(exec)@.pollers.len() && final(exec)@ == (ExecView {
                pollers: #[trigger] going_on(old(exec)@.pollers, outcomes),
                flags: flags_after(old(exec)@.flags, old(exec)@.pollers, outcomes),
                ..old(exec)@
            }) && (forall|i: int|
                0 <= i < outcomes.len() && !old(exec)@.flags[(
                #[trigger] old(exec)@.pollers[i]).done@] ==> exists|l: &mut P| #[trigger]
                    call_ensures(P::step, (l,), outcomes[i].1) && *l == old(exec)@.pollers[i].poller
                        && *final(l) == outcomes[i].0),
{
    let round: Vec<u64> = exec.all_ids();
    let mut stepped: usize = 0;
    let ghost mut outcomes: Seq<(P, bool)> = Seq::empty();
    let mut i: usize = 0;
    while i < round.len()
        invariant
            stepped <= i <= round@.len(),
            outcomes.len() == i,
            exec@.valid(),
            exec@ == old(exec)@.after_round(round@.take(i as int), outcomes),
            stepped == old(exec)@.round_steps(round@.take(i as int), outcomes),
            forall|k: int|
                0 <= k < outcomes.len() && (#[trigger] old(exec)@.before_turn(
                    round@,
                    outcomes,
                    k,
                )).steps(round@[k]) ==> exists|l: &mut P| #[trigger]
                    call_ensures(P::step, (l,), outcomes[k].1) && *l
                        == old(exec)@.before_turn(round@, outcomes, k).entry(round@[k]).poller
                        && *final(l) == outcomes[k].0,
        decreases round@.len() - i,
    {
        let ghost before = outcomes;
        let ghost turn = exec@;
        let (found, Ghost(outcome)) = step_and_tell(exec, round[i]);
        proof {
            outcomes = before.push(outcome);
            assert(outcomes.drop_last() =~= before);
            assert(round@.take(i + 1).drop_last() =~= round@.take(i as int));
            assert(outcomes.take(i as int) =~= before);
            assert(old(exec)@.before_turn(round@, outcomes, i as int) == turn);
            assert forall|k: int|
                0 <= k < outcomes.len() && (#[trigger] old(exec)@.before_turn(
                    round@,
                    outcomes,
                    k,
                )).steps(round@[k]) implies exists|l: &mut P| #[trigger]
                call_ensures(P::step, (l,), outcomes[k].1) && *l == old(exec)@.before_turn(
                    round@,
                    outcomes,
                    k,
                ).entry(round@[k]).poller && *final(l) == outcomes[k].0 by {
                if k < i {
                    assert(outcomes[k] == before[k]);
                    assert(outcomes.take(k) =~= before.take(k));
                    assert(old(exec)@.before_turn(round@, outcomes, k)
                        == old(exec)@.before_turn(round@, before, k));
                } else {
                    assert(outcomes[k] == outcome);
                }
            }
        }
        if found {
            stepped = stepped + 1;
        }
        i = i + 1;
    }
    assert(round@.take(i as int) =~= round@);
    assert(ids(old(exec)@.pollers).len() == old(exec)@.pollers.len());
    proof {
        if all_live(old(exec)@) {
            lemma_round_steps_all(old(exec)@, outcomes);
            assert forall|k: int|
                0 <= k < outcomes.len() && !old(exec)@.flags[(
                #[trigger] old(exec)@.pollers[k]).done@] implies exists|l: &mut P| #[trigger]
                call_ensures(P::step, (l,), outcomes[k].1) && *l == old(exec)@.pollers[k].poller
                    && *final(l) == outcomes[k].0 by {
                assert(old(exec)@.before_turn(round@, outcomes, k).steps(round@[k]));
            }
        }
    }
    stepped
}

proof fn lemma_without_keeps_valid<P>(v: ExecView<P>, id: u64)
    requires
        v.valid(),
    ensures
        v.without(id).valid(),
{
    let w = v.without(id);
    let p = id_pos(v.pollers, id) as int;
    lemma_id_pos(v.pollers, id);
    if v.has(id) {
        assert forall|i: int| 0 <= i < w.pollers.len() implies #[trigger] w.pollers[i] == if i < p {
            v.pollers[i]
        } else {
            v.pollers[i + 1]
        } by {}
    }
}

proof fn lemma_without_is_gone<P>(v: ExecView<P>, id: u64)
    requires
        v.valid(),
    ensures
        !v.without(id).has(id),
        v.has(id) ==> v.entry(id).id == id,
{
    let w = v.without(id);
    let k = id_pos(v.pollers, id) as int;
    lemma_id_pos(v.pollers, id);
    assert forall|i: int| 0 <= i < w.pollers.len() implies (#[trigger] w.pollers[i]).id != id by {
        if i < k {
            assert(w.pollers[i] == v.pollers[i]);
        } else {
            assert(w.pollers[i] == v.pollers[i + 1]);
            assert(v.pollers[k].id < v.pollers[i + 1].id);
        }
    }
    lemma_id_pos_at(w.pollers, id, w.pollers.len() as int);
}

proof fn lemma_insert_keeps_valid<P>(v: ExecView<P>, e: Entry<P>)
    requires
        v.valid(),
        !v.has(e.id),
        e.id < v.next_id,
        v.owns(e.done),
    ensures
        v.with_entry(e).valid(),
{
    let w = v.with_entry(e);
    let p = place(v.pollers, e.id) as int;
    lemma_place(v, e.id);
    lemma_id_pos(v.pollers, e.id);
    assert forall|i: int| 0 <= i < w.pollers.len() implies #[trigger] w.pollers[i] == if i < p {
        v.pollers[i]
    } else if i == p {
        e
    } else {
        v.pollers[i - 1]
    } by {}
    assert forall|i: int, j: int| 0 <= i < j < w.pollers.len() implies (#[trigger] w.pollers[i]).id
        < (#[trigger] w.pollers[j]).id by {
        if i == p {
            assert(v.pollers[j - 1].id != e.id);
        }
    }
}

/// A step keeps an executor valid, whatever the poller answers.
pub proof fn lemma_step_keeps_valid<P>(v: ExecView<P>, id: u64, p: P, goes_on: bool)
    requires
        v.valid(),
    ensures
        v.after_one(id, p, goes_on).valid(),
{
    lemma_without_keeps_valid(v, id);
    if v.steps(id) {
        let e = v.entry(id);
        let w = v.without(id);
        lemma_without_is_gone(v, id);
        let back = Entry { id: e.id, poller: p, done: e.done };
        if goes_on && !w.flags[back.done@] {
            lemma_insert_keeps_valid(w, back);
        }
    }
}

/// `force_stop` keeps an executor valid.
pub proof fn lemma_force_stop_keeps_valid<P>(v: ExecView<P>, flag: int)
    requires
        v.valid(),
        0 <= flag < v.flags.len(),
    ensures
        v.after_force_stop(flag).valid(),
{
    let p = flag_pos(v.pollers, flag) as int;
    let w = v.after_force_stop(flag);
    lemma_flag_pos(v.pollers, flag);
    if p < v.pollers.len() {
        assert forall|i: int| 0 <= i < w.pollers.len() implies #[trigger] w.pollers[i] == if i < p {
            v.pollers[i]
        } else {
            v.pollers[i + 1]
        } by {}
    }
}

/// Whether no two pollers share a flag.
pub open spec fn distinct_flags<P>(v: ExecView<P>) -> bool {
    forall|i: int, j: int|
        0 <= i < j < v.pollers.len() ==> (#[trigger] v.pollers[i]).done@ != (
        #[trigger] v.pollers[j]).done@
}

/// After `force_stop` no poller is left under the flag, and the flag is set.
pub proof fn lemma_force_stop_removes<P>(v: ExecView<P>, flag: int)
    requires
        v.valid(),
        distinct_flags(v),
        0 <= flag < v.flags.len(),
    ensures
        v.after_force_stop(flag).flags[flag],
        forall|i: int|
            0 <= i < v.after_force_stop(flag).pollers.len() ==> (
            #[trigger] v.after_force_stop(flag).pollers[i]).done@ != flag,
{
    let p = flag_pos(v.pollers, flag) as int;
    let w = v.after_force_stop(flag);
    lemma_flag_pos(v.pollers, flag);
    assert forall|i: int| 0 <= i < w.pollers.len() implies (#[trigger] w.pollers[i]).done@
        != flag by {
        if p < v.pollers.len() {
            if i < p {
                assert(w.pollers[i] == v.pollers[i]);
            } else {
                assert(w.pollers[i] == v.pollers[i + 1]);
                assert(v.pollers[p].done@ != v.pollers[i + 1].done@);
            }
        }
    }
}

/// What a step does to the ids: the stepped poller stays in its place or is
/// gone with its flag set, and no other poller is touched. Flags are never
/// cleared.
pub proof fn lemma_step_touches_one<P>(v: ExecView<P>, id: u64, p: P, goes_on: bool, other: u64)
    requires
        v.valid(),
        other != id,
    ensures
        v.after_one(id, p, goes_on).has(other) == v.has(other),
        v.has(other) ==> v.after_one(id, p, goes_on).entry(other) == v.entry(other),
        v.has(id) && !v.after_one(id, p, goes_on).has(id) ==> v.after_one(
            id,
            p,
            goes_on,
        ).flags[v.entry(id).done@],
        forall|f: int|
            0 <= f < v.flags.len() && v.flags[f] ==> #[trigger] v.after_one(
                id,
                p,
                goes_on,
            ).flags[f],
{
    let w = v.without(id);
    let u = v.after_one(id, p, goes_on);
    let k = id_pos(v.pollers, id) as int;
    let q = id_pos(v.pollers, other) as int;
    lemma_id_pos(v.pollers, id);
    lemma_id_pos(v.pollers, other);
    lemma_without_keeps_valid(v, id);
    if v.has(id) {
        assert forall|i: int| 0 <= i < w.pollers.len() implies #[trigger] w.pollers[i] == if i < k {
            v.pollers[i]
        } else {
            v.pollers[i + 1]
        } by {}
        let q2 = if q > k {
            q - 1
        } else {
            q
        };
        assert forall|i: int| 0 <= i < q2 implies (#[trigger] w.pollers[i]).id != other by {
            if i >= k {
                assert(v.pollers[i + 1].id != other);
            }
        }
        if q < v.pollers.len() {
            lemma_id_pos_at(w.pollers, other, q2);
        } else {
            lemma_id_pos_at(w.pollers, other, w.pollers.len() as int);
        }
    }
    assert(w.has(other) == v.has(other));
    assert(v.has(other) ==> w.entry(other) == v.entry(other));
    if v.steps(id) && goes_on && !w.flags[v.entry(id).done@] {
        let e = Entry { id: v.entry(id).id, poller: p, done: v.entry(id).done };
        lemma_place(w, e.id);
        let r = place(w.pollers, e.id) as int;
        lemma_id_pos(w.pollers, other);
        let s = id_pos(w.pollers, other) as int;
        assert(u == w.with_entry(e));
        assert forall|i: int| 0 <= i < u.pollers.len() implies #[trigger] u.pollers[i] == if i < r {
            w.pollers[i]
        } else if i == r {
            e
        } else {
            w.pollers[i - 1]
        } by {}
        let s2 = if s >= r {
            s + 1
        } else {
            s
        };
        assert forall|i: int| 0 <= i < s2 implies (#[trigger] u.pollers[i]).id != other by {
            if i > r {
                assert(w.pollers[i - 1].id != other);
            }
        }
        lemma_id_pos_at(u.pollers, other, s2);
        lemma_id_pos(u.pollers, id);
        assert(u.pollers[r].id == id);
        if !u.has(id) {
            assert(u.pollers[r].id != id);
        }
    }
}

/// The pollers that go on after one turn each, as their turns left them.
pub open spec fn going_on<P>(s: Seq<Entry<P>>, outcomes: Seq<(P, bool)>) -> Seq<Entry<P>>
    decreases s.len(),
{
    if s.len() == 0 {
        Seq::empty()
    } else {
        let front = going_on(s.drop_last(), outcomes.drop_last());
        if outcomes.last().1 {
            front.push(Entry { id: s.last().id, poller: outcomes.last().0, done: s.last().done })
        } else {
            front
        }
    }
}

/// The flags after one turn each: those of the pollers that stopped are set.
pub open spec fn flags_after<P>(
    flags: Seq<bool>,
    s: Seq<Entry<P>>,
    outcomes: Seq<(P, bool)>,
) -> Seq<bool>
    decreases s.len(),
{
    if s.len() == 0 {
        flags
    } else {
        let front = flags_after(flags, s.drop_last(), outcomes.drop_last());
        if outcomes.last().1 {
            front
        } else {
            front.update(s.last().done@, true)
        }
    }
}

/// Whether each poller has a flag of its own that is not set.
pub open spec fn all_live<P>(v: ExecView<P>) -> bool {
    &&& distinct_flags(v)
    &&& forall|i: int| 0 <= i < v.pollers.len() ==> !v.flags[(#[trigger] v.pollers[i]).done@]
}

spec fn went_on<P>(v: ExecView<P>, outcomes: Seq<(P, bool)>, e: Entry<P>) -> bool {
    exists|k: int|
        0 <= k < outcomes.len() && outcomes[k].1 && (#[trigger] v.pollers[k]).id == e.id
            && v.pollers[k].done == e.done
}

proof fn lemma_going_on<P>(v: ExecView<P>, n: int, outcomes: Seq<(P, bool)>)
    requires
        v.valid(),
        all_live(v),
        0 <= n <= v.pollers.len(),
        outcomes.len() == n,
    ensures
        forall|i: int|
            0 <= i < going_on(v.pollers.take(n), outcomes).len() ==> went_on(
                v,
                outcomes,
                #[trigger] going_on(v.pollers.take(n), outcomes)[i],
            ),
        flags_after(v.flags, v.pollers.take(n), outcomes).len() == v.flags.len(),
        forall|k: int|
            0 <= k < v.pollers.len() ==> flags_after(v.flags, v.pollers.take(n), outcomes)[(
            #[trigger] v.pollers[k]).done@] == (k < n && !outcomes[k].1),
    decreases n,
{
    if n > 0 {
        let s = v.pollers.take(n);
        let front = outcomes.drop_last();
        assert(s.drop_last() =~= v.pollers.take(n - 1));
        lemma_going_on(v, n - 1, front);
        let g = going_on(s, outcomes);
        assert forall|i: int| 0 <= i < g.len() implies went_on(v, outcomes, #[trigger] g[i]) by {
            let g0 = going_on(s.drop_last(), front);
            if i < g0.len() {
                assert(g[i] == g0[i]);
                let k = choose|k: int|
                    0 <= k < n - 1 && front[k].1 && (#[trigger] v.pollers[k]).id == g0[i].id
                        && v.pollers[k].done == g0[i].done;
                assert(outcomes[k].1 && v.pollers[k].id == g[i].id);
            } else {
                assert(v.pollers[n - 1].id == g[i].id);
            }
        }
        assert forall|k: int| 0 <= k < v.pollers.len() implies flags_after(
            v.flags,
            s,
            outcomes,
        )[(#[trigger] v.pollers[k]).done@] == (k < n && !outcomes[k].1) by {
            if k < n - 1 {
                assert(v.pollers[k].done@ != v.pollers[n - 1].done@);
            } else if k > n - 1 {
                assert(v.pollers[n - 1].done@ != v.pollers[k].done@);
            }
        }
    }
}

proof fn lemma_one_turn<P>(
    w: ExecView<P>,
    front: Seq<Entry<P>>,
    rest: Seq<Entry<P>>,
    p: P,
    goes_on: bool,
)
    requires
        w.valid(),
        rest.len() > 0,
        w.pollers == front + rest,
        !w.flags[rest[0].done@],
    ensures
        w.steps(rest[0].id),
        w.entry(rest[0].id) == rest[0],
        w.after_one(rest[0].id, p, goes_on) == (ExecView {
            pollers: if goes_on {
                front.push(Entry { id: rest[0].id, poller: p, done: rest[0].done })
            } else {
                front
            } + rest.drop_first(),
            flags: if goes_on {
                w.flags
            } else {
                w.flags.update(rest[0].done@, true)
            },
            ..w
        }),
{
    let n = front.len() as int;
    let id = rest[0].id;
    assert(w.pollers[n] == rest[0]);
    lemma_id_pos_at(w.pollers, id, n);
    let u = w.without(id);
    assert(u.pollers =~= front + rest.drop_first());
    if goes_on {
        let e = Entry { id, poller: p, done: rest[0].done };
        lemma_without_keeps_valid(w, id);
        lemma_place(u, id);
        let k = place(u.pollers, id) as int;
        if k < n {
            assert(u.pollers[k] == w.pollers[k]);
        } else if k > n {
            assert(u.pollers[n] == w.pollers[n + 1]);
        }
        assert(u.pollers.insert(n, e) =~= front.push(e) + rest.drop_first());
    }
}

/// What a step comes to: a poller that goes on keeps its place, one that has
/// stopped is gone and its flag is set, and one whose flag was set is gone.
pub proof fn lemma_step_outcome<P>(v: ExecView<P>, id: u64, p: P, goes_on: bool)
    requires
        v.valid(),
        v.has(id),
    ensures
        v.steps(id) && goes_on ==> v.after_one(id, p, goes_on) == (ExecView {
            pollers: v.pollers.update(
                id_pos(v.pollers, id) as int,
                Entry { id, poller: p, done: v.entry(id).done },
            ),
            ..v
        }),
        v.steps(id) && !goes_on ==> v.after_one(id, p, goes_on) == (ExecView {
            pollers: v.pollers.remove(id_pos(v.pollers, id) as int),
            flags: v.flags.update(v.entry(id).done@, true),
            ..v
        }),
        !v.steps(id) ==> v.after_one(id, p, goes_on) == (ExecView {
            pollers: v.pollers.remove(id_pos(v.pollers, id) as int),
            ..v
        }),
        v.after_one(id, p, goes_on).has(id) == (v.steps(id) && goes_on),
{
    let k = id_pos(v.pollers, id) as int;
    lemma_id_pos(v.pollers, id);
    let front = v.pollers.take(k);
    let rest = v.pollers.skip(k);
    let e = Entry { id, poller: p, done: v.entry(id).done };
    let u = v.after_one(id, p, goes_on);
    assert(v.pollers =~= front + rest);
    if v.steps(id) {
        lemma_one_turn(v, front, rest, p, goes_on);
        assert(front.push(e) + rest.drop_first() =~= v.pollers.update(k, e));
        assert(front + rest.drop_first() =~= v.pollers.remove(k));
    }
    if v.steps(id) && goes_on {
        lemma_id_pos_at(u.pollers, id, k);
    } else {
        lemma_without_is_gone(v, id);
        assert(u.pollers == v.without(id).pollers);
    }
}

proof fn lemma_round_prefix<P>(v: ExecView<P>, n: int, outcomes: Seq<(P, bool)>)
    requires
        v.valid(),
        all_live(v),
        0 <= n <= v.pollers.len(),
        outcomes.len() == n,
    ensures
        v.after_round(ids(v.pollers).take(n), outcomes) == (ExecView {
            pollers: going_on(v.pollers.take(n), outcomes) + v.pollers.skip(n),
            flags: flags_after(v.flags, v.pollers.take(n), outcomes),
            ..v
        }),
        v.after_round(ids(v.pollers).take(n), outcomes).valid(),
        v.round_steps(ids(v.pollers).take(n), outcomes) == n,
        n < v.pollers.len() ==> {
            let w = v.after_round(ids(v.pollers).take(n), outcomes);
            let id = v.pollers[n].id;
            w.steps(id) && w.entry(id) == v.pollers[n]
        },
    decreases n,
{
    let round = ids(v.pollers).take(n);
    if n == 0 {
        assert(v.pollers.skip(0) =~= v.pollers);
    } else {
        let front = round.drop_last();
        assert(front =~= ids(v.pollers).take(n - 1));
        assert(v.pollers.take(n).drop_last() =~= v.pollers.take(n - 1));
        lemma_round_prefix(v, n - 1, outcomes.drop_last());
        lemma_going_on(v, n - 1, outcomes.drop_last());
        let w = v.after_round(front, outcomes.drop_last());
        let (p, goes_on) = outcomes.last();
        lemma_one_turn(
            w,
            going_on(v.pollers.take(n - 1), outcomes.drop_last()),
            v.pollers.skip(n - 1),
            p,
            goes_on,
        );
        lemma_step_keeps_valid(w, round.last(), p, goes_on);
        assert(v.pollers.skip(n - 1).drop_first() =~= v.pollers.skip(n));
    }
    if n < v.pollers.len() {
        lemma_going_on(v, n, outcomes);
        lemma_one_turn(
            v.after_round(round, outcomes),
            going_on(v.pollers.take(n), outcomes),
            v.pollers.skip(n),
            v.pollers[n].poller,
            true,
        );
    }
}

/// One round gives every poller its turn: where each has a flag of its own
/// that is not set, none is skipped, each is stepped as it was before the
/// round, those that go on keep their order, and the flags of the others are
/// set. So the next round finds the same.
pub proof fn lemma_round_steps_all<P>(v: ExecView<P>, outcomes: Seq<(P, bool)>)
    requires
        v.valid(),
        all_live(v),
        outcomes.len() == v.pollers.len(),
    ensures
        v.round_steps(ids(v.pollers), outcomes) == v.pollers.len(),
        v.after_round(ids(v.pollers), outcomes) == (ExecView {
            pollers: going_on(v.pollers, outcomes),
            flags: flags_after(v.flags, v.pollers, outcomes),
            ..v
        }),
        v.after_round(ids(v.pollers), outcomes).valid(),
        all_live(v.after_round(ids(v.pollers), outcomes)),
        forall|i: int|
            0 <= i < v.pollers.len() ==> {
                let turn = #[trigger] v.before_turn(ids(v.pollers), outcomes, i);
                let id = ids(v.pollers)[i];
                turn.steps(id) && turn.entry(id) == v.pollers[i]
            },
{
    let n = v.pollers.len() as int;
    assert(ids(v.pollers).take(n) =~= ids(v.pollers));
    assert(v.pollers.take(n) =~= v.pollers);
    lemma_round_prefix(v, n, outcomes);
    assert(going_on(v.pollers, outcomes) + v.pollers.skip(n) =~= going_on(v.pollers, outcomes));
    lemma_going_on(v, n, outcomes);
    let w = v.after_round(ids(v.pollers), outcomes);
    assert forall|i: int, j: int| 0 <= i < j < w.pollers.len() implies (
    #[trigger] w.pollers[i]).done@ != (#[trigger] w.pollers[j]).done@ by {
        assert(w.pollers[i].id < w.pollers[j].id);
        let a = choose|k: int|
            0 <= k < n && outcomes[k].1 && (#[trigger] v.pollers[k]).id == w.pollers[i].id
                && v.pollers[k].done == w.pollers[i].done;
        let b = choose|k: int|
            0 <= k < n && outcomes[k].1 && (#[trigger] v.pollers[k]).id == w.pollers[j].id
                && v.pollers[k].done == w.pollers[j].done;
        if b < a {
            assert(v.pollers[b].id < v.pollers[a].id);
        }
    }
    assert forall|i: int| 0 <= i < v.pollers.len() implies {
        let turn = #[trigger] v.before_turn(ids(v.pollers), outcomes, i);
        let id = ids(v.pollers)[i];
        turn.steps(id) && turn.entry(id) == v.pollers[i]
    } by {
        lemma_round_prefix(v, i, outcomes.take(i));
    }
}

/// `force_stop` removes the first poller under the flag and no other: with `k`
/// its position, those in front of it and those behind it stay as they are, in
/// their order. Where there is none, all stay. The flag is set, the other flags
/// and all else are as before.
pub proof fn lemma_force_stop_removes_one<P>(v: ExecView<P>, flag: int, k: int)
    requires
        0 <= flag < v.flags.len(),
        0 <= k <= v.pollers.len(),
        k < v.pollers.len() ==> v.pollers[k].done@ == flag,
        forall|i: int| 0 <= i < k ==> (#[trigger] v.pollers[i]).done@ != flag,
    ensures
        ({
            let w = v.after_force_stop(flag);
            &&& k == v.pollers.len() ==> w.pollers == v.pollers
            &&& k < v.pollers.len() ==> w.pollers.len() == v.pollers.len() - 1
            &&& forall|i: int| 0 <= i < k ==> #[trigger] w.pollers[i] == v.pollers[i]
            &&& forall|i: int| k < i < v.pollers.len() ==> w.pollers[i - 1] == #[trigger] v.pollers[i]
            &&& w.flags.len() == v.flags.len()
            &&& forall|f: int|
                0 <= f < v.flags.len() ==> #[trigger] w.flags[f] == (f == flag || v.flags[f])
            &&& w.next_id == v.next_id
            &&& w.driver_started == v.driver_started
            &&& w.manual_drive == v.manual_drive
        }),
{
    lemma_flag_pos(v.pollers, flag);
    let p = flag_pos(v.pollers, flag) as int;
    if p < k {
        assert(v.pollers[p].done@ != flag);
    } else if p > k {
        assert(v.pollers[k].done@ != flag);
    }
}

/// Where no two pollers share a flag, `force_stop` leaves just those whose flag
/// is another one, in their order.
pub proof fn lemma_force_stop_keeps_others<P>(v: ExecView<P>, flag: int)
    requires
        distinct_flags(v),
        0 <= flag < v.flags.len(),
    ensures
        v.after_force_stop(flag).pollers == v.pollers.filter(|e: Entry<P>| e.done@ != flag),
        forall|e: Entry<P>| #[trigger]
            v.after_force_stop(flag).pollers.contains(e) == (v.pollers.contains(e) && e.done@
                != flag),
{
    let s = v.pollers;
    let p = flag_pos(s, flag) as int;
    let keep = |e: Entry<P>| e.done@ != flag;
    lemma_flag_pos(s, flag);
    let w = v.after_force_stop(flag);
    if p < s.len() {
        let front = s.take(p);
        let back = s.skip(p + 1);
        assert(s =~= (front + seq![s[p]]) + back);
        assert(s.remove(p) =~= front + back);
        assert forall|i: int| 0 <= i < back.len() implies (#[trigger] back[i]).done@ != flag by {
            assert(back[i] == s[p + 1 + i]);
            assert(s[p].done@ != s[p + 1 + i].done@);
        }
        lemma_filter_all(front, keep);
        lemma_filter_all(back, keep);
        Seq::filter_distributes_over_add(front + seq![s[p]], back, keep);
        Seq::filter_distributes_over_add(front, seq![s[p]], keep);
        let one = seq![s[p]];
        assert(one.filter(keep) =~= Seq::empty()) by {
            reveal_with_fuel(Seq::filter, 2);
            assert(one.drop_last() =~= Seq::<Entry<P>>::empty());
            assert(one.drop_last().filter(keep) =~= Seq::<Entry<P>>::empty());
            assert(!keep(one.last()));
        }
        assert(front + Seq::<Entry<P>>::empty() =~= front);
    } else {
        lemma_filter_all(s, keep);
    }
    assert forall|e: Entry<P>| #[trigger] w.pollers.contains(e) == (v.pollers.contains(e) && e.done@
        != flag) by {
        if s.contains(e) && e.done@ != flag {
            let i = choose|i: int| 0 <= i < s.len() && s[i] == e;
            s.lemma_filter_contains(keep, i);
        }
        if w.pollers.contains(e) {
            let i = choose|i: int| 0 <= i < w.pollers.len() && w.pollers[i] == e;
            s.lemma_filter_pred(keep, i);
            s.lemma_filter_contains_rev(keep, e);
        }
    }
}

proof fn lemma_filter_all<A>(s: Seq<A>, pred: spec_fn(A) -> bool)
    requires
        forall|i: int| 0 <= i < s.len() ==> pred(#[trigger] s[i]),
    ensures
        s.filter(pred) == s,
    decreases s.len(),
{
    reveal(Seq::filter);
    if s.len() > 0 {
        assert forall|i: int| 0 <= i < s.drop_last().len() implies pred(#[trigger] s.drop_last()[i]) by {
            assert(s.drop_last()[i] == s[i]);
        }
        lemma_filter_all(s.drop_last(), pred);
        assert(pred(s[s.len() - 1]));
        assert(s =~= s.drop_last().push(s.last()));
    }
}

/// A step of the poller at position `k`, by its id: it is called where its flag
/// is not set. Then it stays at its position, as its step left it, where it
/// goes on; else it is gone and its flag is set. Where its flag was set it is
/// gone without a call. Every other poller, every other flag and all else are
/// as before.
pub proof fn lemma_step_by_position<P>(v: ExecView<P>, k: int, p: P, goes_on: bool)
    requires
        v.valid(),
        0 <= k < v.pollers.len(),
    ensures
        ({
            let e = v.pollers[k];
            let w = v.after_one(e.id, p, goes_on);
            let called = !v.flags[e.done@];
            let stays = called && goes_on;
            &&& v.steps(e.id) == called
            &&& v.has(e.id) && v.entry(e.id) == e
            &&& w.pollers.len() == v.pollers.len() - if stays {
                0int
            } else {
                1
            }
            &&& stays ==> w.pollers[k] == (Entry { id: e.id, poller: p, done: e.done })
            &&& forall|i: int| 0 <= i < k ==> #[trigger] w.pollers[i] == v.pollers[i]
            &&& forall|i: int|
                k < i < v.pollers.len() ==> #[trigger] v.pollers[i] == if stays {
                    w.pollers[i]
                } else {
                    w.pollers[i - 1]
                }
            &&& w.flags.len() == v.flags.len()
            &&& forall|f: int|
                0 <= f < v.flags.len() ==> #[trigger] w.flags[f] == (v.flags[f] || (f == e.done@
                    && called && !goes_on))
            &&& w.next_id == v.next_id
            &&& w.driver_started == v.driver_started
            &&& w.manual_drive == v.manual_drive
        }),
{
    let e = v.pollers[k];
    assert forall|i: int| 0 <= i < k implies (#[trigger] v.pollers[i]).id != e.id by {
        assert(v.pollers[i].id < v.pollers[k].id);
    }
    lemma_id_pos_at(v.pollers, e.id, k);
    lemma_step_outcome(v, e.id, p, goes_on);
}

/// A step of an id that no poller has calls nobody and changes nothing.
pub proof fn lemma_step_of_nobody<P>(v: ExecView<P>, id: u64, p: P, goes_on: bool)
    requires
        forall|i: int| 0 <= i < v.pollers.len() ==> (#[trigger] v.pollers[i]).id != id,
    ensures
        !v.steps(id),
        !v.has(id),
        v.after_one(id, p, goes_on) == v,
{
    lemma_id_pos_at(v.pollers, id, v.pollers.len() as int);
}

/// Putting a poller back after its step keeps the ids ascending, and the other
/// pollers stay as they are.
pub proof fn lemma_return_by_position<P>(v: ExecView<P>, e: Entry<P>, goes_on: bool, k: int)
    requires
        v.valid(),
        v.owns(e.done),
        0 <= k <= v.pollers.len(),
        k > 0 ==> v.pollers[k - 1].id < e.id,
        k < v.pollers.len() ==> e.id < v.pollers[k].id,
    ensures
        goes_on && !v.flags[e.done@] ==> v.after_step(e, goes_on) == (ExecView {
            pollers: v.pollers.take(k) + seq![e] + v.pollers.skip(k),
            ..v
        }),
        !(goes_on && !v.flags[e.done@]) ==> {
            let w = v.after_step(e, goes_on);
            &&& w.pollers == v.pollers
            &&& w.flags.len() == v.flags.len()
            &&& forall|f: int|
                0 <= f < v.flags.len() ==> #[trigger] w.flags[f] == (f == e.done@ || v.flags[f])
        },
{
    lemma_place(v, e.id);
    let p = place(v.pollers, e.id) as int;
    if p < k {
        assert(v.pollers[p].id <= v.pollers[k - 1].id) by {
            if p < k - 1 {
                assert(v.pollers[p].id < v.pollers[k - 1].id);
            }
        }
    } else if p > k {
        assert(v.pollers[k].id < e.id);
    }
    assert(v.pollers.insert(k, e) =~= v.pollers.take(k) + seq![e] + v.pollers.skip(k));
}

/// A round goes through the pollers in their order.
pub proof fn lemma_round_order<P>(s: Seq<Entry<P>>)
    ensures
        ids(s).len() == s.len(),
        forall|i: int| 0 <= i < s.len() ==> #[trigger] ids(s)[i] == s[i].id,
{
}

/// The turns of a round come one after the other: what the first `i` turns left
/// is what turn `i` finds, and it leaves what turn `i + 1` finds.
pub proof fn lemma_turns_follow<P>(
    v: ExecView<P>,
    round: Seq<u64>,
    outcomes: Seq<(P, bool)>,
    i: int,
)
    requires
        round.len() == outcomes.len(),
        0 <= i < round.len(),
    ensures
        v.before_turn(round, outcomes, 0) == v,
        v.before_turn(round, outcomes, i + 1) == v.before_turn(round, outcomes, i).after_one(
            round[i],
            outcomes[i].0,
            outcomes[i].1,
        ),
        v.before_turn(round, outcomes, round.len() as int) == v.after_round(round, outcomes),
{
    assert(round.take(i + 1).drop_last() =~= round.take(i));
    assert(outcomes.take(i + 1).drop_last() =~= outcomes.take(i));
    assert(round.take(round.len() as int) =~= round);
    assert(outcomes.take(round.len() as int) =~= outcomes);
}

/// A round counts its calls: each turn adds one where its poller is there and
/// its flag is not set, and nothing else does.
pub proof fn lemma_round_counts_calls<P>(
    v: ExecView<P>,
    round: Seq<u64>,
    outcomes: Seq<(P, bool)>,
    i: int,
)
    requires
        round.len() == outcomes.len(),
        0 <= i < round.len(),
    ensures
        v.round_steps(round.take(0), outcomes.take(0)) == 0,
        v.round_steps(round.take(i + 1), outcomes.take(i + 1)) == v.round_steps(
            round.take(i),
            outcomes.take(i),
        ) + if (exists|k: int|
            0 <= k < v.before_turn(round, outcomes, i).pollers.len() && (#[trigger] v.before_turn(
                round,
                outcomes,
                i,
            ).pollers[k]).id == round[i] && (forall|j: int|
                0 <= j < k ==> (#[trigger] v.before_turn(round, outcomes, i).pollers[j]).id
                    != round[i]) && !v.before_turn(round, outcomes, i).flags[v.before_turn(
                round,
                outcomes,
                i,
            ).pollers[k].done@]) {
            1int
        } else {
            0
        },
{
    assert(round.take(i + 1).drop_last() =~= round.take(i));
    assert(outcomes.take(i + 1).drop_last() =~= outcomes.take(i));
    let w = v.before_turn(round, outcomes, i);
    lemma_id_pos(w.pollers, round[i]);
    let p = id_pos(w.pollers, round[i]) as int;
    if p < w.pollers.len() {
        assert(w.pollers[p].id == round[i]);
    }
    assert forall|k: int|
        0 <= k < w.pollers.len() && (#[trigger] w.pollers[k]).id == round[i] && (forall|j: int|
            0 <= j < k ==> (#[trigger] w.pollers[j]).id != round[i]) implies k == p by {
        lemma_id_pos_at(w.pollers, round[i], k);
    }
}

/// An entry can be put back where none of the pollers has its id, the id was
/// given out before, and there is such a flag.
pub proof fn lemma_entries_that_can_return<P>(v: ExecView<P>, e: Entry<P>)
    ensures
        v.can_return(e) <==> {
            &&& forall|i: int| 0 <= i < v.pollers.len() ==> (#[trigger] v.pollers[i]).id != e.id
            &&& e.id < v.next_id
            &&& 0 <= e.done@ < v.flags.len()
        },
{
    lemma_id_pos(v.pollers, e.id);
}

} // verus!
