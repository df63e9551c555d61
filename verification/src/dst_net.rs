//! Virtual Raft network: outbound messages are buffered, sorted by a fixed key
//! and released in controlled batches, so that one seed gives one delivery
//! schedule.

use crate::delivery_log::{
    entry_text, line_text, log_line, ops, ops_sequence, summarize_log, summary, texts, Select,
};
use crate::raft_message::{
    insert_pos, is_key_less, is_sorted, lemma_sort_keeps_equal_fields, lemma_sorted_fields_ascend,
    lemma_stable_sort, msg_sort_key, same_fields, sort_key, stable_sort, RaftMessage,
};
use crate::text::join;
use vstd::multiset::Multiset;
use vstd::prelude::*;

verus! {

/// Added to the seed of a queue before it seeds the generator: "NET".
pub const NET_SEED_TAG: u64 = 0x4e4554;

/// The state after `s` of the 64-bit xorshift generator.
pub open spec fn xorshift(s: u64) -> u64 {
    let a = s ^ (s << 13);
    let b = a ^ (a >> 7);
    b ^ (b << 17)
}

/// The number that the generator gives in state `s`.
pub open spec fn draw(s: u64) -> u32 {
    (xorshift(s) >> 32) as u32
}

/// The number in `0..max` that the generator gives in state `s`; 0 where the
/// range is empty.
pub open spec fn draw_below(s: u64, max: u32) -> u32 {
    if max == 0 {
        0
    } else {
        draw(s) % max
    }
}

/// The state after a number in `0..max` was asked for.
pub open spec fn after_draw_below(s: u64, max: u32) -> u64 {
    if max == 0 {
        s
    } else {
        xorshift(s)
    }
}

/// The state that a seed gives.
pub open spec fn seeded(seed: u64) -> u64 {
    if seed == 0 {
        1
    } else {
        seed
    }
}

/// A generator that is not in state zero never gets there, so it never gets
/// stuck.
pub proof fn lemma_xorshift_never_zero(s: u64)
    requires
        s != 0,
    ensures
        xorshift(s) != 0,
{
    assert(s != 0 ==> ({
        let a = s ^ (s << 13);
        let b = a ^ (a >> 7);
        b ^ (b << 17)
    }) != 0) by (bit_vector);
}

/// A seeded xorshift generator.
#[derive(Debug)]
pub struct SeededRng {
    state: u64,
}

impl Clone for SeededRng {
    fn clone(&self) -> (r: SeededRng)
        ensures
            r@ == self@,
    {
        SeededRng { state: self.state }
    }
}

impl View for SeededRng {
    type V = u64;

    closed spec fn view(&self) -> u64 {
        self.state
    }
}

impl SeededRng {
    pub fn new(seed: u64) -> (r: Self)
        ensures
            r@ == seeded(seed),
            r@ != 0,
    {
        SeededRng {
            state: if seed == 0 {
                1
            } else {
                seed
            },
        }
    }

    pub fn next_u32(&mut self) -> (r: u32)
        ensures
            r == draw(old(self)@),
            final(self)@ == xorshift(old(self)@),
    {
        self.state = self.state ^ (self.state << 13);
        self.state = self.state ^ (self.state >> 7);
        self.state = self.state ^ (self.state << 17);
        (self.state >> 32) as u32
    }

    /// A number in `0..max`, or 0 where that range is empty.
    pub fn gen_range(&mut self, max: u32) -> (r: u32)
        ensures
            r == draw_below(old(self)@, max),
            max > 0 ==> r < max,
            final(self)@ == after_draw_below(old(self)@, max),
    {
        if max == 0 {
            return 0;
        }
        self.next_u32() % max
    }
}

/// A buffered message.
#[derive(Debug)]
pub struct Buffered {
    pub msg: RaftMessage,
    /// Steps until the message may be released; 0 means now.
    pub delay: u32,
}

/// What a network queue holds.
#[verifier::ext_equal]
pub struct NetView {
    pub buffer: Seq<Buffered>,
    pub batch_size: usize,
    pub call_count: usize,
    pub log: Seq<Seq<char>>,
    pub drop_rate_pct: u32,
    pub max_delay: u32,
    pub rng: u64,
    pub pending_release: Seq<RaftMessage>,
    pub passthrough: bool,
    pub recording: bool,
}

/// The messages that may be released, in the order in which they came.
pub open spec fn ready(buffer: Seq<Buffered>) -> Seq<RaftMessage>
    decreases buffer.len(),
{
    if buffer.len() == 0 {
        Seq::empty()
    } else if buffer.last().delay == 0 {
        ready(buffer.drop_last()).push(buffer.last().msg)
    } else {
        ready(buffer.drop_last())
    }
}

/// The messages that still wait, in the order in which they came.
pub open spec fn delayed(buffer: Seq<Buffered>) -> Seq<Buffered>
    decreases buffer.len(),
{
    if buffer.len() == 0 {
        Seq::empty()
    } else if buffer.last().delay == 0 {
        delayed(buffer.drop_last())
    } else {
        delayed(buffer.drop_last()).push(buffer.last())
    }
}

/// Messages that may be released now.
pub open spec fn undelayed(msgs: Seq<RaftMessage>) -> Seq<Buffered> {
    msgs.map_values(|m: RaftMessage| Buffered { msg: m, delay: 0 })
}

/// One message one step later.
pub open spec fn tick_one(b: Buffered) -> Buffered {
    Buffered {
        msg: b.msg,
        delay: if b.delay > 0 {
            (b.delay - 1) as u32
        } else {
            0
        },
    }
}

/// Messages with the delays that the generator in state `rng` gives them, and
/// its state after that.
pub open spec fn ingress(msgs: Seq<RaftMessage>, max_delay: u32, rng: u64) -> (Seq<Buffered>, u64)
    decreases msgs.len(),
{
    if msgs.len() == 0 {
        (Seq::empty(), rng)
    } else {
        let (front, s) = ingress(msgs.drop_last(), max_delay, rng);
        if max_delay == 0 {
            (front.push(Buffered { msg: msgs.last(), delay: 0 }), s)
        } else {
            let bound = (max_delay + 1) as u32;
            (
                front.push(Buffered { msg: msgs.last(), delay: draw_below(s, bound) }),
                after_draw_below(s, bound),
            )
        }
    }
}

impl NetView {
    /// What every queue keeps: a drop rate in percent, a generator that is not
    /// stuck, and nothing staged beside the buffer.
    pub open spec fn valid(self) -> bool {
        self.drop_rate_pct <= 100 && self.rng != 0 && self.pending_release.len() == 0
    }

    /// The queue after the delay clock has advanced by one step.
    pub open spec fn ticked(self) -> NetView {
        if self.max_delay == 0 {
            self
        } else {
            NetView { buffer: self.buffer.map_values(|b: Buffered| tick_one(b)), ..self }
        }
    }

    /// The messages that `take_sorted(n)` releases.
    pub open spec fn taken(self, n: nat) -> Seq<RaftMessage> {
        let sorted = stable_sort(ready(self.buffer));
        if n < sorted.len() {
            sorted.take(n as int)
        } else {
            sorted
        }
    }

    /// The queue after `take_sorted(n)`: what still waits, then what was ready
    /// and not released.
    pub open spec fn after_take(self, n: nat) -> NetView {
        let sorted = stable_sort(ready(self.buffer));
        let rest = if n < sorted.len() {
            sorted.skip(n as int)
        } else {
            Seq::empty()
        };
        NetView { buffer: delayed(self.buffer) + undelayed(rest), ..self }
    }

    /// Whether the next message is dropped.
    pub open spec fn drops(self) -> bool {
        self.drop_rate_pct > 0 && draw_below(self.rng, 100) < self.drop_rate_pct
    }

    /// The queue after one message was delivered or dropped.
    pub open spec fn after_one(self, m: RaftMessage) -> NetView {
        NetView {
            rng: if self.drop_rate_pct > 0 {
                xorshift(self.rng)
            } else {
                self.rng
            },
            log: if self.recording {
                self.log.push(line_text(m, self.drops()))
            } else {
                self.log
            },
            ..self
        }
    }

    /// The queue after messages were delivered or dropped, one after the other.
    pub open spec fn after_all(self, msgs: Seq<RaftMessage>) -> NetView
        decreases msgs.len(),
    {
        if msgs.len() == 0 {
            self
        } else {
            self.after_all(msgs.drop_last()).after_one(msgs.last())
        }
    }

    /// The messages that are not dropped.
    pub open spec fn survivors(self, msgs: Seq<RaftMessage>) -> Seq<RaftMessage>
        decreases msgs.len(),
    {
        if msgs.len() == 0 {
            Seq::empty()
        } else if self.after_all(msgs.drop_last()).drops() {
            self.survivors(msgs.drop_last())
        } else {
            self.survivors(msgs.drop_last()).push(msgs.last())
        }
    }

    /// The queue once a batch was buffered, before anything is released.
    pub open spec fn buffered(self, msgs: Seq<RaftMessage>) -> NetView {
        let (new, rng) = ingress(msgs, self.max_delay, self.rng);
        NetView {
            buffer: self.buffer + new,
            rng,
            pending_release: Seq::empty(),
            call_count: if self.call_count == usize::MAX {
                0
            } else {
                (self.call_count + 1) as usize
            },
            ..self
        }
    }

    /// Whether the call that buffers `msgs` also releases what is ready.
    pub open spec fn releases(self, msgs: Seq<RaftMessage>) -> bool {
        self.batch_size > 0 && ((self.call_count + 1) % self.batch_size as int == 0
            || self.buffer.len() + msgs.len() > 64)
    }

    /// Whether `before` can take a batch.
    pub open spec fn can_take(self, msgs: Seq<RaftMessage>) -> bool {
        &&& !self.passthrough && msgs.len() > 0 ==> self.max_delay < u32::MAX
        &&& !self.passthrough && self.batch_size > 0 ==> self.call_count < usize::MAX
    }

    /// The batch that the transport gets in place of `msgs`.
    pub open spec fn sent(self, msgs: Seq<RaftMessage>) -> Seq<RaftMessage> {
        if self.passthrough {
            msgs
        } else if self.releases(msgs) {
            let v = self.buffered(msgs).ticked();
            self.pending_release + v.after_take(usize::MAX as nat).survivors(
                v.taken(usize::MAX as nat),
            )
        } else {
            self.pending_release
        }
    }

    /// The queue after the transport handed it `msgs`.
    pub open spec fn after_before(self, msgs: Seq<RaftMessage>) -> NetView {
        if self.passthrough {
            self
        } else if self.releases(msgs) {
            let v = self.buffered(msgs).ticked();
            v.after_take(usize::MAX as nat).after_all(v.taken(usize::MAX as nat))
        } else {
            self.buffered(msgs)
        }
    }
}

/// Inserts a message behind all whose key is not greater.
fn insert_sorted(sorted: &mut Vec<RaftMessage>, m: RaftMessage)
    ensures
        final(sorted)@ == old(sorted)@.insert(
            insert_pos(old(sorted)@, sort_key(m)) as int,
            m,
        ),
{
    let k: (u64, u64, u64, i32, u64, u64) = msg_sort_key(&m);
    let mut p: usize = sorted.len();
    assert(sorted@.take(p as int) =~= sorted@);
    while p > 0 && is_key_less(k, msg_sort_key(&sorted[p - 1]))
        invariant
            p <= sorted@.len(),
            sorted@ == old(sorted)@,
            insert_pos(sorted@.take(p as int), k) == insert_pos(sorted@, k),
        decreases p,
    {
        assert(sorted@.take(p as int).drop_last() =~= sorted@.take(p - 1));
        assert(sorted@.take(p as int).last() == sorted@[p - 1]);
        p = p - 1;
    }
    assert(p > 0 ==> sorted@.take(p as int).last() == sorted@[p - 1]);
    assert(insert_pos(sorted@, k) == p);
    sorted.insert(p, m);
}

/// Virtual network: buffers outbound messages, sorts them by a fixed key and
/// releases them in controlled batches. The log of what was delivered is the
/// fingerprint of a run.
///
/// Each message gets a delay in `0..=max_delay` steps from the seeded
/// generator. `tick_delays` advances the delay clock once per step of the
/// schedule; `take_sorted` never does, and releases only what is ready.
#[derive(Debug)]
pub struct DstNetworkQueue {
    buffer: Vec<Buffered>,
    /// A batch is released every `batch_size` calls of `before`; 0 holds all
    /// until it is taken.
    batch_size: usize,
    call_count: usize,
    log: Vec<String>,
    drop_rate_pct: u32,
    max_delay: u32,
    rng: SeededRng,
    pending_release: Vec<RaftMessage>,
    passthrough: bool,
    recording: bool,
}

impl View for DstNetworkQueue {
    type V = NetView;

    closed spec fn view(&self) -> NetView {
        NetView {
            buffer: self.buffer@,
            batch_size: self.batch_size,
            call_count: self.call_count,
            log: texts(self.log@),
            drop_rate_pct: self.drop_rate_pct,
            max_delay: self.max_delay,
            rng: self.rng@,
            pending_release: self.pending_release@,
            passthrough: self.passthrough,
            recording: self.recording,
        }
    }
}

impl DstNetworkQueue {
    pub fn new(seed: u64, batch_size: usize) -> (r: Self)
        ensures
            r@ == (NetView {
                buffer: Seq::empty(),
                batch_size,
                call_count: 0,
                log: Seq::empty(),
                drop_rate_pct: 0,
                max_delay: 0,
                rng: seeded(seed.wrapping_add(NET_SEED_TAG)),
                pending_release: Seq::empty(),
                passthrough: false,
                recording: true,
            }),
            r@.valid(),
    {
        let r = DstNetworkQueue {
            buffer: Vec::new(),
            batch_size,
            call_count: 0,
            log: Vec::new(),
            drop_rate_pct: 0,
            max_delay: 0,
            rng: SeededRng::new(seed.wrapping_add(NET_SEED_TAG)),
            pending_release: Vec::new(),
            passthrough: false,
            recording: true,
        };
        assert(texts(r.log@) =~= Seq::empty());
        r
    }

    /// Drops `pct` percent of the messages, all of them from 100 on.
    pub fn with_drop_rate(self, pct: u32) -> (r: Self)
        ensures
            r@ == (NetView {
                drop_rate_pct: if pct > 100 {
                    100
                } else {
                    pct
                },
                ..self@
            }),
            self@.valid() ==> r@.valid(),
    {
        let mut net = self;
        net.drop_rate_pct = if pct > 100 {
            100
        } else {
            pct
        };
        net
    }

    /// Delays each message by `0..=max` steps.
    pub fn with_max_delay(self, max: u32) -> (r: Self)
        ensures
            r@ == (NetView { max_delay: max, ..self@ }),
            self@.valid() ==> r@.valid(),
    {
        let mut net = self;
        net.max_delay = max;
        net
    }

    pub fn set_passthrough(&mut self, on: bool)
        ensures
            final(self)@ == (NetView { passthrough: on, ..old(self)@ }),
            old(self)@.valid() ==> final(self)@.valid(),
    {
        self.passthrough = on;
    }

    pub fn set_recording(&mut self, on: bool)
        ensures
            final(self)@ == (NetView { recording: on, ..old(self)@ }),
            old(self)@.valid() ==> final(self)@.valid(),
    {
        self.recording = on;
    }

    pub fn clear_log(&mut self)
        ensures
            final(self)@ == (NetView { log: Seq::empty(), ..old(self)@ }),
            old(self)@.valid() ==> final(self)@.valid(),
    {
        self.log.clear();
        assert(texts(self.log@) =~= Seq::empty());
    }

    /// Advances the delay clock by one step.
    pub fn tick_delays(&mut self)
        ensures
            final(self)@ == old(self)@.ticked(),
            old(self)@.valid() ==> final(self)@.valid(),
    {
        if self.max_delay == 0 {
            return;
        }
        let n: usize = self.buffer.len();
        let mut i: usize = 0;
        while i < n
            invariant
                i <= n,
                n == self.buffer@.len(),
                n == old(self).buffer@.len(),
                self@ == (NetView { buffer: self.buffer@, ..old(self)@ }),
                forall|j: int|
                    0 <= j < i ==> #[trigger] self.buffer@[j] == tick_one(old(self).buffer@[j]),
                forall|j: int| i <= j < n ==> #[trigger] self.buffer@[j] == old(self).buffer@[j],
            decreases n - i,
        {
            let delay: u32 = self.buffer[i].delay;
            if delay > 0 {
                self.buffer[i].delay = delay - 1;
            }
            i = i + 1;
        }
        assert(self.buffer@ =~= old(self).buffer@.map_values(|b: Buffered| tick_one(b)));
    }

    /// Takes up to `n` messages that are ready, in the order of their keys.
    pub fn take_sorted(&mut self, n: usize) -> (r: Vec<RaftMessage>)
        ensures
            r@ == old(self)@.taken(n as nat),
            final(self)@ == old(self)@.after_take(n as nat),
            old(self)@.valid() ==> final(self)@.valid(),
    {
        let mut buffer: Vec<Buffered> = Vec::new();
        std::mem::swap(&mut buffer, &mut self.buffer);
        let ghost all = buffer@;
        let mut sorted: Vec<RaftMessage> = Vec::new();
        let mut kept: Vec<Buffered> = Vec::new();
        assert(all.take(0) =~= Seq::empty());
        for b in it: buffer
            invariant
                it.seq() == all,
                sorted@ == stable_sort(ready(all.take(it.index() as int))),
                kept@ == delayed(all.take(it.index() as int)),
        {
            proof {
                let i = it.index() as int;
                assert(all.take(i + 1).drop_last() =~= all.take(i));
                assert(all.take(i + 1).last() == b);
                if b.delay == 0 {
                    let r = ready(all.take(i));
                    assert(r.push(b.msg).drop_last() =~= r);
                }
            }
            if b.delay == 0 {
                insert_sorted(&mut sorted, b.msg);
            } else {
                kept.push(b);
            }
        }
        assert(all.take(all.len() as int) =~= all);
        let ghost whole = sorted@;
        let rest: Vec<RaftMessage> = if n < sorted.len() {
            sorted.split_off(n)
        } else {
            Vec::new()
        };
        let ghost waiting = kept@;
        let ghost left = rest@;
        assert(undelayed(left.take(0)) =~= Seq::empty());
        for m in it: rest
            invariant
                it.seq() == left,
                kept@ == waiting + undelayed(left.take(it.index() as int)),
        {
            proof {
                let i = it.index() as int;
                assert(undelayed(left.take(i + 1)) =~= undelayed(left.take(i)).push(
                    Buffered { msg: m, delay: 0 },
                ));
            }
            kept.push(Buffered { msg: m, delay: 0 });
        }
        assert(left.take(left.len() as int) =~= left);
        self.buffer = kept;
        assert(self@ =~= old(self)@.after_take(n as nat));
        sorted
    }

    /// How many messages are buffered.
    pub fn pending(&self) -> (r: usize)
        ensures
            r == self@.buffer.len(),
    {
        self.buffer.len()
    }

    /// How many messages still wait.
    pub fn delayed_pending(&self) -> (r: usize)
        ensures
            r == delayed(self@.buffer).len(),
    {
        let mut n: usize = 0;
        let mut i: usize = 0;
        while i < self.buffer.len()
            invariant
                n <= i <= self.buffer@.len(),
                n == delayed(self.buffer@.take(i as int)).len(),
            decreases self.buffer@.len() - i,
        {
            assert(self.buffer@.take(i + 1).drop_last() =~= self.buffer@.take(i as int));
            if self.buffer[i].delay > 0 {
                n = n + 1;
            }
            i = i + 1;
        }
        assert(self.buffer@.take(i as int) =~= self.buffer@);
        n
    }

    /// The lines of all messages that were delivered or dropped so far.
    pub fn delivery_log(&self) -> (r: Vec<String>)
        ensures
            texts(r@) == self@.log,
    {
        let mut out: Vec<String> = Vec::new();
        let mut i: usize = 0;
        while i < self.log.len()
            invariant
                i <= self.log@.len(),
                texts(out@) == texts(self.log@).take(i as int),
            decreases self.log@.len() - i,
        {
            let ghost prev = out@;
            let line: String = self.log[i].clone();
            out.push(line);
            assert(texts(out@) =~= texts(prev).push(line@));
            assert(line@ == texts(self.log@)[i as int]);
            assert(texts(out@) =~= texts(self.log@).take(i + 1));
            i = i + 1;
        }
        assert(texts(self.log@).take(i as int) =~= texts(self.log@));
        out
    }

    /// A summary of all lines but those of heartbeats and campaigns.
    pub fn log_summary_no_hb(&self) -> (r: String)
        ensures
            r@ == summary(self@.log, Select::NoNoise),
    {
        summarize_log(&self.log, Select::NoNoise)
    }

    /// A summary of the lines of the replication path.
    pub fn log_summary_app_only(&self) -> (r: String)
        ensures
            r@ == summary(self@.log, Select::AppPath),
    {
        summarize_log(&self.log, Select::AppPath)
    }

    /// The operations of the replication path in the order of their delivery.
    pub fn log_ops_sequence(&self) -> (r: String)
        ensures
            r@ == join(ops(self@.log), "|"@),
    {
        ops_sequence(&self.log)
    }

    /// Logs one message and decides whether it is dropped.
    fn deliver(&mut self, m: &RaftMessage) -> (dropped: bool)
        ensures
            dropped == old(self)@.drops(),
            final(self)@ == old(self)@.after_one(*m),
    {
        let dropped: bool = self.drop_rate_pct > 0 && self.rng.gen_range(100) < self.drop_rate_pct;
        if self.recording {
            self.log.push(log_line(m, dropped));
            assert(texts(self.log@) =~= texts(old(self).log@).push(line_text(*m, dropped)));
        }
        dropped
    }

    /// Logs the messages and returns those that are not dropped.
    pub fn record_and_filter(&mut self, msgs: Vec<RaftMessage>) -> (r: Vec<RaftMessage>)
        ensures
            r@ == old(self)@.survivors(msgs@),
            final(self)@ == old(self)@.after_all(msgs@),
            old(self)@.valid() ==> final(self)@.valid(),
    {
        let ghost all = msgs@;
        let mut out: Vec<RaftMessage> = Vec::new();
        assert(all.take(0) =~= Seq::empty());
        for m in it: msgs
            invariant
                it.seq() == all,
                out@ == old(self)@.survivors(all.take(it.index() as int)),
                self@ == old(self)@.after_all(all.take(it.index() as int)),
        {
            proof {
                let i = it.index() as int;
                assert(all.take(i + 1).drop_last() =~= all.take(i));
                assert(all.take(i + 1).last() == m);
            }
            let dropped: bool = self.deliver(&m);
            if !dropped {
                out.push(m);
            }
        }
        assert(all.take(all.len() as int) =~= all);
        proof {
            if old(self)@.valid() {
                lemma_after_all_valid(old(self)@, all);
            }
        }
        out
    }

    /// Whether `before` can take a batch: the delays can be drawn and the calls
    /// counted.
    pub fn accepts(&self, msgs: &Vec<RaftMessage>) -> (r: bool)
        ensures
            r == self@.can_take(msgs@),
    {
        self.passthrough || ((msgs.len() == 0 || self.max_delay < u32::MAX) && (self.batch_size == 0
            || self.call_count < usize::MAX))
    }

    /// Buffers a batch that is about to be sent and puts in its place what is
    /// to be sent instead. Returns whether there is anything to send, in which
    /// case the transport checks the batch.
    pub fn before(&mut self, msgs: &mut Vec<RaftMessage>) -> (r: bool)
        requires
            old(self)@.can_take(old(msgs)@),
        ensures
            final(msgs)@ == old(self)@.sent(old(msgs)@),
            final(self)@ == old(self)@.after_before(old(msgs)@),
            r == (final(msgs)@.len() > 0),
            old(self)@.valid() ==> final(self)@.valid(),
    {
        proof {
            if old(self)@.valid() {
                lemma_stays_valid(old(self)@, msgs@, 0);
            }
        }
        if self.passthrough {
            return msgs.len() > 0;
        }
        let ghost batch = msgs@;
        let mut incoming: Vec<RaftMessage> = Vec::new();
        std::mem::swap(&mut incoming, msgs);
        assert(batch.take(0) =~= Seq::empty());
        assert(old(self)@.buffer + Seq::empty() =~= old(self)@.buffer);
        for m in it: incoming
            invariant
                it.seq() == batch,
                batch.len() > 0 ==> old(self)@.max_delay < u32::MAX,
                self@ == (NetView {
                    buffer: old(self)@.buffer + ingress(
                        batch.take(it.index() as int),
                        old(self)@.max_delay,
                        old(self)@.rng,
                    ).0,
                    rng: ingress(
                        batch.take(it.index() as int),
                        old(self)@.max_delay,
                        old(self)@.rng,
                    ).1,
                    ..old(self)@
                }),
        {
            let ghost i = it.index() as int;
            assert(batch.take(i + 1).drop_last() =~= batch.take(i));
            assert(batch.take(i + 1).last() == m);
            let delay: u32 = if self.max_delay > 0 {
                self.rng.gen_range(self.max_delay + 1)
            } else {
                0
            };
            self.buffer.push(Buffered { msg: m, delay });
            assert(self@.buffer =~= old(self)@.buffer + ingress(
                batch.take(i + 1),
                old(self)@.max_delay,
                old(self)@.rng,
            ).0);
        }
        assert(batch.take(batch.len() as int) =~= batch);
        proof {
            lemma_ingress_len(batch, old(self)@.max_delay, old(self)@.rng);
        }
        msgs.append(&mut self.pending_release);
        let count: usize = self.call_count;
        self.call_count = count.wrapping_add(1);
        assert(self@ =~= old(self)@.buffered(batch));
        assert(msgs@ =~= old(self)@.pending_release);
        if self.batch_size > 0 {
            if (count + 1) % self.batch_size == 0 || self.pending() > 64 {
                self.tick_delays();
                let released: Vec<RaftMessage> = self.take_sorted(usize::MAX);
                let mut kept: Vec<RaftMessage> = self.record_and_filter(released);
                msgs.append(&mut kept);
            }
        }
        msgs.len() > 0
    }
}

proof fn lemma_ingress_len(msgs: Seq<RaftMessage>, max_delay: u32, rng: u64)
    ensures
        ingress(msgs, max_delay, rng).0.len() == msgs.len(),
    decreases msgs.len(),
{
    if msgs.len() > 0 {
        lemma_ingress_len(msgs.drop_last(), max_delay, rng);
    }
}

/// The messages of a buffer, in their order.
pub open spec fn messages(buffer: Seq<Buffered>) -> Seq<RaftMessage> {
    buffer.map_values(|b: Buffered| b.msg)
}

proof fn lemma_partition(buffer: Seq<Buffered>)
    ensures
        messages(buffer).to_multiset() == messages(delayed(buffer)).to_multiset().add(
            ready(buffer).to_multiset(),
        ),
    decreases buffer.len(),
{
    broadcast use vstd::multiset::group_multiset_axioms;

    if buffer.len() == 0 {
        assert(messages(buffer) =~= Seq::empty());
        assert(messages(delayed(buffer)) =~= Seq::empty());
        vstd::seq_lib::to_multiset_len(Seq::<RaftMessage>::empty());
        assert forall|m: RaftMessage|
            Seq::<RaftMessage>::empty().to_multiset().count(m) == 0 by {
            vstd::seq_lib::to_multiset_contains(Seq::<RaftMessage>::empty(), m);
        }
        assert(messages(buffer).to_multiset() =~= messages(delayed(buffer)).to_multiset().add(
            ready(buffer).to_multiset(),
        ));
    } else {
        let front = buffer.drop_last();
        let b = buffer.last();
        lemma_partition(front);
        assert(messages(buffer) =~= messages(front).push(b.msg));
        vstd::seq_lib::to_multiset_build(messages(front), b.msg);
        if b.delay == 0 {
            vstd::seq_lib::to_multiset_build(ready(front), b.msg);
        } else {
            assert(messages(delayed(buffer)) =~= messages(delayed(front)).push(b.msg));
            vstd::seq_lib::to_multiset_build(messages(delayed(front)), b.msg);
        }
        assert(messages(buffer).to_multiset() =~= messages(delayed(buffer)).to_multiset().add(
            ready(buffer).to_multiset(),
        ));
    }
}

/// Taking messages loses none and invents none, hands out no more than were
/// asked for, and hands them out in ascending order of their keys.
pub proof fn lemma_take_conserves(v: NetView, n: nat)
    ensures
        v.taken(n).len() <= n,
        is_sorted(v.taken(n)),
        messages(v.buffer).to_multiset() == messages(v.after_take(n).buffer).to_multiset().add(
            v.taken(n).to_multiset(),
        ),
{
    let sorted = stable_sort(ready(v.buffer));
    let rest = if n < sorted.len() {
        sorted.skip(n as int)
    } else {
        Seq::empty()
    };
    let waiting = messages(delayed(v.buffer));
    lemma_stable_sort(ready(v.buffer));
    lemma_partition(v.buffer);
    assert forall|i: int, j: int| 0 <= i < j < v.taken(n).len() implies !crate::raft_message::key_less(
        sort_key(#[trigger] v.taken(n)[j]),
        sort_key(#[trigger] v.taken(n)[i]),
    ) by {
        assert(v.taken(n)[i] == sorted[i] && v.taken(n)[j] == sorted[j]);
    }
    assert(sorted =~= v.taken(n) + rest);
    vstd::seq_lib::lemma_multiset_commutative(v.taken(n), rest);
    assert(messages(v.after_take(n).buffer) =~= waiting + rest);
    vstd::seq_lib::lemma_multiset_commutative(waiting, rest);
    broadcast use vstd::multiset::group_multiset_axioms;

    assert(messages(v.buffer).to_multiset() =~= (waiting + rest).to_multiset().add(
        v.taken(n).to_multiset(),
    ));
}

proof fn lemma_delayed_concat(a: Seq<Buffered>, b: Seq<Buffered>)
    ensures
        delayed(a + b) == delayed(a) + delayed(b),
    decreases b.len(),
{
    if b.len() == 0 {
        assert(a + b =~= a);
        assert(delayed(a) + delayed(b) =~= delayed(a));
    } else {
        lemma_delayed_concat(a, b.drop_last());
        assert((a + b).drop_last() =~= a + b.drop_last());
        assert(delayed(a + b) =~= delayed(a) + delayed(b));
    }
}

proof fn lemma_delayed_all(a: Seq<Buffered>)
    ensures
        delayed(delayed(a)) == delayed(a),
        delayed(a).len() <= a.len(),
    decreases a.len(),
{
    if a.len() > 0 {
        lemma_delayed_all(a.drop_last());
        if a.last().delay > 0 {
            assert(delayed(a).drop_last() =~= delayed(a.drop_last()));
        }
    }
}

proof fn lemma_delayed_none(msgs: Seq<RaftMessage>)
    ensures
        delayed(undelayed(msgs)).len() == 0,
    decreases msgs.len(),
{
    if msgs.len() > 0 {
        lemma_delayed_none(msgs.drop_last());
        assert(undelayed(msgs).drop_last() =~= undelayed(msgs.drop_last()));
    }
}

/// Taking messages does not advance the delay clock: what waited before waits
/// on, with the same delays.
pub proof fn lemma_take_does_not_tick(v: NetView, n: nat)
    ensures
        delayed(v.after_take(n).buffer) == delayed(v.buffer),
{
    let sorted = stable_sort(ready(v.buffer));
    let rest = if n < sorted.len() {
        sorted.skip(n as int)
    } else {
        Seq::empty()
    };
    lemma_delayed_concat(delayed(v.buffer), undelayed(rest));
    lemma_delayed_all(v.buffer);
    lemma_delayed_none(rest);
    assert(delayed(v.buffer) + delayed(undelayed(rest)) =~= delayed(v.buffer));
}

/// A step of the delay clock never makes more messages wait.
pub proof fn lemma_tick_frees(v: NetView)
    ensures
        delayed(v.ticked().buffer).len() <= delayed(v.buffer).len(),
        messages(v.ticked().buffer) == messages(v.buffer),
{
    if v.max_delay > 0 {
        lemma_tick_count(v.buffer);
        assert(messages(v.ticked().buffer) =~= messages(v.buffer));
    }
}

proof fn lemma_tick_count(buffer: Seq<Buffered>)
    ensures
        delayed(buffer.map_values(|b: Buffered| tick_one(b))).len() <= delayed(buffer).len(),
    decreases buffer.len(),
{
    if buffer.len() > 0 {
        let t = buffer.map_values(|b: Buffered| tick_one(b));
        lemma_tick_count(buffer.drop_last());
        assert(t.drop_last() =~= buffer.drop_last().map_values(|b: Buffered| tick_one(b)));
    }
}

/// The queue after `k` steps of the delay clock.
pub open spec fn ticked_times(v: NetView, k: nat) -> NetView
    decreases k,
{
    if k == 0 {
        v
    } else {
        ticked_times(v, (k - 1) as nat).ticked()
    }
}

/// Whether no message waits for more than `max` steps.
pub open spec fn delays_within(buffer: Seq<Buffered>, max: int) -> bool {
    forall|i: int| 0 <= i < buffer.len() ==> (#[trigger] buffer[i]).delay <= max
}

/// A message waits for at most `max_delay` steps.
pub proof fn lemma_ingress_within(msgs: Seq<RaftMessage>, max_delay: u32, rng: u64)
    requires
        max_delay < u32::MAX,
    ensures
        delays_within(ingress(msgs, max_delay, rng).0, max_delay as int),
        messages(ingress(msgs, max_delay, rng).0) == msgs,
    decreases msgs.len(),
{
    if msgs.len() > 0 {
        lemma_ingress_within(msgs.drop_last(), max_delay, rng);
        let front = ingress(msgs.drop_last(), max_delay, rng).0;
        let new = ingress(msgs, max_delay, rng).0;
        assert forall|i: int| 0 <= i < new.len() implies (#[trigger] new[i]).delay <= max_delay by {
            if i < front.len() {
                assert(new[i] == front[i]);
            }
        }
        assert(messages(new) =~= messages(front).push(msgs.last()));
        assert(msgs =~= msgs.drop_last().push(msgs.last()));
    } else {
        assert(messages(ingress(msgs, max_delay, rng).0) =~= msgs);
    }
}

/// After `max_delay` steps of the delay clock every message is ready.
pub proof fn lemma_all_ready_in_time(v: NetView, k: nat)
    requires
        delays_within(v.buffer, v.max_delay as int),
    ensures
        messages(ticked_times(v, k).buffer) == messages(v.buffer),
        ticked_times(v, k).max_delay == v.max_delay,
        delays_within(
            ticked_times(v, k).buffer,
            if k <= v.max_delay {
                v.max_delay - k
            } else {
                0
            },
        ),
    decreases k,
{
    if k > 0 {
        lemma_all_ready_in_time(v, (k - 1) as nat);
        let w = ticked_times(v, (k - 1) as nat);
        lemma_tick_frees(w);
        let t = w.ticked();
        let bound: int = if k <= v.max_delay {
            v.max_delay - k
        } else {
            0
        };
        assert forall|i: int| 0 <= i < t.buffer.len() implies (#[trigger] t.buffer[i]).delay
            <= bound by {
            assert(w.buffer[i].delay <= bound + 1);
        }
    }
}

proof fn lemma_no_drops(v: NetView, msgs: Seq<RaftMessage>)
    requires
        v.drop_rate_pct == 0,
    ensures
        v.survivors(msgs) == msgs,
        v.after_all(msgs).drop_rate_pct == 0,
        v.after_all(msgs).buffer == v.buffer,
    decreases msgs.len(),
{
    if msgs.len() > 0 {
        lemma_no_drops(v, msgs.drop_last());
        assert(msgs =~= msgs.drop_last().push(msgs.last()));
    } else {
        assert(v.survivors(msgs) =~= msgs);
    }
}

/// A network without drops loses no message and invents none: what is sent
/// and what is held afterwards is what came in and what was held before.
pub proof fn lemma_before_conserves(v: NetView, msgs: Seq<RaftMessage>)
    requires
        v.drop_rate_pct == 0,
        !v.passthrough,
        v.max_delay < u32::MAX,
    ensures
        v.sent(msgs).to_multiset().add(
            messages(v.after_before(msgs).buffer).to_multiset(),
        ) == v.pending_release.to_multiset().add(messages(v.buffer).to_multiset()).add(
            msgs.to_multiset(),
        ),
{
    let new = ingress(msgs, v.max_delay, v.rng).0;
    let n = usize::MAX as nat;
    let staged = v.pending_release.to_multiset();
    let held = messages(v.buffer).to_multiset();
    let came = msgs.to_multiset();
    lemma_ingress_within(msgs, v.max_delay, v.rng);
    assert(messages(v.buffer + new) =~= messages(v.buffer) + msgs);
    vstd::seq_lib::lemma_multiset_commutative(messages(v.buffer), msgs);
    if v.releases(msgs) {
        let w = v.buffered(msgs).ticked();
        lemma_tick_frees(v.buffered(msgs));
        lemma_take_conserves(w, n);
        lemma_no_drops(w.after_take(n), w.taken(n));
        vstd::seq_lib::lemma_multiset_commutative(v.pending_release, w.taken(n));
        let kept = messages(w.after_take(n).buffer).to_multiset();
        let sent = w.taken(n).to_multiset();
        assert(held.add(came) == kept.add(sent));
        lemma_regroup(staged, sent, kept, held, came);
    } else {
        lemma_regroup(staged, Multiset::empty(), held.add(came), held, came);
        assert(staged.add(Multiset::empty()) =~= staged) by {
            broadcast use vstd::multiset::group_multiset_axioms;

        }
    }
}

proof fn lemma_regroup(
    staged: Multiset<RaftMessage>,
    sent: Multiset<RaftMessage>,
    kept: Multiset<RaftMessage>,
    held: Multiset<RaftMessage>,
    came: Multiset<RaftMessage>,
)
    requires
        held.add(came) =~= kept.add(sent),
    ensures
        staged.add(sent).add(kept) == staged.add(held).add(came),
{
    broadcast use vstd::multiset::group_multiset_axioms;

    assert forall|m: RaftMessage|
        staged.add(sent).add(kept).count(m) == staged.add(held).add(came).count(m) by {
        assert(held.add(came).count(m) == kept.add(sent).count(m));
    }
    assert(staged.add(sent).add(kept) =~= staged.add(held).add(came));
}

proof fn lemma_after_all_valid(v: NetView, msgs: Seq<RaftMessage>)
    requires
        v.valid(),
    ensures
        v.after_all(msgs).valid(),
    decreases msgs.len(),
{
    if msgs.len() > 0 {
        lemma_after_all_valid(v, msgs.drop_last());
        lemma_xorshift_never_zero(v.after_all(msgs.drop_last()).rng);
    }
}

proof fn lemma_ingress_valid(msgs: Seq<RaftMessage>, max_delay: u32, rng: u64)
    requires
        rng != 0,
    ensures
        ingress(msgs, max_delay, rng).1 != 0,
    decreases msgs.len(),
{
    if msgs.len() > 0 {
        lemma_ingress_valid(msgs.drop_last(), max_delay, rng);
        lemma_xorshift_never_zero(ingress(msgs.drop_last(), max_delay, rng).1);
    }
}

/// Every operation keeps a queue valid.
pub proof fn lemma_stays_valid(v: NetView, msgs: Seq<RaftMessage>, n: nat)
    requires
        v.valid(),
    ensures
        v.ticked().valid(),
        v.after_take(n).valid(),
        v.after_all(msgs).valid(),
        v.after_before(msgs).valid(),
{
    lemma_after_all_valid(v, msgs);
    lemma_ingress_valid(msgs, v.max_delay, v.rng);
    let w = v.buffered(msgs).ticked();
    let all = usize::MAX as nat;
    lemma_after_all_valid(w.after_take(all), w.taken(all));
}

/// A batch is held back whole until its call releases, and a call that
/// releases sends only what is ready and not dropped.
pub proof fn lemma_sends_only_what_is_released(v: NetView, msgs: Seq<RaftMessage>)
    requires
        v.valid(),
        !v.passthrough,
    ensures
        !v.releases(msgs) ==> v.sent(msgs).len() == 0,
        v.releases(msgs) ==> v.sent(msgs) == v.buffered(msgs).ticked().after_take(
            usize::MAX as nat,
        ).survivors(v.buffered(msgs).ticked().taken(usize::MAX as nat)),
{
    if v.releases(msgs) {
        let w = v.buffered(msgs).ticked();
        assert(v.sent(msgs) =~= w.after_take(usize::MAX as nat).survivors(
            w.taken(usize::MAX as nat),
        ));
    }
}

/// The generator is linear over exclusive or, never stuck, and different states
/// go to different states. A draw is the upper half of the new state.
pub proof fn lemma_generator(a: u64, b: u64)
    ensures
        xorshift(a ^ b) == xorshift(a) ^ xorshift(b),
        a != b ==> xorshift(a) != xorshift(b),
        xorshift(a) == 0 <==> a == 0,
        xorshift(1) == 0x4082_2041,
        draw(a) == xorshift(a) / 0x1_0000_0000,
{
    assert(({
        let c = a ^ b;
        let x = c ^ (c << 13);
        let y = x ^ (x >> 7);
        y ^ (y << 17)
    }) == ({
        let x = a ^ (a << 13);
        let y = x ^ (x >> 7);
        y ^ (y << 17)
    }) ^ ({
        let x = b ^ (b << 13);
        let y = x ^ (x >> 7);
        y ^ (y << 17)
    })) by (bit_vector);
    assert(a != b ==> a ^ b != 0) by (bit_vector);
    if a != b {
        lemma_xorshift_never_zero(a ^ b);
        let x = xorshift(a);
        assert(x ^ x == 0) by (bit_vector);
    }
    if a != 0 {
        lemma_xorshift_never_zero(a);
    }
    assert(({
        let x = 0u64 ^ (0u64 << 13);
        let y = x ^ (x >> 7);
        y ^ (y << 17)
    }) == 0) by (bit_vector);
    assert(({
        let x = 1u64 ^ (1u64 << 13);
        let y = x ^ (x >> 7);
        y ^ (y << 17)
    }) == 0x4082_2041) by (bit_vector);
    let z = xorshift(a);
    assert((z >> 32) as u32 == z / 0x1_0000_0000) by (bit_vector);
}

/// A number below `max` is the draw modulo `max`; nothing is drawn where `max`
/// is zero. Seed zero stands for one.
pub proof fn lemma_draws_below(s: u64, max: u32)
    ensures
        max > 0 ==> draw_below(s, max) == (xorshift(s) as int / 0x1_0000_0000) % max as int,
        max > 0 ==> after_draw_below(s, max) == xorshift(s),
        max == 0 ==> draw_below(s, max) == 0 && after_draw_below(s, max) == s,
        seeded(s) == if s == 0 {
            1
        } else {
            s
        },
{
    lemma_generator(s, s);
}

/// Messages are ready where their delay is zero, and wait where it is not; both
/// in the order in which they came.
pub proof fn lemma_ready_and_delayed(buffer: Seq<Buffered>)
    ensures
        ready(buffer) == buffer.filter(|b: Buffered| b.delay == 0).map_values(|b: Buffered| b.msg),
        delayed(buffer) == buffer.filter(|b: Buffered| b.delay > 0),
    decreases buffer.len(),
{
    reveal(Seq::filter);
    let now = |b: Buffered| b.delay == 0;
    let msg = |b: Buffered| b.msg;
    if buffer.len() > 0 {
        lemma_ready_and_delayed(buffer.drop_last());
        assert(ready(buffer) =~= buffer.filter(now).map_values(msg));
    } else {
        assert(ready(buffer) =~= buffer.filter(now).map_values(msg));
        assert(delayed(buffer) =~= buffer);
    }
}

/// A step of the delay clock takes one step off every delay that is not zero,
/// and changes nothing else. Without delays it does nothing.
pub proof fn lemma_tick_counts_down(v: NetView)
    ensures
        v.max_delay == 0 ==> v.ticked() == v,
        v.max_delay > 0 ==> {
            let w = v.ticked();
            &&& w.buffer.len() == v.buffer.len()
            &&& forall|i: int|
                0 <= i < v.buffer.len() ==> (#[trigger] w.buffer[i]).msg == v.buffer[i].msg
                    && w.buffer[i].delay == if v.buffer[i].delay == 0 {
                    0
                } else {
                    v.buffer[i].delay - 1
                }
            &&& w == (NetView { buffer: w.buffer, ..v })
        },
{
}

/// Whether messages ascend by sender, receiver, region, type, term and index.
pub open spec fn fields_ascend(s: Seq<RaftMessage>) -> bool {
    forall|i: int, j: int|
        0 <= i < j < s.len() ==> {
            let x = #[trigger] s[i];
            let y = #[trigger] s[j];
            let from = x.from_store_id == y.from_store_id;
            let to = x.to_store_id == y.to_store_id;
            let region = x.region_id == y.region_id;
            let kind = x.msg_type == y.msg_type;
            let term = x.term == y.term;
            &&& x.from_store_id <= y.from_store_id
            &&& from ==> x.to_store_id <= y.to_store_id
            &&& from && to ==> x.region_id <= y.region_id
            &&& from && to && region ==> x.msg_type <= y.msg_type
            &&& from && to && region && kind ==> x.term <= y.term
            &&& from && to && region && kind && term ==> x.index <= y.index
        }
}

/// `take_sorted(n)` hands out the first `n` of the ready messages in ascending
/// order, or all where there are fewer. What waits stays in front of the queue,
/// in its order and with its delays; behind it stand the ready messages that
/// were not handed out, in ascending order. Messages that agree in all fields
/// keep the order in which they came.
pub proof fn lemma_take_in_order(v: NetView, n: nat, x: RaftMessage)
    ensures
        ({
            let w = v.after_take(n);
            let all = v.buffer.filter(|b: Buffered| b.delay == 0).map_values(|b: Buffered| b.msg);
            let waiting = v.buffer.filter(|b: Buffered| b.delay > 0);
            let left = w.buffer.skip(waiting.len() as int);
            let whole = v.taken(n) + left.map_values(|b: Buffered| b.msg);
            &&& v.taken(n).len() == if n < all.len() {
                n
            } else {
                all.len()
            }
            &&& w.buffer.len() == v.buffer.len() - v.taken(n).len()
            &&& w.buffer.take(waiting.len() as int) == waiting
            &&& forall|i: int| 0 <= i < left.len() ==> (#[trigger] left[i]).delay == 0
            &&& fields_ascend(whole)
            &&& whole.to_multiset() == all.to_multiset()
            &&& whole.filter(|m: RaftMessage| same_fields(m, x)) == all.filter(
                |m: RaftMessage| same_fields(m, x),
            )
            &&& w == (NetView { buffer: w.buffer, ..v })
        }),
{
    let w = v.after_take(n);
    let all = ready(v.buffer);
    let waiting = delayed(v.buffer);
    let sorted = stable_sort(all);
    lemma_ready_and_delayed(v.buffer);
    lemma_partition_len(v.buffer);
    lemma_stable_sort(all);
    lemma_sort_keeps_equal_fields(all, x);
    let rest = if n < sorted.len() {
        sorted.skip(n as int)
    } else {
        Seq::empty()
    };
    let left = w.buffer.skip(waiting.len() as int);
    assert(left =~= undelayed(rest));
    assert(w.buffer.take(waiting.len() as int) =~= waiting);
    assert(left.map_values(|b: Buffered| b.msg) =~= rest);
    assert(v.taken(n) + rest =~= sorted);
    lemma_fields_ascend(all);
}

proof fn lemma_fields_ascend(s: Seq<RaftMessage>)
    ensures
        fields_ascend(stable_sort(s)),
{
    lemma_stable_sort(s);
    assert forall|i: int, j: int| 0 <= i < j < s.len() implies {
        let x = #[trigger] stable_sort(s)[i];
        let y = #[trigger] stable_sort(s)[j];
        let from = x.from_store_id == y.from_store_id;
        let to = x.to_store_id == y.to_store_id;
        let region = x.region_id == y.region_id;
        let kind = x.msg_type == y.msg_type;
        let term = x.term == y.term;
        &&& x.from_store_id <= y.from_store_id
        &&& from ==> x.to_store_id <= y.to_store_id
        &&& from && to ==> x.region_id <= y.region_id
        &&& from && to && region ==> x.msg_type <= y.msg_type
        &&& from && to && region && kind ==> x.term <= y.term
        &&& from && to && region && kind && term ==> x.index <= y.index
    } by {
        lemma_sorted_fields_ascend(s, i, j);
    }
}

proof fn lemma_partition_len(buffer: Seq<Buffered>)
    ensures
        ready(buffer).len() + delayed(buffer).len() == buffer.len(),
    decreases buffer.len(),
{
    if buffer.len() > 0 {
        lemma_partition_len(buffer.drop_last());
    }
}

/// Each message that comes in gets the next number of the generator as its
/// delay, in `0..=max_delay`; nothing is drawn where there are no delays.
pub proof fn lemma_ingress_in_order(msgs: Seq<RaftMessage>, max_delay: u32, rng: u64, i: int)
    requires
        0 <= i < msgs.len(),
        max_delay < u32::MAX,
    ensures
        ingress(msgs, max_delay, rng).0.len() == msgs.len(),
        ({
            let b = ingress(msgs, max_delay, rng).0[i];
            let s = ingress(msgs.take(i), max_delay, rng).1;
            &&& b.msg == msgs[i]
            &&& b.delay == if max_delay == 0 {
                0int
            } else {
                (xorshift(s) as int / 0x1_0000_0000) % (max_delay + 1)
            }
            &&& ingress(msgs.take(i + 1), max_delay, rng).1 == if max_delay == 0 {
                s
            } else {
                xorshift(s)
            }
        }),
        ingress(msgs.take(0), max_delay, rng).1 == rng,
        ingress(msgs.take(msgs.len() as int), max_delay, rng).1 == ingress(
            msgs,
            max_delay,
            rng,
        ).1,
    decreases msgs.len(),
{
    lemma_ingress_len(msgs, max_delay, rng);
    lemma_ingress_len(msgs.drop_last(), max_delay, rng);
    assert(msgs.take(msgs.len() as int) =~= msgs);
    assert(msgs.take(i + 1).drop_last() =~= msgs.take(i));
    let s = ingress(msgs.take(i), max_delay, rng).1;
    if max_delay > 0 {
        lemma_draws_below(s, (max_delay + 1) as u32);
    }
    if i < msgs.len() - 1 {
        let front = msgs.drop_last();
        lemma_ingress_in_order(front, max_delay, rng, i);
        assert(front.take(i) =~= msgs.take(i));
        assert(ingress(msgs, max_delay, rng).0[i] == ingress(front, max_delay, rng).0[i]);
    } else {
        assert(msgs.take(i) =~= msgs.drop_last());
    }
}

/// A message is dropped where the next draw below a hundred is below the rate:
/// never at rate zero, always at rate one hundred, and at a higher rate
/// wherever it is at a lower one.
pub proof fn lemma_drop_rate(v: NetView, higher: u32)
    requires
        v.drop_rate_pct <= higher,
    ensures
        v.drops() == (v.drop_rate_pct > 0 && (xorshift(v.rng) as int / 0x1_0000_0000) % 100
            < v.drop_rate_pct),
        v.drop_rate_pct == 0 ==> !v.drops(),
        v.drop_rate_pct >= 100 ==> v.drops(),
        v.drops() ==> (NetView { drop_rate_pct: higher, ..v }).drops(),
{
    lemma_draws_below(v.rng, 100);
}

/// Messages are delivered one after the other: each is dropped or survives by
/// the next draw, and is logged under its own line, with a mark where it was
/// dropped, as long as recording is on. Only the log and the generator change.
pub proof fn lemma_deliveries_in_order(v: NetView, msgs: Seq<RaftMessage>, i: int)
    requires
        0 <= i < msgs.len(),
    ensures
        v.after_all(msgs.take(0)) == v,
        v.survivors(msgs.take(0)).len() == 0,
        ({
            let s = v.after_all(msgs.take(i));
            let t = v.after_all(msgs.take(i + 1));
            let m = msgs[i];
            let gone = v.drop_rate_pct > 0 && (xorshift(s.rng) as int / 0x1_0000_0000) % 100
                < v.drop_rate_pct;
            &&& v.survivors(msgs.take(i + 1)) == if gone {
                v.survivors(msgs.take(i))
            } else {
                v.survivors(msgs.take(i)).push(m)
            }
            &&& t.log == if v.recording {
                s.log.push(
                    if gone {
                        seq!['D', 'R', 'O', 'P', ':'] + entry_text(m)
                    } else {
                        entry_text(m)
                    },
                )
            } else {
                s.log
            }
            &&& t.rng == if v.drop_rate_pct > 0 {
                xorshift(s.rng)
            } else {
                s.rng
            }
            &&& t == (NetView { log: t.log, rng: t.rng, ..v })
        }),
        v.after_all(msgs.take(msgs.len() as int)) == v.after_all(msgs),
        v.survivors(msgs.take(msgs.len() as int)) == v.survivors(msgs),
{
    assert(msgs.take(msgs.len() as int) =~= msgs);
    assert(msgs.take(i + 1).drop_last() =~= msgs.take(i));
    lemma_after_all_frame(v, msgs.take(i));
    let s = v.after_all(msgs.take(i));
    lemma_draws_below(s.rng, 100);
}

proof fn lemma_after_all_frame(v: NetView, msgs: Seq<RaftMessage>)
    ensures
        v.after_all(msgs) == (NetView {
            log: v.after_all(msgs).log,
            rng: v.after_all(msgs).rng,
            ..v
        }),
    decreases msgs.len(),
{
    if msgs.len() > 0 {
        lemma_after_all_frame(v, msgs.drop_last());
    }
}

/// Whether a call is one of those that release: every `batch_size`-th one, and
/// any that makes the backlog longer than sixty-four messages.
pub open spec fn is_release_call(v: NetView, msgs: Seq<RaftMessage>) -> bool {
    v.batch_size > 0 && ((exists|k: int|
        k >= 1 && v.call_count + 1 == #[trigger] (k * v.batch_size)) || v.buffer.len() + msgs.len()
        >= 65)
}

proof fn lemma_release_calls(v: NetView, msgs: Seq<RaftMessage>)
    ensures
        v.releases(msgs) == is_release_call(v, msgs),
{
    if v.batch_size > 0 {
        let b = v.batch_size as int;
        let c = v.call_count + 1;
        if c % b == 0 {
            vstd::arithmetic::div_mod::lemma_fundamental_div_mod(c, b);
            let k = c / b;
            vstd::arithmetic::mul::lemma_mul_is_commutative(b, k);
            assert(c == k * b);
            assert(k >= 1) by (nonlinear_arith)
                requires
                    c == k * b,
                    c >= 1,
                    b >= 1,
            ;
        }
        assert forall|k: int| k >= 1 && c == #[trigger] (k * b) implies c % b == 0 by {
            vstd::arithmetic::div_mod::lemma_mod_multiples_basic(k, b);
        }
    }
}

/// Every `batch_size`-th call releases: where the number of the call is any
/// multiple of the batch size, all that is ready after one step of the delay
/// clock is taken out of the queue, and only what still waits is left. So does
/// a call that makes the backlog longer than sixty-four messages.
pub proof fn lemma_every_batch_is_released(v: NetView, msgs: Seq<RaftMessage>, k: int)
    requires
        !v.passthrough,
        v.max_delay < u32::MAX,
        v.batch_size > 0,
        v.buffer.len() + msgs.len() <= usize::MAX,
        (k >= 1 && v.call_count + 1 == k * v.batch_size) || v.buffer.len() + msgs.len() > 64,
    ensures
        ({
            let w = v.after_before(msgs);
            let held = v.buffer + ingress(msgs, v.max_delay, v.rng).0;
            &&& forall|i: int| 0 <= i < w.buffer.len() ==> (#[trigger] w.buffer[i]).delay > 0
            &&& v.max_delay > 0 ==> w.buffer == held.filter(
                |b: Buffered| b.delay > 1,
            ).map_values(|b: Buffered| Buffered { msg: b.msg, delay: (b.delay - 1) as u32 })
            &&& v.max_delay == 0 ==> w.buffer == held.filter(|b: Buffered| b.delay > 0)
            &&& v.max_delay == 0 && delays_within(v.buffer, 0) ==> w.buffer.len() == 0
            &&& v.drop_rate_pct == 0 ==> v.sent(msgs).len() == v.pending_release.len() + held.len()
                - w.buffer.len()
            &&& v.drop_rate_pct == 0 && v.pending_release.len() == 0 ==> fields_ascend(v.sent(msgs))
        }),
{
    let w = v.after_before(msgs);
    let t = v.buffered(msgs).ticked();
    let held = v.buffer + ingress(msgs, v.max_delay, v.rng).0;
    let n = usize::MAX as nat;
    assert(is_release_call(v, msgs));
    lemma_release_calls(v, msgs);
    lemma_ingress_len(msgs, v.max_delay, v.rng);
    lemma_after_all_frame(t.after_take(n), t.taken(n));
    lemma_ready_and_delayed(t.buffer);
    lemma_partition_len(t.buffer);
    lemma_stable_sort(ready(t.buffer));
    assert(w.buffer == t.after_take(n).buffer);
    assert(w.buffer =~= delayed(t.buffer));
    assert forall|i: int| 0 <= i < w.buffer.len() implies (#[trigger] w.buffer[i]).delay > 0 by {
        t.buffer.lemma_filter_pred(|b: Buffered| b.delay > 0, i);
    }
    if v.max_delay > 0 {
        lemma_ticked_filter(held);
    } else if delays_within(v.buffer, 0) {
        lemma_ingress_within(msgs, v.max_delay, v.rng);
        if w.buffer.len() > 0 {
            let keep = |b: Buffered| b.delay > 0;
            assert(w.buffer[0].delay > 0);
            held.lemma_filter_contains_rev(keep, w.buffer[0]);
            let i = choose|i: int| 0 <= i < held.len() && held[i] == w.buffer[0];
            if i < v.buffer.len() {
                assert(held[i] == v.buffer[i]);
            } else {
                assert(held[i] == ingress(msgs, v.max_delay, v.rng).0[i - v.buffer.len()]);
            }
        }
    }
    if v.drop_rate_pct == 0 {
        lemma_no_drops(t.after_take(n), t.taken(n));
        if v.pending_release.len() == 0 {
            assert(v.sent(msgs) =~= t.taken(n));
            let all = ready(t.buffer);
            assert(t.taken(n) == stable_sort(all));
            lemma_fields_ascend(all);
        }
    }
}

proof fn lemma_ticked_filter(buffer: Seq<Buffered>)
    ensures
        buffer.map_values(|b: Buffered| tick_one(b)).filter(|b: Buffered| b.delay > 0)
            == buffer.filter(|b: Buffered| b.delay > 1).map_values(
            |b: Buffered| Buffered { msg: b.msg, delay: (b.delay - 1) as u32 },
        ),
    decreases buffer.len(),
{
    reveal(Seq::filter);
    let tick = |b: Buffered| tick_one(b);
    let down = |b: Buffered| Buffered { msg: b.msg, delay: (b.delay - 1) as u32 };
    let t = buffer.map_values(tick);
    let many = |b: Buffered| b.delay > 1;
    let some = |b: Buffered| b.delay > 0;
    if buffer.len() > 0 {
        let front = buffer.drop_last();
        lemma_ticked_filter(front);
        assert(t.drop_last() =~= front.map_values(tick));
        assert(t.filter(some) =~= buffer.filter(many).map_values(down));
    } else {
        assert(t.filter(some) =~= buffer.filter(many).map_values(down));
    }
}

/// Between the releases a batch is held back whole: where the number of the
/// call is no multiple of the batch size and no more than sixty-four messages
/// are buffered, or where there is no batch size, nothing is sent but what was
/// staged, and the messages join the queue behind those that are there.
pub proof fn lemma_batches_are_held(v: NetView, msgs: Seq<RaftMessage>)
    requires
        !v.passthrough,
        v.batch_size == 0 || (v.buffer.len() + msgs.len() <= 64 && forall|k: int|
            v.call_count + 1 != #[trigger] (k * v.batch_size)),
    ensures
        v.sent(msgs) == v.pending_release,
        v.after_before(msgs).buffer == v.buffer + ingress(msgs, v.max_delay, v.rng).0,
        v.after_before(msgs).buffer.len() == v.buffer.len() + msgs.len(),
        v.after_before(msgs).log == v.log,
{
    lemma_release_calls(v, msgs);
    lemma_ingress_len(msgs, v.max_delay, v.rng);
}

/// Every call is counted, and with passthrough a call leaves the batch and the
/// queue alone. The settings of a queue never change by a call.
pub proof fn lemma_calls_are_counted(v: NetView, msgs: Seq<RaftMessage>)
    ensures
        v.passthrough ==> v.sent(msgs) == msgs && v.after_before(msgs) == v,
        !v.passthrough && v.call_count < usize::MAX ==> v.after_before(msgs).call_count
            == v.call_count + 1,
        !v.passthrough ==> v.after_before(msgs).pending_release.len() == 0,
        v.after_before(msgs).batch_size == v.batch_size,
        v.after_before(msgs).drop_rate_pct == v.drop_rate_pct,
        v.after_before(msgs).max_delay == v.max_delay,
        v.after_before(msgs).passthrough == v.passthrough,
        v.after_before(msgs).recording == v.recording,
{
    let t = v.buffered(msgs).ticked();
    let n = usize::MAX as nat;
    lemma_after_all_frame(t.after_take(n), t.taken(n));
}

/// Calls number one to `batch_size` make a batch, and so do the next ones: the
/// messages of the calls since the last release come out together. After any
/// number of calls that hold, a call whose number is a multiple of the batch
/// size sends all that came in, in ascending order.
pub proof fn lemma_release_sends_all(v: NetView, msgs: Seq<RaftMessage>, k: int)
    requires
        !v.passthrough,
        v.max_delay == 0,
        v.drop_rate_pct == 0,
        v.pending_release.len() == 0,
        delays_within(v.buffer, 0),
        v.batch_size > 0,
        v.buffer.len() + msgs.len() <= usize::MAX,
        k >= 1,
        v.call_count + 1 == k * v.batch_size,
    ensures
        v.sent(msgs).to_multiset() == (v.buffer.map_values(|b: Buffered| b.msg)
            + msgs).to_multiset(),
        fields_ascend(v.sent(msgs)),
        v.after_before(msgs).buffer.len() == 0,
{
    broadcast use vstd::multiset::group_multiset_axioms;

    lemma_every_batch_is_released(v, msgs, k);
    lemma_before_conserves(v, msgs);
    let w = v.after_before(msgs);
    let held = messages(v.buffer);
    assert(held =~= v.buffer.map_values(|b: Buffered| b.msg));
    lemma_none(messages(w.buffer));
    lemma_none(v.pending_release);
    vstd::seq_lib::lemma_multiset_commutative(held, msgs);
    let sent = v.sent(msgs).to_multiset();
    let none = Multiset::<RaftMessage>::empty();
    let both = held.to_multiset().add(msgs.to_multiset());
    assert(sent.add(none) == none.add(held.to_multiset()).add(msgs.to_multiset()));
    assert forall|m: RaftMessage| sent.count(m) == both.count(m) by {
        assert(sent.add(none).count(m) == none.add(held.to_multiset()).add(
            msgs.to_multiset(),
        ).count(m));
    }
    assert(sent =~= both);
}

proof fn lemma_none<A>(s: Seq<A>)
    requires
        s.len() == 0,
    ensures
        s.to_multiset() == Multiset::<A>::empty(),
{
    broadcast use vstd::multiset::group_multiset_axioms;

    vstd::seq_lib::to_multiset_len(s);
    assert forall|a: A| s.to_multiset().count(a) == 0 by {
        vstd::seq_lib::to_multiset_contains(s, a);
    }
    assert(s.to_multiset() =~= Multiset::empty());
}

/// A queue takes every batch until a counter is full: the delays need room
/// above the longest one, and the calls are counted while batches are held.
pub proof fn lemma_batches_that_can_be_taken(v: NetView, msgs: Seq<RaftMessage>)
    ensures
        v.passthrough ==> v.can_take(msgs),
        v.max_delay < 0xffff_ffff && v.call_count < usize::MAX ==> v.can_take(msgs),
        v.batch_size == 0 && msgs.len() == 0 ==> v.can_take(msgs),
        v.batch_size == 0 && v.max_delay < 0xffff_ffff ==> v.can_take(msgs),
{
}

/// The generator of a network starts from its seed plus a tag, in 64 bits, or
/// from one where that is zero. So different seeds give different starts, but
/// for the one seed that leads to zero.
pub proof fn lemma_start_of_generator(seed: u64, other: u64)
    ensures
        ({
            let start = seeded(seed.wrapping_add(NET_SEED_TAG));
            let sum = (seed + 0x4e_4554) % 0x1_0000_0000_0000_0000;
            &&& start != 0
            &&& sum != 0 ==> start == sum
            &&& sum == 0 ==> start == 1
            &&& seed != other && sum > 1 ==> start != seeded(other.wrapping_add(NET_SEED_TAG))
        }),
{
}

} // verus!
