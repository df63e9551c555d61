//! The delivery log of the virtual network: one line per message, and
//! summaries that serve as fingerprints of a run.

use crate::raft_message::RaftMessage;
use crate::text::{
    append_decimal, append_signed_decimal, chars_compare, chars_less, chars_of, decimal, field_at,
    join, join_next, lemma_chars_less_irreflexive, lemma_chars_less_total,
    lemma_chars_less_transitive, lemma_decimal_injective, lemma_find_first,
    lemma_parse_signed_decimal, lemma_rfind_last, lemma_signed_decimal_chars, lemma_split_first,
    parse_i32, parse_i32_at, rfind, rfind_at, signed_decimal, split, string_of,
};
use vstd::prelude::*;
use vstd::string::*;

verus! {

/// Raft message types that log summaries tell apart.
pub const MSG_HUP: i32 = 0;

pub const MSG_APP: i32 = 3;

pub const MSG_APP_RESP: i32 = 4;

pub const MSG_HEARTBEAT: i32 = 8;

pub const MSG_HEARTBEAT_RESP: i32 = 9;

/// What a line for a dropped message starts with.
pub open spec fn drop_mark() -> Seq<char> {
    seq!['D', 'R', 'O', 'P', ':']
}

/// Whether a line is for a dropped message.
pub open spec fn is_dropped(line: Seq<char>) -> bool {
    line.len() >= 5 && line.take(5) == drop_mark()
}

/// A line without its drop mark, if it has one.
pub open spec fn unmarked(line: Seq<char>) -> Seq<char> {
    if is_dropped(line) {
        line.skip(5)
    } else {
        line
    }
}

/// The line for a message: `from>to:region:type:term:index`.
pub open spec fn entry_text(m: RaftMessage) -> Seq<char> {
    (decimal(m.from_store_id as nat).push('>') + decimal(m.to_store_id as nat)).push(':') + (decimal(
        m.region_id as nat,
    ).push(':') + (signed_decimal(m.msg_type as int).push(':') + (decimal(m.term as nat).push(':')
        + decimal(m.index as nat))))
}

/// The message type that a line names in its third field, if it does.
pub open spec fn entry_msg_type(line: Seq<char>) -> Option<i32> {
    let fields = split(unmarked(line), ':');
    if fields.len() < 3 {
        None
    } else {
        parse_i32(fields[2])
    }
}

/// Whether a line is for a heartbeat or a campaign.
pub open spec fn is_noise(line: Seq<char>) -> bool {
    match entry_msg_type(line) {
        Some(t) => t == MSG_HUP || t == MSG_HEARTBEAT || t == MSG_HEARTBEAT_RESP,
        None => false,
    }
}

/// Whether a line is for replication of client writes.
pub open spec fn is_app_path(line: Seq<char>) -> bool {
    match entry_msg_type(line) {
        Some(t) => t == MSG_APP || t == MSG_APP_RESP,
        None => false,
    }
}

fn mark_len(chars: &Vec<char>) -> (r: usize)
    ensures
        r == if is_dropped(chars@) {
            5int
        } else {
            0
        },
        chars@.skip(r as int) == unmarked(chars@),
        r <= chars@.len(),
{
    assert(chars@.skip(0) =~= chars@);
    if chars.len() >= 5 && chars[0] == 'D' && chars[1] == 'R' && chars[2] == 'O' && chars[3] == 'P'
        && chars[4] == ':' {
        assert(chars@.take(5) =~= drop_mark());
        5
    } else {
        proof {
            if is_dropped(chars@) {
                let t = chars@.take(5);
                assert(t[0] == 'D' && t[1] == 'R' && t[2] == 'O' && t[3] == 'P' && t[4] == ':');
            }
        }
        0
    }
}

fn msg_type_of(chars: &Vec<char>) -> (r: Option<i32>)
    ensures
        r == entry_msg_type(chars@),
{
    let start: usize = mark_len(chars);
    match field_at(chars, start, ':', 2) {
        Some((from, to)) => parse_i32_at(chars, from, to),
        None => None,
    }
}

/// The message type that a log line names.
pub fn log_entry_msg_type(entry: &str) -> (r: Option<i32>)
    ensures
        r == entry_msg_type(entry@),
{
    msg_type_of(&chars_of(entry))
}

/// Heartbeats and campaigns: driven by timers, not by client writes.
pub fn is_noise_log_entry(entry: &str) -> (r: bool)
    ensures
        r == is_noise(entry@),
{
    match log_entry_msg_type(entry) {
        Some(t) => t == MSG_HUP || t == MSG_HEARTBEAT || t == MSG_HEARTBEAT_RESP,
        None => false,
    }
}

/// Replication of client writes only.
pub fn is_app_path_log_entry(entry: &str) -> (r: bool)
    ensures
        r == is_app_path(entry@),
{
    match log_entry_msg_type(entry) {
        Some(t) => t == MSG_APP || t == MSG_APP_RESP,
        None => false,
    }
}

/// Appends the line for a message.
pub fn append_entry(out: &mut String, m: &RaftMessage)
    ensures
        final(out)@ == old(out)@ + entry_text(*m),
{
    append_decimal(out, m.from_store_id);
    out.push('>');
    append_decimal(out, m.to_store_id);
    out.push(':');
    append_decimal(out, m.region_id);
    out.push(':');
    append_signed_decimal(out, m.msg_type);
    out.push(':');
    append_decimal(out, m.term);
    out.push(':');
    append_decimal(out, m.index);
    assert(out@ =~= old(out)@ + entry_text(*m));
}

/// The line that is logged for a message.
pub fn log_line(m: &RaftMessage, dropped: bool) -> (r: String)
    ensures
        r@ == line_text(*m, dropped),
{
    let mut out: String = String::new();
    if dropped {
        out.append("DROP:");
        proof {
            reveal_strlit("DROP:");
            assert(out@ =~= drop_mark());
        }
    }
    append_entry(&mut out, m);
    assert(out@ =~= line_text(*m, dropped));
    out
}

/// The line that is logged for a message.
pub open spec fn line_text(m: RaftMessage, dropped: bool) -> Seq<char> {
    if dropped {
        drop_mark() + entry_text(m)
    } else {
        entry_text(m)
    }
}

/// The line of a message tells whether it was dropped and which type it has.
pub proof fn lemma_line_tells_message(m: RaftMessage, dropped: bool)
    ensures
        is_dropped(line_text(m, dropped)) == dropped,
        unmarked(line_text(m, dropped)) == entry_text(m),
        entry_msg_type(line_text(m, dropped)) == Some(m.msg_type),
{
    let line = line_text(m, dropped);
    let head = decimal(m.from_store_id as nat).push('>') + decimal(m.to_store_id as nat);
    let region = decimal(m.region_id as nat);
    let kind = signed_decimal(m.msg_type as int);
    let term = decimal(m.term as nat);
    let index = decimal(m.index as nat);
    lemma_signed_decimal_chars(m.from_store_id as int, ':');
    lemma_signed_decimal_chars(m.to_store_id as int, ':');
    lemma_signed_decimal_chars(m.region_id as int, ':');
    lemma_signed_decimal_chars(m.msg_type as int, ':');
    lemma_signed_decimal_chars(m.term as int, ':');
    lemma_signed_decimal_chars(m.index as int, ':');
    lemma_signed_decimal_chars(m.from_store_id as int, 'D');
    if dropped {
        assert(line.take(5) =~= drop_mark());
        assert(line.skip(5) =~= entry_text(m));
    } else {
        crate::text::lemma_decimal(m.from_store_id as nat);
        assert(line[0] == decimal(m.from_store_id as nat)[0]);
        if is_dropped(line) {
            assert(line.take(5)[0] == 'D');
            assert(crate::text::is_digit(decimal(m.from_store_id as nat)[0]));
        }
    }
    assert(!head.contains(':')) by {
        assert forall|i: int| 0 <= i < head.len() implies head[i] != ':' by {
            let n = decimal(m.from_store_id as nat).len();
            if i < n {
                assert(head[i] == decimal(m.from_store_id as nat)[i]);
            } else if i > n {
                assert(head[i] == decimal(m.to_store_id as nat)[i - n - 1]);
            }
        }
    }
    let tail = term.push(':') + index;
    lemma_split_first(head, ':', region.push(':') + (kind.push(':') + tail));
    lemma_split_first(region, ':', kind.push(':') + tail);
    lemma_split_first(kind, ':', tail);
    lemma_parse_signed_decimal(m.msg_type);
    let f3 = seq![kind] + split(tail, ':');
    let f2 = seq![region] + f3;
    assert((seq![head] + f2)[2] == f3[0]);
}

/// A line without its last two fields; the whole line where it has fewer than
/// three.
pub open spec fn base_of(line: Seq<char>) -> Seq<char> {
    let last = rfind(line, ':', line.len() as int);
    let before = rfind(line, ':', last);
    if last < 0 || before < 0 {
        line
    } else {
        line.take(before)
    }
}

/// What summaries count a line under: the line without term and index.
pub open spec fn group_key(line: Seq<char>) -> Seq<char> {
    if is_dropped(line) {
        drop_mark() + base_of(line.skip(5))
    } else {
        base_of(line)
    }
}

proof fn lemma_rfind_at_end(a: Seq<char>, sep: char, b: Seq<char>, to: int)
    requires
        !b.contains(sep),
        a.len() < to <= a.len() + 1 + b.len(),
    ensures
        rfind(a.push(sep) + b, sep, to) == a.len(),
    decreases to,
{
    let s = a.push(sep) + b;
    if to == a.len() + 1 {
        assert(s[to - 1] == sep);
    } else {
        assert(s[to - 1] == b[to - 2 - a.len()]);
        lemma_rfind_at_end(a, sep, b, to - 1);
    }
}

/// Lines of one sender, receiver, region and type are counted together: their
/// key is the line without term and index.
pub proof fn lemma_group_key_of_message(m: RaftMessage, dropped: bool)
    ensures
        group_key(line_text(m, dropped)) == (if dropped {
            drop_mark()
        } else {
            Seq::empty()
        }) + ((decimal(m.from_store_id as nat).push('>') + decimal(m.to_store_id as nat)).push(':')
            + (decimal(m.region_id as nat).push(':') + signed_decimal(m.msg_type as int))),
{
    lemma_line_tells_message(m, dropped);
    let line = entry_text(m);
    let base = (decimal(m.from_store_id as nat).push('>') + decimal(m.to_store_id as nat)).push(':')
        + (decimal(m.region_id as nat).push(':') + signed_decimal(m.msg_type as int));
    let term = decimal(m.term as nat);
    let index = decimal(m.index as nat);
    lemma_signed_decimal_chars(m.term as int, ':');
    lemma_signed_decimal_chars(m.index as int, ':');
    let front = base.push(':') + term;
    assert(line =~= front.push(':') + index);
    lemma_rfind_at_end(front, ':', index, line.len() as int);
    assert(line =~= base.push(':') + (term.push(':') + index));
    assert(line.take(front.len() as int) =~= front);
    lemma_rfind_prefix(front, ':', line, front.len() as int);
    lemma_rfind_at_end(base, ':', term, front.len() as int);
    assert(line.take(base.len() as int) =~= base);
    if !dropped {
        assert(Seq::empty() + base =~= base);
    }
}

proof fn lemma_rfind_prefix(a: Seq<char>, sep: char, s: Seq<char>, to: int)
    requires
        0 <= to <= a.len() <= s.len(),
        s.take(a.len() as int) == a,
    ensures
        rfind(s, sep, to) == rfind(a, sep, to),
    decreases to,
{
    if to > 0 {
        assert(a[to - 1] == s[to - 1]);
        lemma_rfind_prefix(a, sep, s, to - 1);
    }
}

/// Where `base_of(chars[from..])` ends.
fn base_end(chars: &Vec<char>, from: usize) -> (r: usize)
    requires
        from <= chars@.len(),
    ensures
        from <= r <= chars@.len(),
        chars@.subrange(from as int, r as int) == base_of(chars@.skip(from as int)),
{
    let ghost line = chars@.skip(from as int);
    assert(line =~= chars@.subrange(from as int, chars@.len() as int));
    match rfind_at(chars, ':', from, chars.len()) {
        Some(last) => match rfind_at(chars, ':', from, last) {
            Some(before) => {
                assert(chars@.subrange(from as int, before as int) =~= line.take(before - from));
                before
            },
            None => chars.len(),
        },
        None => chars.len(),
    }
}

/// Which lines a summary counts.
pub enum Select {
    /// All but heartbeats and campaigns.
    NoNoise,
    /// Replication of client writes only.
    AppPath,
}

/// Whether a summary counts a line.
pub open spec fn selected(select: Select, line: Seq<char>) -> bool {
    match select {
        Select::NoNoise => !is_noise(line),
        Select::AppPath => is_app_path(line),
    }
}

fn is_selected(select: &Select, entry: &str) -> (r: bool)
    ensures
        r == selected(*select, entry@),
{
    match select {
        Select::NoNoise => !is_noise_log_entry(entry),
        Select::AppPath => is_app_path_log_entry(entry),
    }
}

/// What the strings hold.
pub open spec fn texts(v: Seq<String>) -> Seq<Seq<char>> {
    v.map_values(|s: String| s@)
}

/// The keys of the lines that a summary counts, in the order of the log.
pub open spec fn group_keys(log: Seq<Seq<char>>, select: Select) -> Seq<Seq<char>>
    decreases log.len(),
{
    if log.len() == 0 {
        Seq::empty()
    } else {
        let front = group_keys(log.drop_last(), select);
        if selected(select, log.last()) {
            front.push(group_key(log.last()))
        } else {
            front
        }
    }
}

/// Where key `k` is, or belongs, in an ascending tally.
pub open spec fn tally_pos(t: Seq<(Seq<char>, nat)>, k: Seq<char>) -> nat
    decreases t.len(),
{
    if t.len() == 0 {
        0
    } else if chars_less(t.last().0, k) {
        t.len()
    } else {
        tally_pos(t.drop_last(), k)
    }
}

/// A tally with one more of key `k`.
pub open spec fn tally_add(t: Seq<(Seq<char>, nat)>, k: Seq<char>) -> Seq<(Seq<char>, nat)> {
    let p = tally_pos(t, k) as int;
    if p < t.len() && t[p].0 == k {
        t.update(p, (k, t[p].1 + 1))
    } else {
        t.insert(p, (k, 1))
    }
}

/// How often each key occurs, in ascending order of the keys.
pub open spec fn tally(keys: Seq<Seq<char>>) -> Seq<(Seq<char>, nat)>
    decreases keys.len(),
{
    if keys.len() == 0 {
        Seq::empty()
    } else {
        tally_add(tally(keys.drop_last()), keys.last())
    }
}

/// Whether the keys of a tally ascend strictly.
pub open spec fn ascending(t: Seq<(Seq<char>, nat)>) -> bool {
    forall|i: int, j: int|
        0 <= i < j < t.len() ==> chars_less((#[trigger] t[i]).0, (#[trigger] t[j]).0)
}

/// The count of key `k` in a tally; 0 where it is not there.
pub open spec fn tally_count(t: Seq<(Seq<char>, nat)>, k: Seq<char>) -> nat {
    let p = tally_pos(t, k) as int;
    if p < t.len() && t[p].0 == k {
        t[p].1
    } else {
        0
    }
}

proof fn lemma_tally_pos(t: Seq<(Seq<char>, nat)>, k: Seq<char>)
    requires
        ascending(t),
    ensures
        tally_pos(t, k) <= t.len(),
        forall|i: int| 0 <= i < tally_pos(t, k) ==> chars_less((#[trigger] t[i]).0, k),
        forall|i: int| tally_pos(t, k) <= i < t.len() ==> !chars_less((#[trigger] t[i]).0, k),
    decreases t.len(),
{
    if t.len() > 0 {
        let n = t.len() - 1;
        if chars_less(t.last().0, k) {
            assert forall|i: int| 0 <= i < t.len() implies chars_less((#[trigger] t[i]).0, k) by {
                if i < n {
                    lemma_chars_less_transitive(t[i].0, t[n].0, k);
                }
            }
        } else {
            let f = t.drop_last();
            assert(ascending(f)) by {
                assert forall|i: int, j: int| 0 <= i < j < f.len() implies chars_less(
                    (#[trigger] f[i]).0,
                    (#[trigger] f[j]).0,
                ) by {
                    assert(f[i] == t[i] && f[j] == t[j]);
                }
            }
            lemma_tally_pos(f, k);
            assert forall|i: int| 0 <= i < tally_pos(t, k) implies chars_less(
                (#[trigger] t[i]).0,
                k,
            ) by {
                assert(f[i] == t[i]);
            }
            assert forall|i: int| tally_pos(t, k) <= i < t.len() implies !chars_less(
                (#[trigger] t[i]).0,
                k,
            ) by {
                if i < n {
                    assert(f[i] == t[i]);
                }
            }
        }
    }
}

/// An entry of an ascending tally is found under its key.
proof fn lemma_tally_pos_of(t: Seq<(Seq<char>, nat)>, i: int)
    requires
        ascending(t),
        0 <= i < t.len(),
    ensures
        tally_pos(t, t[i].0) == i,
{
    let k = t[i].0;
    lemma_tally_pos(t, k);
    lemma_chars_less_irreflexive(k);
    let p = tally_pos(t, k) as int;
    if p < i {
        assert(chars_less(t[p].0, t[i].0));
    }
}

proof fn lemma_tally_add(t: Seq<(Seq<char>, nat)>, k: Seq<char>)
    requires
        ascending(t),
        forall|i: int| 0 <= i < t.len() ==> (#[trigger] t[i]).1 > 0,
    ensures
        ascending(tally_add(t, k)),
        forall|i: int| 0 <= i < tally_add(t, k).len() ==> (#[trigger] tally_add(t, k)[i]).1 > 0,
        forall|q: Seq<char>| #[trigger]
            tally_count(tally_add(t, k), q) == tally_count(t, q) + if q == k {
                1nat
            } else {
                0
            },
{
    let p = tally_pos(t, k) as int;
    let u = tally_add(t, k);
    lemma_tally_pos(t, k);
    let found = p < t.len() && t[p].0 == k;
    assert forall|i: int, j: int| 0 <= i < j < u.len() implies chars_less(
        (#[trigger] u[i]).0,
        (#[trigger] u[j]).0,
    ) by {
        if found {
            assert(u[i].0 == t[i].0 && u[j].0 == t[j].0);
        } else {
            let a = if i < p {
                t[i]
            } else if i == p {
                (k, 1)
            } else {
                t[i - 1]
            };
            let b = if j < p {
                t[j]
            } else if j == p {
                (k, 1)
            } else {
                t[j - 1]
            };
            assert(u[i] == a && u[j] == b);
            if i == p {
                lemma_chars_less_total(t[j - 1].0, k);
                if j - 1 > p {
                    if t[j - 1].0 == k {
                        lemma_chars_less_total(t[p].0, k);
                        assert(chars_less(t[p].0, t[j - 1].0));
                    }
                }
            }
        }
    }
    assert forall|i: int| 0 <= i < u.len() implies (#[trigger] u[i]).1 > 0 by {
        if !found {
            assert(u[i] == if i < p {
                t[i]
            } else if i == p {
                (k, 1)
            } else {
                t[i - 1]
            });
        } else {
            assert(t[i].1 > 0);
        }
    }
    assert forall|q: Seq<char>| #[trigger]
        tally_count(u, q) == tally_count(t, q) + if q == k {
            1nat
        } else {
            0
        } by {
        lemma_tally_pos(t, q);
        lemma_tally_pos(u, q);
        let a = tally_pos(t, q) as int;
        let b = tally_pos(u, q) as int;
        lemma_chars_less_irreflexive(q);
        if found {
            if b < u.len() && u[b].0 == q {
                lemma_tally_pos_of(t, b);
            }
            if a < t.len() && t[a].0 == q {
                lemma_tally_pos_of(u, a);
            }
        } else {
            if b < u.len() && u[b].0 == q {
                if b < p {
                    assert(u[b] == t[b]);
                    lemma_tally_pos_of(t, b);
                } else if b > p {
                    assert(u[b] == t[b - 1]);
                    lemma_tally_pos_of(t, b - 1);
                }
            }
            if a < t.len() && t[a].0 == q {
                if a < p {
                    assert(u[a] == t[a]);
                    lemma_tally_pos_of(u, a);
                } else {
                    assert(u[a + 1] == t[a]);
                    lemma_tally_pos_of(u, a + 1);
                }
            }
            if q == k {
                assert(u[p].0 == k);
                lemma_tally_pos_of(u, p);
            }
        }
    }
}

/// A tally lists each key once, in ascending order, with the number of its
/// occurrences.
pub proof fn lemma_tally(keys: Seq<Seq<char>>)
    ensures
        ascending(tally(keys)),
        forall|i: int| 0 <= i < tally(keys).len() ==> (#[trigger] tally(keys)[i]).1 > 0,
        forall|k: Seq<char>| #[trigger]
            tally_count(tally(keys), k) == keys.to_multiset().count(k),
    decreases keys.len(),
{
    broadcast use vstd::multiset::group_multiset_axioms;

    if keys.len() == 0 {
        vstd::seq_lib::to_multiset_len(keys);
        assert forall|k: Seq<char>| #[trigger]
            tally_count(tally(keys), k) == keys.to_multiset().count(k) by {
            vstd::seq_lib::to_multiset_contains(keys, k);
        }
    } else {
        lemma_tally(keys.drop_last());
        lemma_tally_add(tally(keys.drop_last()), keys.last());
        vstd::seq_lib::to_multiset_build(keys.drop_last(), keys.last());
        assert(keys =~= keys.drop_last().push(keys.last()));
    }
}

proof fn lemma_tally_unique(a: Seq<(Seq<char>, nat)>, b: Seq<(Seq<char>, nat)>)
    requires
        ascending(a),
        ascending(b),
        forall|i: int| 0 <= i < a.len() ==> (#[trigger] a[i]).1 > 0,
        forall|i: int| 0 <= i < b.len() ==> (#[trigger] b[i]).1 > 0,
        forall|k: Seq<char>| tally_count(a, k) == tally_count(b, k),
    ensures
        a == b,
    decreases a.len() + b.len(),
{
    if a.len() == 0 || b.len() == 0 {
        if a.len() > 0 {
            lemma_tally_pos_of(a, 0);
            assert(tally_count(a, a[0].0) == tally_count(b, a[0].0));
        }
        if b.len() > 0 {
            lemma_tally_pos_of(b, 0);
            assert(tally_count(a, b[0].0) == tally_count(b, b[0].0));
        }
        assert(a =~= b);
    } else {
        let n = a.len() - 1;
        let m = b.len() - 1;
        let ka = a[n].0;
        let kb = b[m].0;
        lemma_tally_pos_of(a, n);
        lemma_tally_pos_of(b, m);
        assert(tally_count(a, ka) == tally_count(b, ka));
        assert(tally_count(a, kb) == tally_count(b, kb));
        let i = tally_pos(b, ka) as int;
        let j = tally_pos(a, kb) as int;
        lemma_tally_pos(b, ka);
        lemma_tally_pos(a, kb);
        assert(b[i].0 == ka && a[j].0 == kb);
        if i < m && j < n {
            assert(chars_less(b[i].0, b[m].0));
            assert(chars_less(a[j].0, a[n].0));
            lemma_chars_less_transitive(ka, kb, ka);
            lemma_chars_less_irreflexive(ka);
        }
        assert(a[n] == b[m]);
        let x = a.drop_last();
        let y = b.drop_last();
        assert(ascending(x)) by {
            assert forall|i: int, j: int| 0 <= i < j < x.len() implies chars_less(
                (#[trigger] x[i]).0,
                (#[trigger] x[j]).0,
            ) by {
                assert(x[i] == a[i] && x[j] == a[j]);
            }
        }
        assert(ascending(y)) by {
            assert forall|i: int, j: int| 0 <= i < j < y.len() implies chars_less(
                (#[trigger] y[i]).0,
                (#[trigger] y[j]).0,
            ) by {
                assert(y[i] == b[i] && y[j] == b[j]);
            }
        }
        assert forall|k: Seq<char>| tally_count(x, k) == tally_count(y, k) by {
            assert(tally_count(a, k) == tally_count(b, k));
            lemma_tally_drop_last(a, k);
            lemma_tally_drop_last(b, k);
        }
        assert forall|i: int| 0 <= i < x.len() implies (#[trigger] x[i]).1 > 0 by {
            assert(x[i] == a[i]);
        }
        assert forall|i: int| 0 <= i < y.len() implies (#[trigger] y[i]).1 > 0 by {
            assert(y[i] == b[i]);
        }
        lemma_tally_unique(x, y);
        assert(a =~= x.push(a[n]));
        assert(b =~= y.push(b[m]));
    }
}

proof fn lemma_tally_drop_last(t: Seq<(Seq<char>, nat)>, k: Seq<char>)
    requires
        ascending(t),
        t.len() > 0,
    ensures
        tally_count(t.drop_last(), k) == if k == t.last().0 {
            0
        } else {
            tally_count(t, k)
        },
{
    let x = t.drop_last();
    assert(ascending(x)) by {
        assert forall|i: int, j: int| 0 <= i < j < x.len() implies chars_less(
            (#[trigger] x[i]).0,
            (#[trigger] x[j]).0,
        ) by {
            assert(x[i] == t[i] && x[j] == t[j]);
        }
    }
    lemma_tally_pos(x, k);
    lemma_tally_pos(t, k);
    let p = tally_pos(x, k) as int;
    let q = tally_pos(t, k) as int;
    lemma_chars_less_irreflexive(k);
    if p < x.len() && x[p].0 == k {
        assert(t[p].0 == k);
        lemma_tally_pos_of(t, p);
        assert(chars_less(t[p].0, t[t.len() - 1].0));
    }
    if q < x.len() && t[q].0 == k {
        assert(x[q].0 == k);
        lemma_tally_pos_of(x, q);
    }
}

/// A tally does not depend on the order of the keys.
pub proof fn lemma_tally_ignores_order(a: Seq<Seq<char>>, b: Seq<Seq<char>>)
    requires
        a.to_multiset() == b.to_multiset(),
    ensures
        tally(a) == tally(b),
{
    lemma_tally(a);
    lemma_tally(b);
    assert forall|k: Seq<char>| tally_count(tally(a), k) == tally_count(tally(b), k) by {
        assert(tally_count(tally(a), k) == a.to_multiset().count(k));
        assert(tally_count(tally(b), k) == b.to_multiset().count(k));
    }
    lemma_tally_unique(tally(a), tally(b));
}

/// How a summary shows one entry: the key, an `x` and the count.
pub open spec fn tally_item(e: (Seq<char>, nat)) -> Seq<char> {
    e.0.push('x') + decimal(e.1)
}

/// The summary of a log: the entries of its tally with commas between them.
pub open spec fn summary(log: Seq<Seq<char>>, select: Select) -> Seq<char> {
    join(
        tally(group_keys(log, select)).map_values(|e: (Seq<char>, nat)| tally_item(e)),
        ","@,
    )
}

proof fn lemma_group_keys_concat(a: Seq<Seq<char>>, b: Seq<Seq<char>>, select: Select)
    ensures
        group_keys(a + b, select) == group_keys(a, select) + group_keys(b, select),
    decreases b.len(),
{
    if b.len() == 0 {
        assert(a + b =~= a);
        assert(group_keys(a, select) + group_keys(b, select) =~= group_keys(a, select));
    } else {
        lemma_group_keys_concat(a, b.drop_last(), select);
        assert((a + b).drop_last() =~= a + b.drop_last());
        assert(group_keys(a + b, select) =~= group_keys(a, select) + group_keys(b, select));
    }
}

proof fn lemma_group_keys_remove(a: Seq<Seq<char>>, i: int, select: Select)
    requires
        0 <= i < a.len(),
    ensures
        group_keys(a, select).to_multiset() == group_keys(a.remove(i), select).to_multiset().add(
            group_keys(seq![a[i]], select).to_multiset(),
        ),
{
    let front = a.take(i);
    let back = a.skip(i + 1);
    let one = seq![a[i]];
    assert(a =~= (front + one) + back);
    assert(a.remove(i) =~= front + back);
    lemma_group_keys_concat(front + one, back, select);
    lemma_group_keys_concat(front, one, select);
    lemma_group_keys_concat(front, back, select);
    let f = group_keys(front, select);
    let o = group_keys(one, select);
    let k = group_keys(back, select);
    vstd::seq_lib::lemma_multiset_commutative(f + o, k);
    vstd::seq_lib::lemma_multiset_commutative(f, o);
    vstd::seq_lib::lemma_multiset_commutative(f, k);
    broadcast use vstd::multiset::group_multiset_axioms;

    assert(((f + o) + k).to_multiset() =~= (f + k).to_multiset().add(o.to_multiset()));
}

/// The summary of a log does not depend on the order in which its messages
/// were delivered.
pub proof fn lemma_summary_ignores_order(a: Seq<Seq<char>>, b: Seq<Seq<char>>, select: Select)
    requires
        a.to_multiset() == b.to_multiset(),
    ensures
        summary(a, select) == summary(b, select),
{
    lemma_group_keys_permuted(a, b, select);
    lemma_tally_ignores_order(group_keys(a, select), group_keys(b, select));
}

proof fn lemma_group_keys_permuted(a: Seq<Seq<char>>, b: Seq<Seq<char>>, select: Select)
    requires
        a.to_multiset() == b.to_multiset(),
    ensures
        group_keys(a, select).to_multiset() == group_keys(b, select).to_multiset(),
    decreases a.len(),
{
    vstd::seq_lib::to_multiset_len(a);
    vstd::seq_lib::to_multiset_len(b);
    if a.len() == 0 {
        assert(a =~= b);
    } else {
        let n = a.len() - 1;
        vstd::seq_lib::to_multiset_contains(a, a[n]);
        vstd::seq_lib::to_multiset_contains(b, a[n]);
        assert(a.contains(a[n]));
        let j = choose|j: int| 0 <= j < b.len() && b[j] == a[n];
        vstd::seq_lib::to_multiset_remove(a, n);
        vstd::seq_lib::to_multiset_remove(b, j);
        lemma_group_keys_permuted(a.remove(n), b.remove(j), select);
        lemma_group_keys_remove(a, n, select);
        lemma_group_keys_remove(b, j, select);
    }
}

/// The replicated operations of a log, in the order of their delivery.
pub open spec fn ops(log: Seq<Seq<char>>) -> Seq<Seq<char>>
    decreases log.len(),
{
    if log.len() == 0 {
        Seq::empty()
    } else if is_app_path(log.last()) {
        ops(log.drop_last()).push(base_of(log.last()))
    } else {
        ops(log.drop_last())
    }
}

/// Keys with their counts, in ascending order of the keys.
struct Tally {
    keys: Vec<Vec<char>>,
    counts: Vec<usize>,
}

impl View for Tally {
    type V = Seq<(Seq<char>, nat)>;

    closed spec fn view(&self) -> Seq<(Seq<char>, nat)> {
        Seq::new(self.keys@.len(), |i: int| (self.keys@[i]@, self.counts@[i] as nat))
    }
}

impl Tally {
    spec fn wf(self) -> bool {
        self.keys@.len() == self.counts@.len()
    }

    fn pos(&self, key: &Vec<char>) -> (r: usize)
        requires
            self.wf(),
        ensures
            r == tally_pos(self@, key@),
            r <= self@.len(),
    {
        let mut p: usize = self.keys.len();
        assert(self@.take(p as int) =~= self@);
        while p > 0 && !chars_compare(&self.keys[p - 1], key).0
            invariant
                self.wf(),
                p <= self@.len(),
                tally_pos(self@.take(p as int), key@) == tally_pos(self@, key@),
            decreases p,
        {
            assert(self@.take(p as int).drop_last() =~= self@.take(p - 1));
            assert(self@.take(p as int).last() == self@[p - 1]);
            p = p - 1;
        }
        if p > 0 {
            assert(self@.take(p as int).last() == self@[p - 1]);
        }
        p
    }

    fn add_key(&mut self, key: Vec<char>, Ghost(n): Ghost<nat>)
        requires
            old(self).wf(),
            n < usize::MAX,
            forall|i: int| 0 <= i < old(self)@.len() ==> (#[trigger] old(self)@[i]).1 <= n,
        ensures
            final(self).wf(),
            final(self)@ == tally_add(old(self)@, key@),
            forall|i: int| 0 <= i < final(self)@.len() ==> (#[trigger] final(self)@[i]).1 <= n + 1,
    {
        let p: usize = self.pos(&key);
        if p < self.keys.len() && chars_compare(&self.keys[p], &key).1 {
            assert(old(self)@[p as int].1 <= n);
            let c: usize = self.counts[p];
            self.counts.set(p, c + 1);
            assert(self@ =~= tally_add(old(self)@, key@));
        } else {
            let ghost k = key@;
            self.keys.insert(p, key);
            self.counts.insert(p, 1);
            assert(self@ =~= tally_add(old(self)@, k));
        }
        assert forall|i: int| 0 <= i < self@.len() implies (#[trigger] self@[i]).1 <= n + 1 by {
            let old_view = old(self)@;
            if self@.len() == old_view.len() {
                assert(old_view[i].1 <= n);
            } else if i < p {
                assert(old_view[i].1 <= n);
            } else if i > p {
                assert(old_view[i - 1].1 <= n);
            }
        }
    }

    fn render(&self) -> (r: String)
        requires
            self.wf(),
        ensures
            r@ == join(self@.map_values(|e: (Seq<char>, nat)| tally_item(e)), ","@),
    {
        let ghost items = self@.map_values(|e: (Seq<char>, nat)| tally_item(e));
        let mut out: String = String::new();
        let mut i: usize = 0;
        assert(items.take(0) =~= Seq::empty());
        while i < self.keys.len()
            invariant
                self.wf(),
                i <= self.keys@.len(),
                items == self@.map_values(|e: (Seq<char>, nat)| tally_item(e)),
                out@ == join(items.take(i as int), ","@),
            decreases self.keys@.len() - i,
        {
            let mut item: String = string_of(&self.keys[i], 0, self.keys[i].len());
            assert(item@ =~= self.keys@[i as int]@);
            item.push('x');
            append_decimal(&mut item, self.counts[i] as u64);
            assert(item@ == items[i as int]);
            join_next(&mut out, i, item.as_str(), ",", Ghost(items.take(i as int)));
            assert(items.take(i as int).push(items[i as int]) =~= items.take(i + 1));
            i = i + 1;
        }
        assert(items.take(i as int) =~= items);
        out
    }
}

/// Counts the selected lines of a log under their keys.
pub fn summarize_log(log: &Vec<String>, select: Select) -> (r: String)
    ensures
        r@ == summary(texts(log@), select),
{
    let mut counts: Tally = Tally { keys: Vec::new(), counts: Vec::new() };
    let ghost all = texts(log@);
    let mut i: usize = 0;
    assert(counts@ =~= tally(group_keys(all.take(0), select)));
    while i < log.len()
        invariant
            i <= log@.len(),
            all == texts(log@),
            counts.wf(),
            counts@ == tally(group_keys(all.take(i as int), select)),
            forall|j: int| 0 <= j < counts@.len() ==> (#[trigger] counts@[j]).1 <= i,
        decreases log@.len() - i,
    {
        assert(all.take(i + 1).drop_last() =~= all.take(i as int));
        assert(all.take(i + 1).last() == log@[i as int]@);
        if is_selected(&select, log[i].as_str()) {
            let chars: Vec<char> = chars_of(log[i].as_str());
            let start: usize = mark_len(&chars);
            let end: usize = base_end(&chars, start);
            let key: Vec<char> = chars_of(string_of(&chars, 0, end).as_str());
            proof {
                let line = log@[i as int]@;
                assert(key@ =~= group_key(line)) by {
                    if is_dropped(line) {
                        assert(line.subrange(0, end as int) =~= line.take(5) + line.subrange(
                            5,
                            end as int,
                        ));
                    }
                }
                let front = group_keys(all.take(i as int), select);
                assert(front.push(key@).drop_last() =~= front);
            }
            counts.add_key(key, Ghost(i as nat));
        }
        i = i + 1;
    }
    assert(all.take(i as int) =~= all);
    counts.render()
}

/// The replicated operations of a log, in the order of their delivery.
pub fn ops_sequence(log: &Vec<String>) -> (r: String)
    ensures
        r@ == join(ops(texts(log@)), "|"@),
{
    let mut out: String = String::new();
    let ghost all = texts(log@);
    let mut n: usize = 0;
    let mut i: usize = 0;
    while i < log.len()
        invariant
            i <= log@.len(),
            all == texts(log@),
            n <= i,
            n == ops(all.take(i as int)).len(),
            out@ == join(ops(all.take(i as int)), "|"@),
        decreases log@.len() - i,
    {
        assert(all.take(i + 1).drop_last() =~= all.take(i as int));
        assert(all.take(i + 1).last() == log@[i as int]@);
        if is_app_path_log_entry(log[i].as_str()) {
            let chars: Vec<char> = chars_of(log[i].as_str());
            assert(chars@.skip(0) =~= chars@);
            let end: usize = base_end(&chars, 0);
            let part: String = string_of(&chars, 0, end);
            join_next(&mut out, n, part.as_str(), "|", Ghost(ops(all.take(i as int))));
            n = n + 1;
        }
        i = i + 1;
    }
    assert(all.take(i as int) =~= all);
    out
}

/// A line tells its message field by field: sender and receiver around a `>`,
/// then region, type, term and index, with colons between them. A dropped
/// message has the same line behind the five characters `DROP:`.
pub proof fn lemma_line_fields(m: RaftMessage)
    ensures
        split(line_text(m, false), ':') == seq![
            decimal(m.from_store_id as nat).push('>') + decimal(m.to_store_id as nat),
            decimal(m.region_id as nat),
            signed_decimal(m.msg_type as int),
            decimal(m.term as nat),
            decimal(m.index as nat),
        ],
        line_text(m, true) == seq!['D', 'R', 'O', 'P', ':'] + line_text(m, false),
{
    let head = decimal(m.from_store_id as nat).push('>') + decimal(m.to_store_id as nat);
    let region = decimal(m.region_id as nat);
    let kind = signed_decimal(m.msg_type as int);
    let term = decimal(m.term as nat);
    let index = decimal(m.index as nat);
    lemma_signed_decimal_chars(m.from_store_id as int, ':');
    lemma_signed_decimal_chars(m.to_store_id as int, ':');
    lemma_signed_decimal_chars(m.region_id as int, ':');
    lemma_signed_decimal_chars(m.msg_type as int, ':');
    lemma_signed_decimal_chars(m.term as int, ':');
    lemma_signed_decimal_chars(m.index as int, ':');
    assert(!head.contains(':')) by {
        assert forall|i: int| 0 <= i < head.len() implies head[i] != ':' by {
            let n = decimal(m.from_store_id as nat).len();
            if i < n {
                assert(head[i] == decimal(m.from_store_id as nat)[i]);
            } else if i > n {
                assert(head[i] == decimal(m.to_store_id as nat)[i - n - 1]);
            }
        }
    }
    lemma_split_first(head, ':', region.push(':') + (kind.push(':') + (term.push(':') + index)));
    lemma_split_first(region, ':', kind.push(':') + (term.push(':') + index));
    lemma_split_first(kind, ':', term.push(':') + index);
    lemma_split_first(term, ':', index);
    lemma_no_separator(index, ':');
    assert(seq![head] + (seq![region] + (seq![kind] + (seq![term] + seq![index]))) =~= seq![
        head,
        region,
        kind,
        term,
        index,
    ]);
}

proof fn lemma_no_separator(s: Seq<char>, sep: char)
    requires
        !s.contains(sep),
    ensures
        split(s, sep) == seq![s],
{
    lemma_find_first(s, sep, 0, s.len() as int);
}

/// Messages that differ in any field have different lines, and so have a
/// dropped message and a delivered one.
pub proof fn lemma_lines_tell_apart(a: RaftMessage, b: RaftMessage, x: bool, y: bool)
    ensures
        line_text(a, x) == line_text(b, y) ==> x == y && a.from_store_id == b.from_store_id
            && a.to_store_id == b.to_store_id && a.region_id == b.region_id && a.msg_type
            == b.msg_type && a.term == b.term && a.index == b.index,
{
    if line_text(a, x) == line_text(b, y) {
        lemma_line_tells_message(a, x);
        lemma_line_tells_message(b, y);
        lemma_line_fields(a);
        lemma_line_fields(b);
        let f = split(entry_text(a), ':');
        let g = split(entry_text(b), ':');
        assert(f == g);
        assert(f[0] == g[0] && f[1] == g[1] && f[2] == g[2] && f[3] == g[3] && f[4] == g[4]);
        lemma_decimal_injective(a.region_id as nat, b.region_id as nat);
        lemma_decimal_injective(a.term as nat, b.term as nat);
        lemma_decimal_injective(a.index as nat, b.index as nat);
        let (p, q) = (decimal(a.from_store_id as nat), decimal(b.from_store_id as nat));
        let (r, s) = (decimal(a.to_store_id as nat), decimal(b.to_store_id as nat));
        lemma_signed_decimal_chars(a.from_store_id as int, '>');
        lemma_signed_decimal_chars(b.from_store_id as int, '>');
        lemma_split_first(p, '>', r);
        lemma_split_first(q, '>', s);
        assert((seq![p] + split(r, '>'))[0] == p);
        assert((seq![q] + split(s, '>'))[0] == q);
        assert(p == q);
        assert(f[0].skip(p.len() as int + 1) =~= r);
        assert(g[0].skip(q.len() as int + 1) =~= s);
        lemma_decimal_injective(a.from_store_id as nat, b.from_store_id as nat);
        lemma_decimal_injective(a.to_store_id as nat, b.to_store_id as nat);
    }
}

/// Summaries go by the type of a message, dropped or not: type 0 (campaigns),
/// 8 and 9 (heartbeats and their answers) are noise; 3 and 4 (entries and their
/// answers) replicate client writes.
pub proof fn lemma_types_of_lines(m: RaftMessage, dropped: bool)
    ensures
        ({
            let line = line_text(m, dropped);
            let t = m.msg_type;
            &&& is_noise(line) == (t == 0 || t == 8 || t == 9)
            &&& is_app_path(line) == (t == 3 || t == 4)
            &&& selected(Select::NoNoise, line) == !(t == 0 || t == 8 || t == 9)
            &&& selected(Select::AppPath, line) == (t == 3 || t == 4)
        }),
{
    lemma_line_tells_message(m, dropped);
}

/// The type that any line names is the number in its third field, with or
/// without the mark in front of the line; a line with fewer fields names none.
pub proof fn lemma_type_is_third_field(a: Seq<char>, b: Seq<char>, c: Seq<char>, rest: Seq<char>)
    requires
        !a.contains(':'),
        !b.contains(':'),
        !c.contains(':'),
        a != seq!['D', 'R', 'O', 'P'],
    ensures
        ({
            let mark = seq!['D', 'R', 'O', 'P', ':'];
            let three = a.push(':') + (b.push(':') + c);
            let more = a.push(':') + (b.push(':') + (c.push(':') + rest));
            &&& entry_msg_type(three) == parse_i32(c)
            &&& entry_msg_type(more) == parse_i32(c)
            &&& entry_msg_type(mark + three) == parse_i32(c)
            &&& entry_msg_type(mark + more) == parse_i32(c)
            &&& entry_msg_type(a) is None
            &&& entry_msg_type(a.push(':') + b) is None
        }),
{
    let mark = seq!['D', 'R', 'O', 'P', ':'];
    let three = a.push(':') + (b.push(':') + c);
    let more = a.push(':') + (b.push(':') + (c.push(':') + rest));
    lemma_unmarked_plain(a, b.push(':') + c);
    lemma_unmarked_plain(a, b.push(':') + (c.push(':') + rest));
    lemma_unmarked_plain(a, b);
    assert((mark + three).take(5) =~= mark);
    assert((mark + more).take(5) =~= mark);
    assert((mark + three).skip(5) =~= three);
    assert((mark + more).skip(5) =~= more);
    if is_dropped(a) {
        assert(a.take(5)[4] == ':');
        assert(a[4] == ':');
    }
    lemma_no_separator(a, ':');
    lemma_no_separator(b, ':');
    lemma_no_separator(c, ':');
    lemma_split_first(a, ':', b);
    lemma_split_first(a, ':', b.push(':') + c);
    lemma_split_first(b, ':', c);
    lemma_split_first(a, ':', b.push(':') + (c.push(':') + rest));
    lemma_split_first(b, ':', c.push(':') + rest);
    lemma_split_first(c, ':', rest);
    let f3 = seq![c] + split(rest, ':');
    assert((seq![a] + (seq![b] + f3))[2] == f3[0]);
}

proof fn lemma_unmarked_plain(a: Seq<char>, rest: Seq<char>)
    requires
        !a.contains(':'),
        a != seq!['D', 'R', 'O', 'P'],
    ensures
        unmarked(a.push(':') + rest) == a.push(':') + rest,
        !is_dropped(a.push(':') + rest),
{
    let line = a.push(':') + rest;
    if is_dropped(line) {
        let t = line.take(5);
        assert(t[0] == 'D' && t[1] == 'R' && t[2] == 'O' && t[3] == 'P' && t[4] == ':');
        if a.len() < 4 {
            assert(line[a.len() as int] == ':');
        } else if a.len() > 4 {
            assert(line[4] == a[4]);
        } else {
            assert(a =~= seq!['D', 'R', 'O', 'P']);
        }
    }
}

/// Summaries and sequences cut off the last two fields of a line, whatever they
/// are; a line with fewer than two colons is taken whole.
pub proof fn lemma_base_cuts_two_fields(a: Seq<char>, x: Seq<char>, y: Seq<char>)
    requires
        !x.contains(':'),
        !y.contains(':'),
    ensures
        base_of(a.push(':') + (x.push(':') + y)) == a,
        base_of(x) == x,
        base_of(x.push(':') + y) == x.push(':') + y,
{
    let front = a.push(':') + x;
    let line = a.push(':') + (x.push(':') + y);
    assert(line =~= front.push(':') + y);
    lemma_rfind_at_end(front, ':', y, line.len() as int);
    assert(line.take(front.len() as int) =~= front);
    lemma_rfind_prefix(front, ':', line, front.len() as int);
    lemma_rfind_at_end(a, ':', x, front.len() as int);
    assert(line.take(a.len() as int) =~= a);
    lemma_rfind_last(x, ':', x.len() as int, -1);
    let two = x.push(':') + y;
    lemma_rfind_at_end(x, ':', y, two.len() as int);
    assert(two.take(x.len() as int) =~= x);
    lemma_rfind_prefix(x, ':', two, x.len() as int);
}

/// The key of a line is the line without its last two fields; the mark of a
/// dropped message stays in front.
pub proof fn lemma_group_key_keeps_mark(line: Seq<char>)
    ensures
        ({
            let mark = seq!['D', 'R', 'O', 'P', ':'];
            let marked = line.len() >= 5 && line[0] == 'D' && line[1] == 'R' && line[2] == 'O'
                && line[3] == 'P' && line[4] == ':';
            &&& marked ==> group_key(line) == mark + base_of(line.skip(5))
            &&& !marked ==> group_key(line) == base_of(line)
        }),
{
    let mark = seq!['D', 'R', 'O', 'P', ':'];
    let marked = line.len() >= 5 && line[0] == 'D' && line[1] == 'R' && line[2] == 'O' && line[3]
        == 'P' && line[4] == ':';
    if marked {
        assert(line.take(5) =~= mark);
    } else if is_dropped(line) {
        let t = line.take(5);
        assert(t[0] == 'D' && t[1] == 'R' && t[2] == 'O' && t[3] == 'P' && t[4] == ':');
    }
}

/// A summary counts the keys of the selected lines, and a sequence lists the
/// replicated operations: each takes the lines that it selects, in their order,
/// and no others.
pub proof fn lemma_lines_are_filtered(log: Seq<Seq<char>>, select: Select)
    ensures
        group_keys(log, select) == log.filter(|l: Seq<char>| selected(select, l)).map_values(
            |l: Seq<char>| group_key(l),
        ),
        ops(log) == log.filter(|l: Seq<char>| is_app_path(l)).map_values(
            |l: Seq<char>| base_of(l),
        ),
    decreases log.len(),
{
    reveal(Seq::filter);
    let key = |l: Seq<char>| group_key(l);
    let base = |l: Seq<char>| base_of(l);
    let sel = |l: Seq<char>| selected(select, l);
    let app = |l: Seq<char>| is_app_path(l);
    if log.len() > 0 {
        lemma_lines_are_filtered(log.drop_last(), select);
    }
    assert(group_keys(log, select) =~= log.filter(sel).map_values(key));
    assert(ops(log) =~= log.filter(app).map_values(base));
}

/// A summary lists every key of the selected lines once, in ascending order,
/// with commas between them; behind each key stand an `x` and the number of the
/// selected lines that have it, in decimal. Gives the keys in their order.
pub proof fn lemma_summary_counts_lines(log: Seq<Seq<char>>, select: Select) -> (keys: Seq<Seq<char>>)
    ensures
        forall|i: int, j: int|
            0 <= i < j < keys.len() ==> chars_less(#[trigger] keys[i], #[trigger] keys[j]),
        forall|k: Seq<char>| #[trigger] keys.contains(k) == group_keys(log, select).contains(k),
        summary(log, select) == join(
            keys.map_values(
                |k: Seq<char>|
                    k + seq!['x'] + decimal(group_keys(log, select).to_multiset().count(k)),
            ),
            seq![','],
        ),
{
    let all = group_keys(log, select);
    let t = tally(all);
    let keys = t.map_values(|e: (Seq<char>, nat)| e.0);
    lemma_tally(all);
    reveal_strlit(",");
    assert(","@ =~= seq![',']);
    let items = t.map_values(|e: (Seq<char>, nat)| tally_item(e));
    let shown = keys.map_values(
        |k: Seq<char>| k + seq!['x'] + decimal(group_keys(log, select).to_multiset().count(k)),
    );
    assert forall|i: int| 0 <= i < t.len() implies items[i] == shown[i] by {
        lemma_tally_pos_of(t, i);
        assert(tally_count(t, t[i].0) == all.to_multiset().count(t[i].0));
        assert(t[i].0.push('x') =~= t[i].0 + seq!['x']);
    }
    assert(items =~= shown);
    assert forall|k: Seq<char>| #[trigger] keys.contains(k) == all.contains(k) by {
        vstd::seq_lib::to_multiset_contains(all, k);
        assert(tally_count(t, k) == all.to_multiset().count(k));
        if keys.contains(k) {
            let i = choose|i: int| 0 <= i < keys.len() && keys[i] == k;
            lemma_tally_pos_of(t, i);
            assert(t[i].1 > 0);
        }
        if all.contains(k) {
            let p = tally_pos(t, k) as int;
            assert(t[p].0 == k);
            assert(keys[p] == k);
        }
    }
    assert forall|i: int, j: int| 0 <= i < j < keys.len() implies chars_less(
        #[trigger] keys[i],
        #[trigger] keys[j],
    ) by {
        assert(chars_less(t[i].0, t[j].0));
    }
    keys
}

/// Deliveries of one kind, however many: the summary of `n` lines with one key
/// is the key, an `x` and `n` in decimal. So different numbers of deliveries
/// have different summaries.
pub proof fn lemma_summary_of_one_kind(log: Seq<Seq<char>>, select: Select, key: Seq<char>)
    requires
        log.len() > 0,
        forall|i: int| 0 <= i < log.len() ==> selected(select, #[trigger] log[i]) && group_key(log[i])
            == key,
    ensures
        summary(log, select) == key + seq!['x'] + decimal(log.len()),
{
    lemma_one_kind(log, select, key);
    let all = group_keys(log, select);
    let keys = lemma_summary_counts_lines(log, select);
    assert(all[0] == key);
    assert(keys.contains(key));
    let p = choose|i: int| 0 <= i < keys.len() && keys[i] == key;
    assert forall|i: int| 0 <= i < keys.len() && #[trigger] keys[i] == keys[i] implies i == p by {
        assert(keys.contains(keys[i]));
        let j = choose|j: int| 0 <= j < all.len() && all[j] == keys[i];
        assert(keys[i] == key);
        lemma_chars_less_irreflexive(key);
        if i < p {
            assert(chars_less(keys[i], keys[p]));
        } else if p < i {
            assert(chars_less(keys[p], keys[i]));
        }
    }
    assert(keys.len() == 1) by {
        if keys.len() > 1 {
            assert(keys[0] == keys[0] && keys[1] == keys[1]);
        }
    }
    let shown = keys.map_values(
        |k: Seq<char>| k + seq!['x'] + decimal(group_keys(log, select).to_multiset().count(k)),
    );
    assert(shown[0] == key + seq!['x'] + decimal(all.to_multiset().count(key)));
}

proof fn lemma_one_kind(log: Seq<Seq<char>>, select: Select, key: Seq<char>)
    requires
        forall|i: int| 0 <= i < log.len() ==> selected(select, #[trigger] log[i]) && group_key(log[i])
            == key,
    ensures
        group_keys(log, select).len() == log.len(),
        forall|i: int| 0 <= i < log.len() ==> #[trigger] group_keys(log, select)[i] == key,
        group_keys(log, select).to_multiset().count(key) == log.len(),
    decreases log.len(),
{
    broadcast use vstd::multiset::group_multiset_axioms;

    let all = group_keys(log, select);
    if log.len() == 0 {
        vstd::seq_lib::to_multiset_contains(all, key);
    } else {
        let front = log.drop_last();
        assert forall|i: int| 0 <= i < front.len() implies selected(select, #[trigger] front[i])
            && group_key(front[i]) == key by {
            assert(front[i] == log[i]);
        }
        lemma_one_kind(front, select, key);
        assert(log[log.len() - 1] == log.last());
        vstd::seq_lib::to_multiset_build(group_keys(front, select), key);
    }
}

} // verus!
