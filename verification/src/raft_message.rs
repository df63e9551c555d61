//! Raft messages and the order in which they are delivered.

use vstd::prelude::*;

verus! {

/// A Raft message: what the schedule reads of it, and its encoded body.
#[derive(Debug)]
pub struct RaftMessage {
    pub from_store_id: u64,
    pub to_store_id: u64,
    pub region_id: u64,
    pub msg_type: i32,
    pub term: u64,
    pub index: u64,
    pub body: Vec<u8>,
}

/// What messages are sorted by: sender, receiver, region, type, term, index.
pub open spec fn sort_key(m: RaftMessage) -> (u64, u64, u64, i32, u64, u64) {
    (m.from_store_id, m.to_store_id, m.region_id, m.msg_type, m.term, m.index)
}

/// Whether key `a` comes before key `b`: the first component in which they
/// differ decides.
pub open spec fn key_less(
    a: (u64, u64, u64, i32, u64, u64),
    b: (u64, u64, u64, i32, u64, u64),
) -> bool {
    if a.0 != b.0 {
        a.0 < b.0
    } else if a.1 != b.1 {
        a.1 < b.1
    } else if a.2 != b.2 {
        a.2 < b.2
    } else if a.3 != b.3 {
        a.3 < b.3
    } else if a.4 != b.4 {
        a.4 < b.4
    } else {
        a.5 < b.5
    }
}

/// The sort key of a message.
pub fn msg_sort_key(m: &RaftMessage) -> (r: (u64, u64, u64, i32, u64, u64))
    ensures
        r == sort_key(*m),
{
    (m.from_store_id, m.to_store_id, m.region_id, m.msg_type, m.term, m.index)
}

/// Whether key `a` comes before key `b`.
pub fn is_key_less(a: (u64, u64, u64, i32, u64, u64), b: (u64, u64, u64, i32, u64, u64)) -> (r: bool)
    ensures
        r == key_less(a, b),
{
    if a.0 != b.0 {
        a.0 < b.0
    } else if a.1 != b.1 {
        a.1 < b.1
    } else if a.2 != b.2 {
        a.2 < b.2
    } else if a.3 != b.3 {
        a.3 < b.3
    } else if a.4 != b.4 {
        a.4 < b.4
    } else {
        a.5 < b.5
    }
}

/// The sort keys of messages, in their order.
pub open spec fn keys(s: Seq<RaftMessage>) -> Seq<(u64, u64, u64, i32, u64, u64)> {
    s.map_values(|m: RaftMessage| sort_key(m))
}

/// Whether no message has a smaller key than one before it.
pub open spec fn is_sorted(s: Seq<RaftMessage>) -> bool {
    forall|i: int, j: int|
        0 <= i < j < s.len() ==> !key_less(sort_key(#[trigger] s[j]), sort_key(#[trigger] s[i]))
}

/// Where a message with key `k` goes among sorted messages: behind all whose
/// key is not greater.
pub open spec fn insert_pos(s: Seq<RaftMessage>, k: (u64, u64, u64, i32, u64, u64)) -> nat
    decreases s.len(),
{
    if s.len() == 0 {
        0
    } else if key_less(k, sort_key(s.last())) {
        insert_pos(s.drop_last(), k)
    } else {
        s.len()
    }
}

/// The messages in ascending order of their keys; those with equal keys keep
/// their order.
pub open spec fn stable_sort(s: Seq<RaftMessage>) -> Seq<RaftMessage>
    decreases s.len(),
{
    if s.len() == 0 {
        Seq::empty()
    } else {
        let t = stable_sort(s.drop_last());
        t.insert(insert_pos(t, sort_key(s.last())) as int, s.last())
    }
}

proof fn lemma_insert_pos(s: Seq<RaftMessage>, k: (u64, u64, u64, i32, u64, u64))
    ensures
        insert_pos(s, k) <= s.len(),
        forall|i: int| insert_pos(s, k) <= i < s.len() ==> key_less(k, sort_key(#[trigger] s[i])),
        insert_pos(s, k) > 0 ==> !key_less(k, sort_key(s[insert_pos(s, k) - 1])),
    decreases s.len(),
{
    if s.len() > 0 && key_less(k, sort_key(s.last())) {
        lemma_insert_pos(s.drop_last(), k);
        assert forall|i: int| insert_pos(s, k) <= i < s.len() implies key_less(
            k,
            sort_key(#[trigger] s[i]),
        ) by {
            if i < s.len() - 1 {
                assert(s[i] == s.drop_last()[i]);
            }
        }
    }
}

/// Sorting gives the messages in ascending order, each as often as before.
pub proof fn lemma_stable_sort(s: Seq<RaftMessage>)
    ensures
        stable_sort(s).len() == s.len(),
        is_sorted(stable_sort(s)),
        stable_sort(s).to_multiset() == s.to_multiset(),
    decreases s.len(),
{
    if s.len() > 0 {
        let r = s.drop_last();
        let t = stable_sort(r);
        let m = s.last();
        let p = insert_pos(t, sort_key(m)) as int;
        lemma_stable_sort(r);
        lemma_insert_pos(t, sort_key(m));
        let u = t.insert(p, m);
        assert forall|i: int, j: int| 0 <= i < j < u.len() implies !key_less(
            sort_key(#[trigger] u[j]),
            sort_key(#[trigger] u[i]),
        ) by {
            let a = if i < p {
                t[i]
            } else if i == p {
                m
            } else {
                t[i - 1]
            };
            let b = if j < p {
                t[j]
            } else if j == p {
                m
            } else {
                t[j - 1]
            };
            assert(u[i] == a && u[j] == b);
            if p > 0 && i < p && j == p {
                if i < p - 1 {
                    assert(!key_less(sort_key(t[p - 1]), sort_key(t[i])));
                }
            }
        }
        vstd::seq_lib::to_multiset_build(r, m);
        assert(s =~= r.push(m));
        vstd::seq_lib::to_multiset_insert(t, p, m);
    } else {
        assert(s =~= stable_sort(s));
    }
}

/// The messages with key `k`, in their order.
pub open spec fn with_key(s: Seq<RaftMessage>, k: (u64, u64, u64, i32, u64, u64)) -> Seq<
    RaftMessage,
>
    decreases s.len(),
{
    if s.len() == 0 {
        Seq::empty()
    } else if sort_key(s.last()) == k {
        with_key(s.drop_last(), k).push(s.last())
    } else {
        with_key(s.drop_last(), k)
    }
}

proof fn lemma_with_key_concat(
    a: Seq<RaftMessage>,
    b: Seq<RaftMessage>,
    k: (u64, u64, u64, i32, u64, u64),
)
    ensures
        with_key(a + b, k) == with_key(a, k) + with_key(b, k),
    decreases b.len(),
{
    if b.len() == 0 {
        assert(a + b =~= a);
        assert(with_key(a, k) + with_key(b, k) =~= with_key(a, k));
    } else {
        lemma_with_key_concat(a, b.drop_last(), k);
        assert((a + b).drop_last() =~= a + b.drop_last());
        assert((a + b).last() == b.last());
        assert(with_key(a + b, k) =~= with_key(a, k) + with_key(b, k));
    }
}

proof fn lemma_with_key_none(s: Seq<RaftMessage>, k: (u64, u64, u64, i32, u64, u64))
    requires
        forall|i: int| 0 <= i < s.len() ==> sort_key(#[trigger] s[i]) != k,
    ensures
        with_key(s, k).len() == 0,
    decreases s.len(),
{
    if s.len() > 0 {
        assert forall|i: int| 0 <= i < s.drop_last().len() implies sort_key(
            #[trigger] s.drop_last()[i],
        ) != k by {
            assert(s.drop_last()[i] == s[i]);
        }
        lemma_with_key_none(s.drop_last(), k);
    }
}

/// Sorting is stable: messages with one key keep their order.
pub proof fn lemma_sort_is_stable(s: Seq<RaftMessage>, k: (u64, u64, u64, i32, u64, u64))
    ensures
        with_key(stable_sort(s), k) == with_key(s, k),
    decreases s.len(),
{
    if s.len() > 0 {
        let t = stable_sort(s.drop_last());
        let m = s.last();
        let p = insert_pos(t, sort_key(m)) as int;
        lemma_sort_is_stable(s.drop_last(), k);
        lemma_insert_pos(t, sort_key(m));
        let front = t.take(p);
        let back = t.skip(p);
        assert(t =~= front + back);
        assert(t.insert(p, m) =~= front.push(m) + back);
        lemma_with_key_concat(front, back, k);
        lemma_with_key_concat(front.push(m), back, k);
        assert(front.push(m).drop_last() =~= front);
        if sort_key(m) == k {
            assert forall|i: int| 0 <= i < back.len() implies sort_key(#[trigger] back[i]) != k by {
                assert(back[i] == t[p + i]);
            }
            lemma_with_key_none(back, k);
            assert(with_key(back, k) =~= Seq::empty());
            assert(with_key(front, k) + with_key(back, k) =~= with_key(front, k));
            assert(with_key(front.push(m), k) + with_key(back, k) =~= with_key(front, k).push(m));
        }
    }
}

proof fn lemma_keys_multiset(a: Seq<RaftMessage>, b: Seq<RaftMessage>)
    requires
        a.to_multiset() == b.to_multiset(),
    ensures
        keys(a).to_multiset() == keys(b).to_multiset(),
    decreases a.len(),
{
    vstd::seq_lib::to_multiset_len(a);
    vstd::seq_lib::to_multiset_len(b);
    if a.len() == 0 {
        assert(keys(a) =~= keys(b));
    } else {
        let n = a.len() - 1;
        vstd::seq_lib::to_multiset_contains(a, a[n]);
        vstd::seq_lib::to_multiset_contains(b, a[n]);
        assert(a.contains(a[n]));
        let j = choose|j: int| 0 <= j < b.len() && b[j] == a[n];
        vstd::seq_lib::to_multiset_remove(a, n);
        vstd::seq_lib::to_multiset_remove(b, j);
        lemma_keys_multiset(a.remove(n), b.remove(j));
        assert(keys(a.remove(n)) =~= keys(a).remove(n));
        assert(keys(b.remove(j)) =~= keys(b).remove(j));
        vstd::seq_lib::to_multiset_remove(keys(a), n);
        vstd::seq_lib::to_multiset_remove(keys(b), j);
        let k = sort_key(a[n]);
        vstd::seq_lib::to_multiset_contains(keys(a), k);
        vstd::seq_lib::to_multiset_contains(keys(b), k);
        assert(keys(a)[n] == k && keys(b)[j] == k);
        assert(keys(a).to_multiset() =~= keys(a).to_multiset().remove(k).insert(k));
        assert(keys(b).to_multiset() =~= keys(b).to_multiset().remove(k).insert(k));
    }
}

proof fn lemma_sorted_keys_unique(
    a: Seq<(u64, u64, u64, i32, u64, u64)>,
    b: Seq<(u64, u64, u64, i32, u64, u64)>,
)
    requires
        forall|i: int, j: int|
            0 <= i < j < a.len() ==> !key_less(#[trigger] a[j], #[trigger] a[i]),
        forall|i: int, j: int|
            0 <= i < j < b.len() ==> !key_less(#[trigger] b[j], #[trigger] b[i]),
        a.to_multiset() == b.to_multiset(),
    ensures
        a == b,
    decreases a.len(),
{
    vstd::seq_lib::to_multiset_len(a);
    vstd::seq_lib::to_multiset_len(b);
    if a.len() == 0 {
        assert(a =~= b);
    } else {
        let n = a.len() - 1;
        vstd::seq_lib::to_multiset_contains(a, a[n]);
        vstd::seq_lib::to_multiset_contains(b, a[n]);
        vstd::seq_lib::to_multiset_contains(a, b[n]);
        vstd::seq_lib::to_multiset_contains(b, b[n]);
        assert(a.contains(a[n]) && b.contains(b[n]));
        let j = choose|j: int| 0 <= j < b.len() && b[j] == a[n];
        let i = choose|i: int| 0 <= i < a.len() && a[i] == b[n];
        assert(a[n] == b[n]) by {
            if j < n && i < n {
                assert(!key_less(b[n], b[j]));
                assert(!key_less(a[n], a[i]));
            }
        }
        vstd::seq_lib::to_multiset_remove(a, n);
        vstd::seq_lib::to_multiset_remove(b, n);
        assert(a.remove(n) =~= a.drop_last());
        assert(b.remove(n) =~= b.drop_last());
        lemma_sorted_keys_unique(a.drop_last(), b.drop_last());
        assert(a =~= a.drop_last().push(a[n]));
        assert(b =~= b.drop_last().push(b[n]));
    }
}

/// The keys come out in one order, in whatever order the messages were put in.
pub proof fn lemma_sort_keys_deterministic(a: Seq<RaftMessage>, b: Seq<RaftMessage>)
    requires
        a.to_multiset() == b.to_multiset(),
    ensures
        keys(stable_sort(a)) == keys(stable_sort(b)),
{
    lemma_stable_sort(a);
    lemma_stable_sort(b);
    lemma_keys_multiset(stable_sort(a), stable_sort(b));
    assert forall|i: int, j: int| 0 <= i < j < keys(stable_sort(a)).len() implies !key_less(
        #[trigger] keys(stable_sort(a))[j],
        #[trigger] keys(stable_sort(a))[i],
    ) by {
        assert(!key_less(sort_key(stable_sort(a)[j]), sort_key(stable_sort(a)[i])));
    }
    assert forall|i: int, j: int| 0 <= i < j < keys(stable_sort(b)).len() implies !key_less(
        #[trigger] keys(stable_sort(b))[j],
        #[trigger] keys(stable_sort(b))[i],
    ) by {
        assert(!key_less(sort_key(stable_sort(b)[j]), sort_key(stable_sort(b)[i])));
    }
    lemma_sorted_keys_unique(keys(stable_sort(a)), keys(stable_sort(b)));
}

proof fn lemma_same_key_same_message(a: Seq<RaftMessage>, b: Seq<RaftMessage>)
    requires
        a.to_multiset() == b.to_multiset(),
        keys(a) == keys(b),
        distinct_keys(a),
    ensures
        a == b,
{
    assert(keys(a).len() == a.len() && keys(b).len() == b.len());
    assert forall|i: int| 0 <= i < a.len() implies a[i] == b[i] by {
        vstd::seq_lib::to_multiset_contains(a, b[i]);
        vstd::seq_lib::to_multiset_contains(b, b[i]);
        assert(b.contains(b[i]));
        let j = choose|j: int| 0 <= j < a.len() && a[j] == b[i];
        assert(keys(a)[i] == keys(b)[i]);
        assert(sort_key(a[j]) == sort_key(a[i]));
    }
    assert(a =~= b);
}

/// Whether no two messages have the same key.
pub open spec fn distinct_keys(s: Seq<RaftMessage>) -> bool {
    forall|i: int, j: int|
        0 <= i < j < s.len() ==> sort_key(#[trigger] s[i]) != sort_key(#[trigger] s[j])
}

proof fn lemma_distinct_keys_sorted(s: Seq<RaftMessage>)
    requires
        distinct_keys(s),
    ensures
        distinct_keys(stable_sort(s)),
    decreases s.len(),
{
    if s.len() > 0 {
        let t = stable_sort(s.drop_last());
        let m = s.last();
        let p = insert_pos(t, sort_key(m)) as int;
        assert(distinct_keys(s.drop_last())) by {
            assert forall|i: int, j: int|
                0 <= i < j < s.drop_last().len() implies sort_key(
                #[trigger] s.drop_last()[i],
            ) != sort_key(#[trigger] s.drop_last()[j]) by {
                assert(s.drop_last()[i] == s[i] && s.drop_last()[j] == s[j]);
            }
        }
        lemma_distinct_keys_sorted(s.drop_last());
        lemma_stable_sort(s.drop_last());
        lemma_insert_pos(t, sort_key(m));
        assert forall|i: int| 0 <= i < t.len() implies sort_key(#[trigger] t[i]) != sort_key(m) by {
            vstd::seq_lib::to_multiset_contains(t, t[i]);
            vstd::seq_lib::to_multiset_contains(s.drop_last(), t[i]);
            assert(t.contains(t[i]));
            let j = choose|j: int| 0 <= j < s.drop_last().len() && s.drop_last()[j] == t[i];
            assert(sort_key(s[j]) != sort_key(s[s.len() - 1]));
        }
        let u = t.insert(p, m);
        assert forall|i: int, j: int| 0 <= i < j < u.len() implies sort_key(#[trigger] u[i])
            != sort_key(#[trigger] u[j]) by {
            let a = if i < p {
                t[i]
            } else if i == p {
                m
            } else {
                t[i - 1]
            };
            let b = if j < p {
                t[j]
            } else if j == p {
                m
            } else {
                t[j - 1]
            };
            assert(u[i] == a && u[j] == b);
        }
    }
}

/// Messages with distinct keys are released in one order, in whatever order
/// they were put in.
pub proof fn lemma_sort_deterministic(a: Seq<RaftMessage>, b: Seq<RaftMessage>)
    requires
        a.to_multiset() == b.to_multiset(),
        distinct_keys(a),
    ensures
        stable_sort(a) == stable_sort(b),
{
    lemma_sort_keys_deterministic(a, b);
    lemma_stable_sort(a);
    lemma_stable_sort(b);
    lemma_distinct_keys_sorted(a);
    lemma_same_key_same_message(stable_sort(a), stable_sort(b));
}

/// The order of keys, field by field: the sender decides, then the receiver,
/// the region, the type, the term and the index, and of each the smaller number
/// comes first.
pub proof fn lemma_order_of_keys(
    a: (u64, u64, u64, i32, u64, u64),
    b: (u64, u64, u64, i32, u64, u64),
)
    ensures
        a.0 < b.0 ==> key_less(a, b) && !key_less(b, a),
        a.0 == b.0 && a.1 < b.1 ==> key_less(a, b) && !key_less(b, a),
        a.0 == b.0 && a.1 == b.1 && a.2 < b.2 ==> key_less(a, b) && !key_less(b, a),
        a.0 == b.0 && a.1 == b.1 && a.2 == b.2 && a.3 < b.3 ==> key_less(a, b) && !key_less(b, a),
        a.0 == b.0 && a.1 == b.1 && a.2 == b.2 && a.3 == b.3 && a.4 < b.4 ==> key_less(a, b)
            && !key_less(b, a),
        a.0 == b.0 && a.1 == b.1 && a.2 == b.2 && a.3 == b.3 && a.4 == b.4 && a.5 < b.5
            ==> key_less(a, b) && !key_less(b, a),
        !key_less(a, a),
{
}

/// Sorted messages ascend field by field: of two of them the earlier one has
/// the smaller sender; where the senders are equal the smaller receiver; and so
/// on through region, type, term and index.
pub proof fn lemma_sorted_fields_ascend(s: Seq<RaftMessage>, i: int, j: int)
    requires
        0 <= i < j < s.len(),
    ensures
        stable_sort(s).len() == s.len(),
        ({
            let x = stable_sort(s)[i];
            let y = stable_sort(s)[j];
            let from = x.from_store_id == y.from_store_id;
            let to = x.to_store_id == y.to_store_id;
            let region = x.region_id == y.region_id;
            let kind = x.msg_type == y.msg_type;
            let term = x.term == y.term;
            &&& x.from_store_id <= y.from_store_id
            &&& from ==> x.to_store_id <= y.to_store_id
            &&& from && to ==> x.region_id <= y.region_id
            &&& from && to && region ==> x.msg_type <= y.msg_type
            &&& from && to && region && kind ==> x.term <= y.term
            &&& from && to && region && kind && term ==> x.index <= y.index
        }),
{
    lemma_stable_sort(s);
    let x = stable_sort(s)[i];
    let y = stable_sort(s)[j];
    assert(!key_less(sort_key(y), sort_key(x)));
    lemma_order_of_keys(sort_key(y), sort_key(x));
}

/// Whether two messages agree in all that they are sorted by.
pub open spec fn same_fields(x: RaftMessage, y: RaftMessage) -> bool {
    &&& x.from_store_id == y.from_store_id
    &&& x.to_store_id == y.to_store_id
    &&& x.region_id == y.region_id
    &&& x.msg_type == y.msg_type
    &&& x.term == y.term
    &&& x.index == y.index
}

proof fn lemma_with_key_is_filter(s: Seq<RaftMessage>, x: RaftMessage)
    ensures
        with_key(s, sort_key(x)) == s.filter(|m: RaftMessage| same_fields(m, x)),
    decreases s.len(),
{
    reveal(Seq::filter);
    if s.len() > 0 {
        lemma_with_key_is_filter(s.drop_last(), x);
    } else {
        assert(with_key(s, sort_key(x)) =~= s);
    }
}

/// Sorting loses no message and invents none, and messages that agree in all
/// six fields come out in the order in which they were put in.
pub proof fn lemma_sort_keeps_equal_fields(s: Seq<RaftMessage>, x: RaftMessage)
    ensures
        stable_sort(s).to_multiset() == s.to_multiset(),
        stable_sort(s).filter(|m: RaftMessage| same_fields(m, x)) == s.filter(
            |m: RaftMessage| same_fields(m, x),
        ),
{
    lemma_stable_sort(s);
    lemma_sort_is_stable(s, sort_key(x));
    lemma_with_key_is_filter(s, x);
    lemma_with_key_is_filter(stable_sort(s), x);
}

} // verus!
