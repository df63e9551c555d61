//! Hash maps whose order of iteration is a function of a seed and of what was
//! done to them.

use crate::dst_rng::{
    after_words, coming_words, lemma_stream_in_numbers, seeded_words, std_next_u64,
    std_seed_from_u64, two_words,
};
use rand::rngs::StdRng;
use std::collections::{BTreeMap, BTreeSet, HashMap};
use std::hash::{BuildHasher, Hasher};
use vstd::prelude::*;

verus! {

/// Makes hashers from a seed.
#[derive(Debug)]
pub struct DstBuildHasher {
    seed: u64,
}

impl Clone for DstBuildHasher {
    fn clone(&self) -> (r: DstBuildHasher)
        ensures
            r@ == self@,
    {
        DstBuildHasher { seed: self.seed }
    }
}

impl View for DstBuildHasher {
    type V = u64;

    closed spec fn view(&self) -> u64 {
        self.seed
    }
}

impl DstBuildHasher {
    pub fn new(seed: u64) -> (r: DstBuildHasher)
        ensures
            r@ == seed,
    {
        DstBuildHasher { seed }
    }
}

/// A hasher whose result depends on a seed and on what was written.
pub struct DstHasher {
    state: u64,
    rng: StdRng,
}

/// What a hasher holds: its state, and the words that it mixes in.
#[verifier::ext_equal]
pub struct HasherView {
    pub state: u64,
    pub words: Map<nat, u32>,
}

impl View for DstHasher {
    type V = HasherView;

    closed spec fn view(&self) -> HasherView {
        HasherView { state: self.state, words: coming_words(self.rng) }
    }
}

/// The state after the bytes were folded in, one after the other.
pub open spec fn folded(state: u64, bytes: Seq<u8>) -> u64
    decreases bytes.len(),
{
    if bytes.len() == 0 {
        state
    } else {
        folded(state, bytes.drop_last()).wrapping_mul(0x100_0000_01B3).wrapping_add(
            bytes.last() as u64,
        )
    }
}

impl HasherView {
    /// The hasher that a seed gives.
    pub open spec fn seeded(seed: u64) -> HasherView {
        HasherView { state: seed, words: seeded_words(seed) }
    }

    /// The hasher after a write: the bytes are folded in, then sixteen bits of
    /// the seeded stream.
    pub open spec fn written(self, bytes: Seq<u8>) -> HasherView {
        HasherView {
            state: folded(self.state, bytes) ^ (two_words(self.words) & 0xFFFF),
            words: after_words(self.words, 2),
        }
    }
}

impl BuildHasher for DstBuildHasher {
    type Hasher = DstHasher;

    fn build_hasher(&self) -> (r: DstHasher)
        ensures
            r@ == HasherView::seeded(self@),
    {
        DstHasher { state: self.seed, rng: std_seed_from_u64(self.seed) }
    }
}

impl Hasher for DstHasher {
    fn write(&mut self, bytes: &[u8])
        ensures
            final(self)@ == old(self)@.written(bytes@),
    {
        let mut i: usize = 0;
        while i < bytes.len()
            invariant
                i <= bytes@.len(),
                self.rng == old(self).rng,
                self.state == folded(old(self).state, bytes@.take(i as int)),
            decreases bytes@.len() - i,
        {
            assert(bytes@.take(i + 1).drop_last() =~= bytes@.take(i as int));
            self.state = self.state.wrapping_mul(0x100_0000_01B3).wrapping_add(bytes[i] as u64);
            i = i + 1;
        }
        assert(bytes@.take(i as int) =~= bytes@);
        self.state = self.state ^ (std_next_u64(&mut self.rng) & 0xFFFF);
    }

    fn finish(&self) -> (r: u64)
        ensures
            r == self@.state,
    {
        self.state
    }
}

/// What a hasher of this seed gives after these writes.
pub open spec fn hash_of(seed: u64, writes: Seq<Seq<u8>>) -> HasherView
    decreases writes.len(),
{
    if writes.len() == 0 {
        HasherView::seeded(seed)
    } else {
        hash_of(seed, writes.drop_last()).written(writes.last())
    }
}

/// The words that a hasher mixes in depend on the seed and on the number of
/// writes alone, not on what is written.
pub proof fn lemma_mixed_words(seed: u64, writes: Seq<Seq<u8>>)
    ensures
        forall|i: nat| #[trigger]
            hash_of(seed, writes).words[i] == seeded_words(seed)[i + 2 * writes.len()],
    decreases writes.len(),
{
    if writes.len() > 0 {
        lemma_mixed_words(seed, writes.drop_last());
        let front = hash_of(seed, writes.drop_last());
        assert forall|i: nat| #[trigger]
            hash_of(seed, writes).words[i] == seeded_words(seed)[i + 2 * writes.len()] by {
            assert(front.words[i + 2] == seeded_words(seed)[i + 2 + 2 * (writes.len() - 1) as nat]);
        }
    }
}

/// A hash map that hashes by a seed: its order of iteration is arbitrary, but
/// the same for the same seed and the same insertions.
pub type DstHashMap<K, V> = HashMap<K, V, DstBuildHasher>;

/// `HashMap::with_hasher` makes an empty map. How the map goes on to hash with
/// the given builder, and so its order of iteration, is not part of the
/// contract.
pub assume_specification<K, V, S>[ std::collections::HashMap::<K, V, S>::with_hasher ](
    hash_builder: S,
) -> (r: std::collections::HashMap<K, V, S>)
    ensures
        r@.dom() == Set::<K>::empty(),
;

/// An empty map that hashes by this seed: what `HashMap::with_hasher` makes of
/// a builder with this seed.
pub fn hashmap_with_seed<K, V>(seed: u64) -> (r: DstHashMap<K, V>)
    ensures
        r@.dom() == Set::<K>::empty(),
        exists|b: DstBuildHasher|
            b@ == seed && #[trigger] call_ensures(
                HashMap::<K, V, DstBuildHasher>::with_hasher,
                (b,),
                r,
            ),
{
    let builder: DstBuildHasher = DstBuildHasher::new(seed);
    let make = HashMap::<K, V, DstBuildHasher>::with_hasher;
    let r: DstHashMap<K, V> = make(builder);
    assert(call_ensures(HashMap::<K, V, DstBuildHasher>::with_hasher, (builder,), r));
    r
}

/// An ordered map, for where the order of iteration can be seen.
pub type DstBTreeMap<K, V> = BTreeMap<K, V>;

/// An ordered set, for where the order of iteration can be seen.
pub type DstBTreeSet<T> = BTreeSet<T>;

/// Folding a byte in multiplies the state and adds the byte, in 64 bits; folding
/// in two runs of bytes is folding in the first, then the second. Without bytes
/// nothing is folded in.
pub proof fn lemma_folding_in_numbers(state: u64, byte: u8, a: Seq<u8>, b: Seq<u8>)
    ensures
        folded(state, Seq::empty()) == state,
        folded(state, seq![byte]) == (state * 0x100_0000_01B3 + byte) % 0x1_0000_0000_0000_0000,
        folded(state, a + b) == folded(folded(state, a), b),
    decreases b.len(),
{
    assert(seq![byte].drop_last() =~= Seq::empty());
    reveal_with_fuel(folded, 2);
    if b.len() == 0 {
        assert(a + b =~= a);
    } else {
        lemma_folding_in_numbers(state, byte, a, b.drop_last());
        assert((a + b).drop_last() =~= a + b.drop_last());
    }
}

/// A write leaves the upper 48 bits of what was folded in and changes the lower
/// sixteen where the next word of the stream has a one; it uses up two words.
/// A hasher starts with the seed as its state.
pub proof fn lemma_write_mixes_low_bits(v: HasherView, bytes: Seq<u8>, seed: u64)
    ensures
        v.written(bytes).state / 0x1_0000 == folded(v.state, bytes) / 0x1_0000,
        v.written(bytes).state ^ folded(v.state, bytes) == v.words[0] % 0x1_0000,
        forall|i: nat| #[trigger] v.written(bytes).words[i] == v.words[i + 2],
        HasherView::seeded(seed).state == seed,
        HasherView::seeded(seed).words == seeded_words(seed),
{
    let f = folded(v.state, bytes);
    let w = two_words(v.words);
    assert((f ^ (w & 0xFFFF)) / 0x1_0000 == f / 0x1_0000) by (bit_vector);
    assert((f ^ (w & 0xFFFF)) ^ f == w % 0x1_0000) by (bit_vector);
    lemma_stream_in_numbers(v.words, 0);
    assert(w % 0x1_0000 == v.words[0] % 0x1_0000);
}

} // verus!
