//! Deterministic random numbers: one seed gives one stream.

use crate::number::{le_digits, lemma_le_digits_are_quotients};
use rand::rngs::StdRng;
use rand::Error as RandError;
use rand::{RngCore, SeedableRng};
use vstd::arithmetic::power::pow;
use vstd::prelude::*;

verus! {

/// The seed of a thread's generator until another one is set.
pub const DEFAULT_THREAD_SEED: u64 = 0xDEAD_BEEF_CAFE_BABE;

/// `rand::rngs::StdRng`, a generator of 32-bit words.
#[verifier::external_type_specification]
#[verifier::external_body]
pub struct ExStdRng(StdRng);

/// `rand::Error`, which a generator may give in place of bytes.
#[verifier::external_type_specification]
#[verifier::external_body]
pub struct ExRandError(RandError);

/// The words that a generator still holds, by their number.
pub uninterp spec fn coming_words(rng: StdRng) -> Map<nat, u32>;

/// The words of the generator that `StdRng::seed_from_u64` makes of a seed.
pub uninterp spec fn seeded_words(seed: u64) -> Map<nat, u32>;

/// The words behind the first `n`.
pub open spec fn after_words(words: Map<nat, u32>, n: nat) -> Map<nat, u32> {
    Map::new(|i: nat| true, |i: nat| words[i + n])
}

/// The first two words as one number, least significant first.
pub open spec fn two_words(words: Map<nat, u32>) -> u64 {
    (words[0] + words[1] * 0x1_0000_0000) as u64
}

/// How many words `n` bytes take.
pub open spec fn words_for(n: nat) -> nat {
    (n + 3) / 4
}

/// The first `n` bytes of the words, each word least significant byte first.
pub open spec fn word_bytes(words: Map<nat, u32>, n: nat) -> Seq<u8> {
    Seq::new(n, |i: int| le_digits(words[(i / 4) as nat] as nat, 4)[i % 4])
}

/// `StdRng::seed_from_u64` makes a generator whose words depend on the seed
/// alone.
#[verifier::external_body]
pub(crate) fn std_seed_from_u64(seed: u64) -> (r: StdRng)
    ensures
        coming_words(r) == seeded_words(seed),
{
    StdRng::seed_from_u64(seed)
}

/// `StdRng::next_u32` gives the next word.
#[verifier::external_body]
pub(crate) fn std_next_u32(rng: &mut StdRng) -> (r: u32)
    ensures
        r == coming_words(*old(rng))[0],
        coming_words(*final(rng)) == after_words(coming_words(*old(rng)), 1),
{
    rng.next_u32()
}

/// `StdRng::next_u64` joins the next two words, least significant first.
#[verifier::external_body]
pub(crate) fn std_next_u64(rng: &mut StdRng) -> (r: u64)
    ensures
        r == two_words(coming_words(*old(rng))),
        coming_words(*final(rng)) == after_words(coming_words(*old(rng)), 2),
{
    rng.next_u64()
}

/// `StdRng::fill_bytes` writes the next words, each least significant byte
/// first, and drops what is left of the last one.
#[verifier::external_body]
pub(crate) fn std_fill_bytes(rng: &mut StdRng, dest: &mut [u8])
    ensures
        final(dest)@ == word_bytes(coming_words(*old(rng)), old(dest)@.len()),
        coming_words(*final(rng)) == after_words(
            coming_words(*old(rng)),
            words_for(old(dest)@.len()),
        ),
{
    rng.fill_bytes(dest)
}

/// `StdRng::try_fill_bytes` does what `fill_bytes` does, and never fails.
#[verifier::external_body]
pub(crate) fn std_try_fill_bytes(rng: &mut StdRng, dest: &mut [u8]) -> (r: Result<(), RandError>)
    ensures
        r is Ok,
        final(dest)@ == word_bytes(coming_words(*old(rng)), old(dest)@.len()),
        coming_words(*final(rng)) == after_words(
            coming_words(*old(rng)),
            words_for(old(dest)@.len()),
        ),
{
    rng.try_fill_bytes(dest)
}

/// A seeded generator.
pub struct DstRng {
    inner: StdRng,
}

/// The words that it still holds, by their number.
impl View for DstRng {
    type V = Map<nat, u32>;

    closed spec fn view(&self) -> Map<nat, u32> {
        coming_words(self.inner)
    }
}

impl DstRng {
    pub fn seed_from_u64(seed: u64) -> (r: DstRng)
        ensures
            r@ == seeded_words(seed),
    {
        DstRng { inner: std_seed_from_u64(seed) }
    }

    /// The generator of a thread that has set no seed.
    pub fn thread_default() -> (r: DstRng)
        ensures
            r@ == seeded_words(DEFAULT_THREAD_SEED),
    {
        DstRng::seed_from_u64(DEFAULT_THREAD_SEED)
    }

    pub fn next_u32(&mut self) -> (r: u32)
        ensures
            r == old(self)@[0],
            final(self)@ == after_words(old(self)@, 1),
    {
        std_next_u32(&mut self.inner)
    }

    pub fn next_u64(&mut self) -> (r: u64)
        ensures
            r == two_words(old(self)@),
            final(self)@ == after_words(old(self)@, 2),
    {
        std_next_u64(&mut self.inner)
    }

    pub fn fill_bytes(&mut self, dest: &mut [u8])
        ensures
            final(dest)@ == word_bytes(old(self)@, old(dest)@.len()),
            final(self)@ == after_words(old(self)@, words_for(old(dest)@.len())),
    {
        std_fill_bytes(&mut self.inner, dest)
    }

    /// As `fill_bytes`; this generator never fails.
    pub fn try_fill_bytes(&mut self, dest: &mut [u8]) -> (r: Result<(), RandError>)
        ensures
            r is Ok,
            final(dest)@ == word_bytes(old(self)@, old(dest)@.len()),
            final(self)@ == after_words(old(self)@, words_for(old(dest)@.len())),
    {
        std_try_fill_bytes(&mut self.inner, dest)
    }
}

/// Sets the seed of a thread's generator.
pub fn dst_set_rng_seed(thread_rng: &mut DstRng, seed: u64)
    ensures
        final(thread_rng)@ == seeded_words(seed),
{
    *thread_rng = DstRng::seed_from_u64(seed);
}

/// A handle to a thread's generator.
pub struct DstRngThreadLocal<'a> {
    pub rng: &'a mut DstRng,
}

/// A handle that draws from the thread's generator.
pub fn dst_thread_rng<'a>(thread_rng: &'a mut DstRng) -> (r: DstRngThreadLocal<'a>)
    ensures
        *r.rng == *old(thread_rng),
        *final(r.rng) == *final(thread_rng),
{
    DstRngThreadLocal { rng: thread_rng }
}

impl<'a> DstRngThreadLocal<'a> {
    pub fn next_u32(&mut self) -> (r: u32)
        ensures
            r == old(self).rng@[0],
            final(self).rng@ == after_words(old(self).rng@, 1),
            *final(final(self).rng) == *final(old(self).rng),
    {
        self.rng.next_u32()
    }

    pub fn next_u64(&mut self) -> (r: u64)
        ensures
            r == two_words(old(self).rng@),
            final(self).rng@ == after_words(old(self).rng@, 2),
            *final(final(self).rng) == *final(old(self).rng),
    {
        self.rng.next_u64()
    }

    pub fn fill_bytes(&mut self, dest: &mut [u8])
        ensures
            final(dest)@ == word_bytes(old(self).rng@, old(dest)@.len()),
            final(self).rng@ == after_words(old(self).rng@, words_for(old(dest)@.len())),
            *final(final(self).rng) == *final(old(self).rng),
    {
        self.rng.fill_bytes(dest)
    }

    pub fn try_fill_bytes(&mut self, dest: &mut [u8]) -> (r: Result<(), RandError>)
        ensures
            r is Ok,
            final(dest)@ == word_bytes(old(self).rng@, old(dest)@.len()),
            final(self).rng@ == after_words(old(self).rng@, words_for(old(dest)@.len())),
            *final(final(self).rng) == *final(old(self).rng),
    {
        self.rng.try_fill_bytes(dest)
    }
}

/// Draws move along one stream: those behind `a` and then `b` words are those
/// behind `a + b` words. So one seed gives one sequence of draws, whatever
/// their sizes.
pub proof fn lemma_draws_add_up(words: Map<nat, u32>, a: nat, b: nat)
    ensures
        after_words(after_words(words, a), b) == after_words(words, a + b),
{
    assert forall|i: nat| #[trigger]
        after_words(after_words(words, a), b)[i] == after_words(words, a + b)[i] by {
        assert(i + b + a == i + (a + b));
    }
    assert(after_words(after_words(words, a), b) =~= after_words(words, a + b));
}

/// Filling four bytes draws the word that `next_u32` would give.
pub proof fn lemma_four_bytes_are_a_word(words: Map<nat, u32>)
    ensures
        word_bytes(words, 4) == le_digits(words[0] as nat, 4),
        words_for(4) == 1,
{
    assert(crate::number::pow256(4) == 0x1_0000_0000) by {
        reveal_with_fuel(crate::number::pow256, 5);
    }
    crate::number::lemma_le_round_trip(words[0] as nat, 4);
    assert(word_bytes(words, 4) =~= le_digits(words[0] as nat, 4));
}

/// Numbers and bytes of one stream, in numbers. A long number has the first
/// word in its lower half and the second in its upper half. Byte `i` of a
/// buffer is byte `i % 4` of word `i / 4`, the least significant first. A
/// buffer uses up just as many words as it takes to cover it, and word `i`
/// behind `n` words is word `i + n`.
pub proof fn lemma_stream_in_numbers(words: Map<nat, u32>, n: nat)
    ensures
        two_words(words) % 0x1_0000_0000 == words[0],
        two_words(words) / 0x1_0000_0000 == words[1],
        n <= 4 * words_for(n) < n + 4,
        forall|i: nat| #[trigger] after_words(words, n)[i] == words[i + n],
        word_bytes(words, n).len() == n,
        forall|i: int|
            0 <= i < n ==> #[trigger] word_bytes(words, n)[i] == (words[(i / 4) as nat] as int / pow(
                256,
                (i % 4) as nat,
            )) % 256,
        DEFAULT_THREAD_SEED == 0xDEAD_BEEF_CAFE_BABE,
{
    assert forall|i: int| 0 <= i < n implies #[trigger] word_bytes(words, n)[i] == (words[(i
        / 4) as nat] as int / pow(256, (i % 4) as nat)) % 256 by {
        lemma_le_digits_are_quotients(words[(i / 4) as nat] as nat, 4, i % 4);
    }
}

} // verus!
