//! Byte buffers of raft messages, and the random numbers of a thread.

use rand::Rng;
use vstd::prelude::*;

verus! {

/// How many bytes a thread's generator gives before it takes a new seed.
pub const THREAD_RNG_CACHE: usize = 65_536;

/// `bytes::Bytes`, a shared byte buffer.
#[verifier::external_type_specification]
#[verifier::external_body]
pub struct ExBytes(bytes::Bytes);

/// The bytes of a shared buffer.
pub uninterp spec fn buffer_contents(b: bytes::Bytes) -> Seq<u8>;

/// `Bytes::len` counts the bytes of a buffer.
pub assume_specification[ bytes::Bytes::len ](b: &bytes::Bytes) -> (r: usize)
    ensures
        r == buffer_contents(*b).len(),
;

/// What a buffer counts for in reports of memory use. A buffer that came off
/// the wire has no room to spare, so this is its length.
pub fn bytes_capacity(b: &bytes::Bytes) -> (r: usize)
    ensures
        r == buffer_contents(*b).len(),
{
    b.len()
}

/// `rand::thread_rng` and `Rng::fill` overwrite the bytes with random ones.
/// Nothing is known of them but that there are as many. They panic where the
/// operating system gives no entropy for a seed.
#[verifier::external_body]
pub fn fill_from_thread_rng(sink: &mut Vec<u8>)
    ensures
        final(sink)@.len() == old(sink)@.len(),
{
    rand::thread_rng().fill(&mut sink[..]);
}

/// Draws as many bytes from the thread's generator as it gives before it takes
/// a new seed from the operating system. Returns the bytes: a buffer of that
/// size as `fill_from_thread_rng` left it.
pub fn dst_force_thread_rng_reseed() -> (r: Vec<u8>)
    ensures
        r@.len() == THREAD_RNG_CACHE,
        r@.len() == 65_536,
        exists|sink: &mut Vec<u8>| #[trigger]
            call_ensures(fill_from_thread_rng, (sink,), ()) && sink@.len() == THREAD_RNG_CACHE
                && *final(sink) == r,
{
    let mut sink: Vec<u8> = Vec::new();
    sink.resize(THREAD_RNG_CACHE, 0);
    let fill = fill_from_thread_rng;
    fill(&mut sink);
    sink
}

} // verus!
