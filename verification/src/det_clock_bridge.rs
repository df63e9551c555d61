//! Bridge from the logical clock to code outside this process image: the
//! current time is kept in a small shared file.

use crate::number::{
    encode_i64_le, le_digits, le_value, lemma_le_digits_are_quotients, lemma_le_round_trip, pow256,
};
use vstd::arithmetic::power::pow;
use vstd::prelude::*;

verus! {

/// Where the shared file is unless another place is given.
pub const DEFAULT_PATH: &'static str = "/tmp/dst_clock";

/// What is to be written at the start of which file.
#[derive(Debug)]
pub struct ClockWrite {
    pub path: String,
    pub bytes: Vec<u8>,
}

impl ClockWrite {
    /// Whether this writes the time `nanos` to the file at `path`.
    pub open spec fn writes(self, path: Seq<char>, nanos: i64) -> bool {
        self.path@ == path && self.bytes@ == le_digits(nanos as u64 as nat, 8)
    }
}

/// Which file the time is kept in, once it has been written there.
#[derive(Debug)]
pub struct ClockBridge {
    path: Option<String>,
}

impl View for ClockBridge {
    type V = Option<Seq<char>>;

    closed spec fn view(&self) -> Option<Seq<char>> {
        match self.path {
            Some(p) => Some(p@),
            None => None,
        }
    }
}

impl ClockBridge {
    /// A bridge that writes nowhere yet.
    pub fn new() -> (r: ClockBridge)
        ensures
            r@ is None,
    {
        ClockBridge { path: None }
    }
}

/// The first write of a bridge to the file at `shm_path`, or at the default
/// place.
pub fn init(shm_path: Option<&str>, nanos: i64) -> (r: ClockWrite)
    ensures
        r.writes(
            match shm_path {
                Some(p) => p@,
                None => DEFAULT_PATH@,
            },
            nanos,
        ),
{
    let path: String = match shm_path {
        Some(p) => p.to_owned(),
        None => DEFAULT_PATH.to_owned(),
    };
    ClockWrite { path, bytes: encode_i64_le(nanos) }
}

/// Takes note of how the first write went: the file is used from now on where
/// it could be written, and nothing changes where it could not.
pub fn init_done(bridge: &mut ClockBridge, first: ClockWrite, written: bool)
    ensures
        final(bridge)@ == if written {
            Some(first.path@)
        } else {
            old(bridge)@
        },
{
    if written {
        bridge.path = Some(first.path);
    }
}

/// The write that brings the shared file up to date, if there is one.
pub fn sync(bridge: &ClockBridge, nanos: i64) -> (r: Option<ClockWrite>)
    ensures
        match r {
            Some(w) => bridge@ is Some && w.writes(bridge@->0, nanos),
            None => bridge@ is None,
        },
{
    match &bridge.path {
        Some(p) => Some(ClockWrite { path: p.clone(), bytes: encode_i64_le(nanos) }),
        None => None,
    }
}

/// The file that is used, or the default place.
pub fn shm_path(bridge: &ClockBridge) -> (r: String)
    ensures
        r@ == match bridge@ {
            Some(p) => p,
            None => DEFAULT_PATH@,
        },
{
    match &bridge.path {
        Some(p) => p.clone(),
        None => DEFAULT_PATH.to_owned(),
    }
}

/// A write tells the time: eight bytes, the least significant first, of the
/// time in two's complement. Different times are different bytes.
pub proof fn lemma_write_tells_time(w: ClockWrite, path: Seq<char>, nanos: i64)
    requires
        w.writes(path, nanos),
    ensures
        ({
            let value = if nanos >= 0 {
                nanos as int
            } else {
                nanos + 0x1_0000_0000_0000_0000
            };
            &&& w.path@ == path
            &&& w.bytes@.len() == 8
            &&& le_value(w.bytes@) == value
            &&& forall|i: int|
                0 <= i < 8 ==> #[trigger] w.bytes@[i] == (value / pow(256, i as nat)) % 256
        }),
{
    assert(nanos >= 0 ==> nanos as u64 == nanos) by (bit_vector);
    assert(nanos < 0 ==> nanos as u64 == nanos + 0x1_0000_0000_0000_0000) by (bit_vector);
    let v = nanos as u64 as nat;
    assert(pow256(8) == 0x1_0000_0000_0000_0000) by {
        reveal_with_fuel(pow256, 9);
    }
    lemma_le_round_trip(v, 8);
    assert forall|i: int| 0 <= i < 8 implies #[trigger] w.bytes@[i] == (v as int / pow(
        256,
        i as nat,
    )) % 256 by {
        lemma_le_digits_are_quotients(v, 8, i);
    }
}

/// The default place of the shared file.
pub proof fn lemma_default_place()
    ensures
        DEFAULT_PATH@ == seq![
            '/', 't', 'm', 'p', '/', 'd', 's', 't', '_', 'c', 'l', 'o', 'c', 'k',
        ],
{
    reveal_strlit("/tmp/dst_clock");
    assert(DEFAULT_PATH@ =~= seq![
        '/', 't', 'm', 'p', '/', 'd', 's', 't', '_', 'c', 'l', 'o', 'c', 'k',
    ]);
}

} // verus!
