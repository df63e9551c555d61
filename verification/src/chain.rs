//! How contracts speak of calls that are made one after the other on one
//! state: the states between them form a chain.

use vstd::prelude::*;

verus! {

/// Whether `states` leads from `from` to `to` in so many calls.
pub open spec fn is_chain<S>(states: Seq<S>, calls: nat, from: S, to: S) -> bool {
    states.len() == calls + 1 && states[0] == from && states[calls as int] == to
}

/// Whether `i` is a position in `s`.
pub open spec fn within<A>(s: Seq<A>, i: int) -> bool {
    0 <= i < s.len()
}

} // verus!
