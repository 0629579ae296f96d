//! Growth policy of the scratch buffer handed to the row decoder.

use vstd::prelude::*;

verus! {

/// The capacity a fresh scratch buffer starts with.
pub const INITIAL_SCRATCH: usize = 1024;

/// `p` is a power of two.
pub open spec fn is_pow2(p: nat) -> bool
    decreases p,
{
    if p <= 1 {
        p == 1
    } else {
        p % 2 == 0 && is_pow2(p / 2)
    }
}

/// `p` is the least power of two that is at least `x`.
pub open spec fn is_next_pow2(x: nat, p: nat) -> bool {
    is_pow2(p) && x <= p && (p == 1 || p / 2 < x)
}

/// The least power of two that is at least `x`, or `None` where it does not
/// fit in a `usize`.
pub fn next_power_of_two(x: usize) -> (r: Option<usize>)
    ensures
        r matches Some(p) ==> is_next_pow2(x as nat, p as nat),
        r is None ==> x > (usize::MAX as nat + 1) / 2,
{
    let mut p: usize = 1;
    while p < x
        invariant
            is_pow2(p as nat),
            p >= 1,
            p == 1 || p / 2 < x,
        decreases usize::MAX - p,
    {
        if p > usize::MAX / 2 {
            return None;
        }
        assert(is_pow2((p * 2) as nat)) by {
            assert((p * 2) as nat / 2 == p as nat);
        }
        p = p * 2;
    }
    Some(p)
}

/// A new scratch buffer of the initial capacity.
pub fn new_scratch() -> (r: Vec<u8>)
    ensures
        r@.len() == INITIAL_SCRATCH,
        is_pow2(r@.len()),
{
    assert(is_pow2(1024)) by {
        reveal_with_fuel(is_pow2, 11);
    }
    vec![0u8; INITIAL_SCRATCH]
}

/// Grows `scratch` so that it has room for `need` more bytes, to the next
/// power of two. Returns `false`, leaving `scratch` as it was, where that
/// capacity would pass half of the address space.
pub fn grow_scratch(scratch: &mut Vec<u8>, need: usize) -> (ok: bool)
    ensures
        old(scratch)@.len() + need <= (usize::MAX as nat + 1) / 2 ==> ok,
        ok ==> is_next_pow2((old(scratch)@.len() + need) as nat, final(scratch)@.len()),
        !ok ==> final(scratch)@ == old(scratch)@ && old(scratch)@.len() + need > (
        usize::MAX as nat + 1) / 2,
{
    if need > usize::MAX - scratch.len() {
        return false;
    }
    match next_power_of_two(scratch.len() + need) {
        Some(p) => {
            scratch.resize(p, 0u8);
            true
        },
        None => false,
    }
}

/// A power of two above another is at least twice it.
pub proof fn lemma_pow2_gap(p: nat, q: nat)
    requires
        is_pow2(p),
        is_pow2(q),
        p > q,
    ensures
        p / 2 >= q,
    decreases q,
{
    if q > 1 {
        lemma_pow2_gap(p / 2, q / 2);
    }
}

} // verus!
