//! The deterministic 32-bit xorshift generator the game engine draws from.
//!
//! One draw applies `x ^= x << 13; x ^= x >> 17; x ^= x << 5;` and the result
//! is both the drawn value and the next state. Each of the three stages is a
//! bijection on 32-bit words that maps only zero to zero, so a non-zero state
//! never becomes zero — while a zero state stays zero forever and must never
//! be used as a seed.

use vstd::prelude::*;

verus! {

/// One step of the xorshift recurrence: the value drawn from state `x`,
/// which is also the state after the draw.
pub open spec fn xorshift_step(x: u32) -> u32 {
    let a = x ^ (x << 13u32);
    let b = a ^ (a >> 17u32);
    b ^ (b << 5u32)
}

/// A non-zero state never steps to zero: the generator never draws the value
/// zero from a properly (non-zero) seeded state.
pub proof fn lemma_xorshift_nonzero(x: u32)
    requires
        x != 0,
    ensures
        xorshift_step(x) != 0,
{
    let a = x ^ (x << 13u32);
    let b = a ^ (a >> 17u32);
    assert(x != 0 ==> (x ^ (x << 13u32)) != 0) by (bit_vector);
    assert(a != 0 ==> (a ^ (a >> 17u32)) != 0) by (bit_vector);
    assert(b != 0 ==> (b ^ (b << 5u32)) != 0) by (bit_vector);
}

/// The step is injective: two distinct states never draw their way into the
/// same successor state, so the reachable non-zero states form pure cycles.
pub proof fn lemma_xorshift_injective(x: u32, y: u32)
    requires
        xorshift_step(x) == xorshift_step(y),
    ensures
        x == y,
{
    let ax = x ^ (x << 13u32);
    let bx = ax ^ (ax >> 17u32);
    let ay = y ^ (y << 13u32);
    let by = ay ^ (ay >> 17u32);
    assert((bx ^ (bx << 5u32)) == (by ^ (by << 5u32)) ==> bx == by) by (bit_vector);
    assert((ax ^ (ax >> 17u32)) == (ay ^ (ay >> 17u32)) ==> ax == ay) by (bit_vector);
    assert((x ^ (x << 13u32)) == (y ^ (y << 13u32)) ==> x == y) by (bit_vector);
}

} // verus!
