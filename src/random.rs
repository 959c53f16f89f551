use vstd::prelude::*;

use crate::fixed::ONE;

verus! {

/// One step of the 32-bit xorshift generator (shifts 13, 17, 5).
pub open spec fn xorshift_step(x: u32) -> u32 {
    let a = x ^ (x << 13u32);
    let b = a ^ (a >> 17u32);
    b ^ (b << 5u32)
}

/// The state that follows `state` in the xorshift sequence.
pub fn xorshift32(state: u32) -> (r: u32)
    ensures
        r == xorshift_step(state),
{
    let mut x = state;
    x = x ^ (x << 13u32);
    x = x ^ (x >> 17u32);
    x = x ^ (x << 5u32);
    x
}

/// A generator state that is not zero never becomes zero.
pub proof fn lemma_xorshift_nonzero(x: u32)
    requires
        x != 0,
    ensures
        xorshift_step(x) != 0,
{
    let a = x ^ (x << 13u32);
    let b = a ^ (a >> 17u32);
    assert(x != 0 ==> x ^ (x << 13u32) != 0) by (bit_vector);
    assert(a != 0 ==> a ^ (a >> 17u32) != 0) by (bit_vector);
    assert(b != 0 ==> b ^ (b << 5u32) != 0) by (bit_vector);
}

/// Advances the generator and returns its new state scaled to the unit
/// range `[0, ONE]`, rounded up, so that a state other than zero gives a
/// positive value.
pub fn random32(state: &mut u32) -> (r: i64)
    ensures
        *final(state) == xorshift_step(*old(state)),
        r == (*final(state) * ONE + u32::MAX - 1) / (u32::MAX as int),
        0 <= r <= ONE,
        *final(state) != 0 ==> r > 0,
{
    let next = xorshift32(*state);
    *state = next;
    assert(0 <= (next * ONE + u32::MAX - 1) / (u32::MAX as int) <= ONE) by (nonlinear_arith)
        requires
            0 <= next <= u32::MAX,
    ;
    assert(next != 0 ==> (next * ONE + u32::MAX - 1) / (u32::MAX as int) > 0) by (nonlinear_arith)
        requires
            0 <= next <= u32::MAX,
    ;
    (next as i64 * ONE + (u32::MAX as i64 - 1)) / (u32::MAX as i64)
}

} // verus!
