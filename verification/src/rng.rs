//! The xorshift32 step behind the games' small random generators.
use vstd::prelude::*;

verus! {

/// Seed used in place of a zero state, from which xorshift cannot move.
pub const ZERO_SEED_REPLACEMENT: u32 = 0x1234_5678;

/// One xorshift32 step (shifts 13, 17, 5), a zero state being replaced by
/// the fixed seed first.
pub open spec fn xorshift_step(state: u32) -> u32 {
    let x0 = if state == 0 { ZERO_SEED_REPLACEMENT } else { state };
    let x1 = x0 ^ (x0 << 13u32);
    let x2 = x1 ^ (x1 >> 17u32);
    x2 ^ (x2 << 5u32)
}

/// Advance the generator's state by one xorshift32 step. The state never
/// sticks at zero.
pub fn next_state(state: u32) -> (s: u32)
    ensures
        s == xorshift_step(state),
        s != 0,
{
    let mut x = state;
    if x == 0 {
        x = ZERO_SEED_REPLACEMENT;
    }
    let x0 = x;
    x = x ^ (x << 13u32);
    let x1 = x;
    x = x ^ (x >> 17u32);
    let x2 = x;
    x = x ^ (x << 5u32);
    assert(x0 != 0 ==> (x0 ^ (x0 << 13u32)) != 0) by (bit_vector);
    assert(x1 != 0 ==> (x1 ^ (x1 >> 17u32)) != 0) by (bit_vector);
    assert(x2 != 0 ==> (x2 ^ (x2 << 5u32)) != 0) by (bit_vector);
    x
}

} // verus!
