//! The hash oracle: a fixed avalanche mix of a packed 2-D coordinate.
use vstd::prelude::*;

verus! {

/// Odd multiplier of the mix (the 64-bit golden ratio).
pub const MIX_MULTIPLIER: u64 = 0x9E3779B97F4A7C15;

/// Multiply by the odd constant, then fold the high bits down twice.
pub open spec fn mix_spec(val: u64) -> u64 {
    let a = val.wrapping_mul(MIX_MULTIPLIER);
    let b = a ^ (a >> 32u64);
    b ^ (b >> 16u64)
}

pub fn mix(val: u64) -> (r: u64)
    ensures
        r == mix_spec(val),
{
    let mut hashed = val.wrapping_mul(MIX_MULTIPLIER);
    hashed ^= hashed >> 32;
    hashed ^= hashed >> 16;
    hashed
}

/// The 64-bit key of a coordinate: `z` (sign-extended) in the high half, the
/// low 32 bits of `x` in the low half.
pub open spec fn coord_key(x: i32, z: i32) -> u64 {
    ((z as u64) << 32u64) | (((x as u64) << 32u64) >> 32u64)
}

/// The hash of a coordinate, masked to the hash space.
pub open spec fn cell_hash_spec(x: i32, z: i32, mask: u64) -> u64 {
    mix_spec(coord_key(x, z)) & mask
}

pub fn cell_hash(x: i32, z: i32, mask: u64) -> (r: u64)
    ensures
        r == cell_hash_spec(x, z, mask),
        r <= mask,
{
    let key: u64 = ((z as u64) << 32) | (((x as u64) << 32) >> 32);
    let h = mix(key);
    let r = h & mask;
    assert(r <= mask) by (bit_vector)
        requires r == h & mask;
    r
}

} // verus!
