//! Deterministic hashing behind the procedural scenery, and the skyline
//! heights it draws, in whole pixels.
use vstd::prelude::*;

verus! {

/// The low 32 bits of the product `a * b`.
pub open spec fn mul32(a: u32, b: u32) -> u32 {
    ((a as nat * b as nat) % 0x1_0000_0000) as u32
}

/// The mix of `x` into `seed`: multiply by a golden-ratio constant, then
/// three xor-shift and multiply rounds.
pub open spec fn mix(seed: u32, x: u32) -> u32 {
    let h0 = seed ^ mul32(x, 0x9E37_79B9);
    let h1 = h0 ^ (h0 >> 16u32);
    let h2 = mul32(h1, 0x85EB_CA6B);
    let h3 = h2 ^ (h2 >> 13u32);
    let h4 = mul32(h3, 0xC2B2_AE35);
    h4 ^ (h4 >> 16u32)
}

/// Deterministic hash of `x` under `seed`.
pub fn hash_u32(seed: u32, x: u32) -> (h: u32)
    ensures
        h == mix(seed, x),
{
    let mut h = seed ^ x.wrapping_mul(0x9E37_79B9);
    h = h ^ (h >> 16u32);
    h = h.wrapping_mul(0x85EB_CA6B);
    h = h ^ (h >> 13u32);
    h = h.wrapping_mul(0xC2B2_AE35);
    h = h ^ (h >> 16u32);
    h
}

/// The low 32 bits of `a + b`.
pub open spec fn add32(a: u32, b: u32) -> u32 {
    ((a as nat + b as nat) % 0x1_0000_0000) as u32
}

/// The chunk index as the hash reads it (two's complement bits).
pub open spec fn chunk_bits(chunk: i32) -> u32 {
    chunk as u32
}

/// A skyline height: `base` plus the chunk's hash under `seed` shifted by
/// `salt`, reduced below `spread`.
pub open spec fn skyline(seed: u32, salt: u32, chunk: i32, base: u32, spread: u32) -> u32 {
    (base + mix(add32(seed, salt), chunk_bits(chunk)) % spread) as u32
}

fn chunk_key(chunk: i32) -> (x: u32)
    ensures
        x == chunk_bits(chunk),
{
    chunk as u32
}

/// Height of a far city block, from 80 up to 299.
pub fn far_urban_height(seed: u32, chunk: i32) -> (h: u32)
    ensures
        h == skyline(seed, 0, chunk, 80, 220),
        80 <= h < 300,
{
    80 + hash_u32(seed, chunk_key(chunk)) % 220
}

/// Height of a near city block, from 120 up to 279.
pub fn mid_urban_height(seed: u32, chunk: i32) -> (h: u32)
    ensures
        h == skyline(seed, 0x9E37_79B9, chunk, 120, 160),
        120 <= h < 280,
{
    120 + hash_u32(seed.wrapping_add(0x9E37_79B9), chunk_key(chunk)) % 160
}

/// Height of a far mountain, from 200 up to 379.
pub fn far_mountain_height(seed: u32, chunk: i32) -> (h: u32)
    ensures
        h == skyline(seed, 0x1234_5678, chunk, 200, 180),
        200 <= h < 380,
{
    200 + hash_u32(seed.wrapping_add(0x1234_5678), chunk_key(chunk)) % 180
}

/// Height of a near mountain, from 100 up to 219.
pub fn mid_mountain_height(seed: u32, chunk: i32) -> (h: u32)
    ensures
        h == skyline(seed, 0xCAFE_BABE, chunk, 100, 120),
        100 <= h < 220,
{
    100 + hash_u32(seed.wrapping_add(0xCAFE_BABE), chunk_key(chunk)) % 120
}

} // verus!
