use vstd::prelude::*;

verus! {

/// Multiplier applied to the position before mixing.
pub const BIT_NOISE1: u32 = 0xB529_7A4D;

/// Offset added in the middle of the mixing steps.
pub const BIT_NOISE2: u32 = 0x68E3_1DA4;

/// Multiplier applied in the last mixing step.
pub const BIT_NOISE3: u32 = 0x1B56_C4E9;

/// Factor that folds the second noise coordinate into a position.
pub const PRIME_Y: u32 = 198_491_317;

/// Factor that folds the third noise coordinate into a position.
pub const PRIME_Z: u32 = 6_542_989;

/// The mixing function: seven 32-bit steps, every addition and
/// multiplication wrapping modulo 2^32, every shift logical.
pub open spec fn mix(position: u32, seed: u32) -> u32 {
    let m1 = position.wrapping_mul(BIT_NOISE1);
    let m2 = m1.wrapping_add(seed);
    let m3 = m2 ^ (m2 >> 8u32);
    let m4 = m3.wrapping_add(BIT_NOISE2);
    let m5 = m4 ^ (m4 << 8u32);
    let m6 = m5.wrapping_mul(BIT_NOISE3);
    m6 ^ (m6 >> 8u32)
}

/// Position that two noise coordinates fold to: `x + y * PRIME_Y` modulo 2^32.
pub open spec fn fold2(x: u32, y: u32) -> u32 {
    ((x + y * PRIME_Y) % 0x1_0000_0000) as u32
}

/// Position that three noise coordinates fold to:
/// `x + y * PRIME_Y + z * PRIME_Z` modulo 2^32.
pub open spec fn fold3(x: u32, y: u32, z: u32) -> u32 {
    ((x + y * PRIME_Y + z * PRIME_Z) % 0x1_0000_0000) as u32
}

/// Hashes a position under a seed. The result is a function of the two
/// arguments alone: the same pair always gives the same value.
pub fn squirrel3(position: u32, seed: u32) -> (r: u32)
    ensures
        r == mix(position, seed),
{
    let mut mangled = position.wrapping_mul(BIT_NOISE1);
    mangled = mangled.wrapping_add(seed);
    mangled = mangled ^ (mangled >> 8);
    mangled = mangled.wrapping_add(BIT_NOISE2);
    mangled = mangled ^ (mangled << 8);
    mangled = mangled.wrapping_mul(BIT_NOISE3);
    mangled = mangled ^ (mangled >> 8);
    mangled
}

/// One-dimensional coordinate hash: the mixed value of `x` under seed 0.
pub fn noise1d_u32(x: u32) -> (r: u32)
    ensures
        r == mix(x, 0),
{
    squirrel3(x, 0)
}

/// Two-dimensional coordinate hash: the mixed value, under seed 0, of the
/// position that `(x, y)` folds to.
pub fn noise2d_u32(x: u32, y: u32) -> (r: u32)
    ensures
        r == mix(fold2(x, y), 0),
{
    let folded = x.wrapping_add(y.wrapping_mul(PRIME_Y));
    proof {
        lemma_wrapping_fold(x as int, y as int * PRIME_Y);
    }
    squirrel3(folded, 0)
}

/// Three-dimensional coordinate hash: the mixed value, under seed 0, of the
/// position that `(x, y, z)` folds to.
pub fn noise3d_u32(x: u32, y: u32, z: u32) -> (r: u32)
    ensures
        r == mix(fold3(x, y, z), 0),
{
    let ym = y.wrapping_mul(PRIME_Y);
    let zm = z.wrapping_mul(PRIME_Z);
    let xy = x.wrapping_add(ym);
    let folded = xy.wrapping_add(zm);
    proof {
        let yp = y as int * PRIME_Y;
        let zp = z as int * PRIME_Z;
        lemma_wrapping_fold(x as int, yp);
        lemma_wrapping_fold(x as int + yp, zp);
        lemma_wrapping_fold(xy as int, zp);
        assert(xy as int == (x as int + yp) % 0x1_0000_0000);
    }
    squirrel3(folded, 0)
}

/// Reducing a summand modulo 2^32 before adding does not change the sum
/// modulo 2^32.
proof fn lemma_wrapping_fold(a: int, b: int)
    ensures
        ((a % 0x1_0000_0000) + (b % 0x1_0000_0000)) % 0x1_0000_0000 == (a + b) % 0x1_0000_0000,
{
    vstd::arithmetic::div_mod::lemma_add_mod_noop(a, b, 0x1_0000_0000);
}

/// Turns a 64-bit hash into a seed: the hash shifted left by one with the low
/// bit set, cut to 32 bits. The seed is always odd.
pub fn seed_from_hash(hash: u64) -> (r: u32)
    ensures
        r as int == (2 * hash + 1) % 0x1_0000_0000,
        r % 2 == 1,
{
    let r = ((hash << 1u64) | 1u64) as u32;
    assert(((hash << 1u64) | 1u64) as u32 as int == (2 * hash + 1) % 0x1_0000_0000) by (bit_vector);
    assert((((hash << 1u64) | 1u64) as u32) % 2 == 1) by (bit_vector);
    r
}

} // verus!
