use vstd::prelude::*;

use crate::math::IVec2;

verus! {

/// Multiplier that spreads lattice x coordinates before hashing.
pub const PRIME_X: i64 = 0x5205402B9270C86F;

/// Multiplier that spreads lattice y coordinates before hashing.
pub const PRIME_Y: i64 = 0x598CD327003817B5;

/// Multiplier of the lattice hash.
pub const HASH_PRIME: i64 = 0x53A3F72DEEC546F5;

/// A lattice x coordinate premultiplied for hashing, with wrapping.
pub fn premultiply_x(xsb: i64) -> (r: i64)
    ensures
        r == xsb.wrapping_mul(PRIME_X),
{
    xsb.wrapping_mul(PRIME_X)
}

/// A lattice y coordinate premultiplied for hashing, with wrapping.
pub fn premultiply_y(ysb: i64) -> (r: i64)
    ensures
        r == ysb.wrapping_mul(PRIME_Y),
{
    ysb.wrapping_mul(PRIME_Y)
}

/// The gradient slot, among 256, of the lattice vertex whose premultiplied
/// coordinates are `xsvp` and `ysvp`.
pub fn gradient_index(xsvp: i64, ysvp: i64) -> (r: usize)
    ensures
        r < 256,
        r as int == ((xsvp ^ ysvp).wrapping_mul(HASH_PRIME) & 0xff) as int,
{
    let h = (xsvp ^ ysvp).wrapping_mul(HASH_PRIME);
    let idx = h & 0xff;
    assert(0 <= h & 0xffi64 < 256) by (bit_vector);
    idx as usize
}

/// The random seed of the sampling of the chunk at `chunk_pos`: the world
/// seed with the chunk's x coordinate and its y coordinate shifted into the
/// high half or-ed in, each sign-extended to 64 bits.
pub fn tile_seed(seed: u64, chunk_pos: IVec2) -> (r: u64)
    ensures
        r == seed | (chunk_pos.x as u64) | ((chunk_pos.y as u64) << 32u64),
{
    seed | (chunk_pos.x as u64) | ((chunk_pos.y as u64) << 32u64)
}

/// The random seed of the borders shared by the chunk at `chunk_pos` and
/// its neighbors: the world seed xor-ed with the chunk's x coordinate and
/// its y coordinate shifted into the high half, each sign-extended to 64
/// bits.
pub fn border_seed(seed: u64, chunk_pos: IVec2) -> (r: u64)
    ensures
        r == seed ^ (chunk_pos.x as u64) ^ ((chunk_pos.y as u64) << 32u64),
{
    seed ^ (chunk_pos.x as u64) ^ ((chunk_pos.y as u64) << 32u64)
}

} // verus!
