//! Integer hashes that place clouds, surface gravel and vegetation.

use vstd::prelude::*;

verus! {

/// `value` rotated left by `n` bits (`0 < n < 32`).
pub open spec fn rotl(value: u32, n: u32) -> u32 {
    (value << n) | (value >> ((32 - n) as u32))
}

/// Rotates left by `n` bits.
pub fn rotate_left(value: u32, n: u32) -> (rotated: u32)
    requires
        0 < n < 32,
    ensures
        rotated == rotl(value, n),
{
    (value << n) | (value >> (32 - n))
}

/// `value` rotated right by `n` bits (`n < 32`).
pub open spec fn rotr(value: u32, n: u32) -> u32 {
    if n == 0 {
        value
    } else {
        (value >> n) | (value << ((32 - n) as u32))
    }
}

/// Rotates right by `n` bits.
pub fn rotate_right(value: u32, n: u32) -> (rotated: u32)
    requires
        n < 32,
    ensures
        rotated == rotr(value, n),
{
    if n == 0 {
        value
    } else {
        (value >> n) | (value << (32 - n))
    }
}

/// The cloud-placement hash of a cloud cell.
pub open spec fn cloud_hash_spec(x: u32, z: u32) -> u32 {
    let v0 = x.wrapping_mul(0x9e37_79b1) ^ z.wrapping_mul(0x85eb_ca77) ^ 42;
    let v1 = v0 ^ (v0 >> 16u32);
    let v2 = v1.wrapping_mul(0x7feb_352d);
    v2 ^ (v2 >> 15u32)
}

/// The cloud-placement hash of a cloud cell.
pub fn cloud_hash(x: u32, z: u32) -> (hash: u32)
    ensures
        hash == cloud_hash_spec(x, z),
{
    let mut value = x.wrapping_mul(0x9e37_79b1) ^ z.wrapping_mul(0x85eb_ca77) ^ 42;
    value = value ^ (value >> 16);
    value = value.wrapping_mul(0x7feb_352d);
    value ^ (value >> 15)
}

/// The terrain hash of a column (or of a block of columns).
pub open spec fn terrain_hash_spec(x: u32, z: u32) -> u32 {
    let v0 = x.wrapping_mul(0x85eb_ca6b) ^ z.wrapping_mul(0xc2b2_ae35);
    let v1 = v0 ^ (v0 >> 16u32);
    let v2 = v1.wrapping_mul(0x27d4_eb2d);
    v2 ^ (v2 >> 15u32)
}

/// The terrain hash of a column (or of a block of columns).
pub fn terrain_hash(x: u32, z: u32) -> (hash: u32)
    ensures
        hash == terrain_hash_spec(x, z),
{
    let mut value = x.wrapping_mul(0x85eb_ca6b) ^ z.wrapping_mul(0xc2b2_ae35);
    value = value ^ (value >> 16);
    value = value.wrapping_mul(0x27d4_eb2d);
    value ^ (value >> 15)
}

/// The vegetation hash of a column under a world seed.
pub open spec fn vegetation_hash_spec(seed: u32, x: u32, z: u32) -> u32 {
    terrain_hash_spec(x ^ seed.wrapping_mul(0x9e37_79b1), z ^ rotl(seed, 16).wrapping_mul(0x85eb_ca77))
}

/// The vegetation hash of a column under a world seed.
pub fn vegetation_hash(seed: u32, x: u32, z: u32) -> (hash: u32)
    ensures
        hash == vegetation_hash_spec(seed, x, z),
{
    terrain_hash(x ^ seed.wrapping_mul(0x9e37_79b1), z ^ rotate_left(seed, 16).wrapping_mul(0x85eb_ca77))
}

/// The vegetation hash of a voxel: the column hash under a seed mixed with the
/// voxel's height, folded with its own rotation. Coordinates are taken modulo 2^32.
pub open spec fn vegetation_hash_3d_spec(seed: u32, x: i64, y: i64, z: i64) -> u32 {
    let horizontal = vegetation_hash_spec(seed ^ (y as u32).wrapping_mul(0x27d4_eb2d), x as u32, z as u32);
    horizontal ^ rotl(horizontal, 13)
}

/// The vegetation hash of a voxel.
pub fn vegetation_hash_3d(seed: u32, x: i64, y: i64, z: i64) -> (hash: u32)
    ensures
        hash == vegetation_hash_3d_spec(seed, x, y, z),
{
    let horizontal = vegetation_hash(seed ^ (y as u32).wrapping_mul(0x27d4_eb2d), x as u32, z as u32);
    horizontal ^ rotate_left(horizontal, 13)
}

} // verus!
