//! Deterministic integer hashing of lattice points, the source of the
//! spatial and spatio-temporal noise that varies fuel properties and wind.
use vstd::arithmetic::div_mod::lemma_add_mod_noop;
use vstd::prelude::*;
use vstd::wrapping::i32_specs::{wrapping_add, wrapping_mul};

verus! {

/// Multiplier of the x coordinate.
pub const SEED_X: i32 = 1619;

/// Multiplier of the y coordinate.
pub const SEED_Y: i32 = 31337;

/// Multiplier of the z (time) coordinate.
pub const SEED_Z: i32 = 6971;

/// Final scrambling of a mixed lattice value, keeping 31 bits.
pub open spec fn scramble(n0: i32) -> u32 {
    let n = (n0 << 13i32) ^ n0;
    let m = wrapping_add(
        wrapping_mul(n, wrapping_add(wrapping_mul(wrapping_mul(n, n), 15731), 789221)),
        1376312589,
    );
    (m & 0x7fff_ffffi32) as u32
}

/// Hash of the 2D lattice point `(x, y)` under `seed`, in `[0, 2^31)`.
pub open spec fn lattice_hash_2d(x: i32, y: i32, seed: u32) -> u32 {
    scramble(wrapping_add(wrapping_add(wrapping_mul(x, SEED_X), wrapping_mul(y, SEED_Y)), seed as i32))
}

/// Hash of the 3D lattice point `(x, y, z)` under `seed`, in `[0, 2^31)`.
pub open spec fn lattice_hash_3d(x: i32, y: i32, z: i32, seed: u32) -> u32 {
    scramble(
        wrapping_add(
            wrapping_add(wrapping_add(wrapping_mul(x, SEED_X), wrapping_mul(y, SEED_Y)), wrapping_mul(z, SEED_Z)),
            seed as i32,
        ),
    )
}

fn scramble_exec(n0: i32) -> (h: u32)
    ensures
        h == scramble(n0),
        h <= 0x7fff_ffff,
{
    let n = (n0 << 13i32) ^ n0;
    let m = n.wrapping_mul(n.wrapping_mul(n).wrapping_mul(15731).wrapping_add(789221)).wrapping_add(
        1376312589,
    );
    let k = m & 0x7fff_ffff;
    assert(0 <= k) by (bit_vector)
        requires
            k == m & 0x7fff_ffffi32,
    ;
    k as u32
}

/// Integer hash of a 2D lattice point. The noise functions divide it by
/// 2^31 - 1 to get a value in [0, 1]. The point only enters through the sum
/// `1619 x + 31337 y + seed` taken modulo 2^32: the hash of `(x, y)` under
/// `seed` is the hash of the origin under that sum.
pub fn hash_2d_bits(x: i32, y: i32, seed: u32) -> (h: u32)
    ensures
        h == lattice_hash_2d(x, y, seed),
        h == lattice_hash_2d(0, 0, ((x * 1619 + y * 31337 + seed) % 0x1_0000_0000) as u32),
        h <= 0x7fff_ffff,
{
    proof {
        lemma_hash_2d_mixes_by_sum(x, y, seed);
    }
    let n = x.wrapping_mul(SEED_X).wrapping_add(y.wrapping_mul(SEED_Y)).wrapping_add(seed as i32);
    scramble_exec(n)
}

/// Integer hash of a 3D lattice point (space and time). The noise functions
/// divide it by 2^31 - 1 to get a value in [0, 1]. The point only enters
/// through the sum `1619 x + 31337 y + 6971 z + seed` taken modulo 2^32.
pub fn hash_3d_bits(x: i32, y: i32, z: i32, seed: u32) -> (h: u32)
    ensures
        h == lattice_hash_3d(x, y, z, seed),
        h == lattice_hash_2d(
            0,
            0,
            ((x * 1619 + y * 31337 + z * 6971 + seed) % 0x1_0000_0000) as u32,
        ),
        h <= 0x7fff_ffff,
{
    proof {
        lemma_hash_3d_mixes_by_sum(x, y, z, seed);
    }
    let n = x.wrapping_mul(SEED_X).wrapping_add(y.wrapping_mul(SEED_Y)).wrapping_add(
        z.wrapping_mul(SEED_Z),
    ).wrapping_add(seed as i32);
    scramble_exec(n)
}

/// The hash is a function of the lattice point and the seed alone; the
/// 3D hash at time coordinate 0 is the 2D hash.
pub proof fn lemma_hash_3d_at_time_zero(x: i32, y: i32, seed: u32)
    ensures
        lattice_hash_3d(x, y, 0, seed) == lattice_hash_2d(x, y, seed),
{
    assert(wrapping_mul(0i32, SEED_Z) == 0);
}

/// Residue of `v` modulo 2^32.
spec fn mod32(v: int) -> int {
    v % 0x1_0000_0000
}

/// Two `i32` values with the same residue modulo 2^32 are equal.
proof fn lemma_i32_by_residue(p: i32, q: i32)
    requires
        mod32(p as int) == mod32(q as int),
    ensures
        p == q,
{
}

/// Wrapping addition keeps the residue of the sum.
proof fn lemma_wrapping_add_residue(a: i32, b: i32)
    ensures
        mod32(wrapping_add(a, b) as int) == mod32(a + b),
{
}

/// Wrapping multiplication keeps the residue of the product.
proof fn lemma_wrapping_mul_residue(a: i32, b: i32)
    ensures
        mod32(wrapping_mul(a, b) as int) == mod32(a * b),
{
    let p = a * b;
    assert(mod32(p) == p % 0x1_0000_0000);
}

/// Reading a `u32` as `i32` keeps its residue.
proof fn lemma_seed_residue(seed: u32)
    ensures
        mod32((seed as i32) as int) == mod32(seed as int),
{
    assert(seed > 0x7fff_ffff ==> (seed as i32) as int == seed - 0x1_0000_0000) by (bit_vector);
    assert(seed <= 0x7fff_ffff ==> (seed as i32) as int == seed) by (bit_vector);
}

/// Residues of sums depend only on the residues of the terms.
proof fn lemma_sum_residue(a: int, b: int, a2: int, b2: int)
    requires
        mod32(a) == mod32(a2),
        mod32(b) == mod32(b2),
    ensures
        mod32(a + b) == mod32(a2 + b2),
{
    lemma_add_mod_noop(a, b, 0x1_0000_0000);
    lemma_add_mod_noop(a2, b2, 0x1_0000_0000);
}

/// The 2D hash mixes the point into the seed by the sum
/// `1619 x + 31337 y + seed` modulo 2^32: it equals the hash of the origin
/// under that sum.
pub proof fn lemma_hash_2d_mixes_by_sum(x: i32, y: i32, seed: u32)
    ensures
        lattice_hash_2d(x, y, seed) == lattice_hash_2d(
            0,
            0,
            ((x * 1619 + y * 31337 + seed) % 0x1_0000_0000) as u32,
        ),
{
    let total = x * 1619 + y * 31337 + seed;
    let s2 = (total % 0x1_0000_0000) as u32;
    let a = wrapping_mul(x, SEED_X);
    let b = wrapping_mul(y, SEED_Y);
    let ab = wrapping_add(a, b);
    let n = wrapping_add(ab, seed as i32);
    lemma_wrapping_mul_residue(x, SEED_X);
    lemma_wrapping_mul_residue(y, SEED_Y);
    lemma_wrapping_add_residue(a, b);
    lemma_sum_residue(a as int, b as int, x * 1619, y * 31337);
    lemma_wrapping_add_residue(ab, seed as i32);
    lemma_seed_residue(seed);
    lemma_sum_residue(ab as int, (seed as i32) as int, x * 1619 + y * 31337, seed as int);
    assert(wrapping_mul(0i32, SEED_X) == 0);
    assert(wrapping_mul(0i32, SEED_Y) == 0);
    assert(wrapping_add(0i32, 0i32) == 0);
    let n2 = wrapping_add(0i32, s2 as i32);
    lemma_wrapping_add_residue(0i32, s2 as i32);
    lemma_seed_residue(s2);
    assert(mod32(s2 as int) == mod32(total));
    lemma_i32_by_residue(n, n2);
}

/// The 3D hash mixes the point into the seed by the sum
/// `1619 x + 31337 y + 6971 z + seed` modulo 2^32: it equals the 2D hash of
/// the origin under that sum.
pub proof fn lemma_hash_3d_mixes_by_sum(x: i32, y: i32, z: i32, seed: u32)
    ensures
        lattice_hash_3d(x, y, z, seed) == lattice_hash_2d(
            0,
            0,
            ((x * 1619 + y * 31337 + z * 6971 + seed) % 0x1_0000_0000) as u32,
        ),
{
    let total = x * 1619 + y * 31337 + z * 6971 + seed;
    let s2 = (total % 0x1_0000_0000) as u32;
    let a = wrapping_mul(x, SEED_X);
    let b = wrapping_mul(y, SEED_Y);
    let c = wrapping_mul(z, SEED_Z);
    let ab = wrapping_add(a, b);
    let abc = wrapping_add(ab, c);
    let n = wrapping_add(abc, seed as i32);
    lemma_wrapping_mul_residue(x, SEED_X);
    lemma_wrapping_mul_residue(y, SEED_Y);
    lemma_wrapping_mul_residue(z, SEED_Z);
    lemma_wrapping_add_residue(a, b);
    lemma_sum_residue(a as int, b as int, x * 1619, y * 31337);
    lemma_wrapping_add_residue(ab, c);
    lemma_sum_residue(ab as int, c as int, x * 1619 + y * 31337, z * 6971);
    lemma_wrapping_add_residue(abc, seed as i32);
    lemma_seed_residue(seed);
    lemma_sum_residue(abc as int, (seed as i32) as int, x * 1619 + y * 31337 + z * 6971, seed as int);
    assert(wrapping_mul(0i32, SEED_X) == 0);
    assert(wrapping_mul(0i32, SEED_Y) == 0);
    assert(wrapping_add(0i32, 0i32) == 0);
    let n2 = wrapping_add(0i32, s2 as i32);
    lemma_wrapping_add_residue(0i32, s2 as i32);
    lemma_seed_residue(s2);
    assert(mod32(s2 as int) == mod32(total));
    lemma_i32_by_residue(n, n2);
}

} // verus!
