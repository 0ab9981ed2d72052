//! Spatial hashing of integer cell coordinates: Morton (Z-order) codes and
//! cubic neighbourhoods of cells.
use crate::fxmap::{bucket_map_get, bucket_map_insert, bucket_map_remove, fx_map_with_capacity};
use rustc_hash::FxHashMap;
use vstd::arithmetic::div_mod::{
    lemma_div_denominator, lemma_fundamental_div_mod, lemma_fundamental_div_mod_converse,
    lemma_mod_pos_bound,
};
use vstd::prelude::*;

verus! {

/// Bit `i` of `v`.
pub open spec fn bit(v: u64, i: u64) -> u64 {
    (v >> i) & 1u64
}

/// Bit `3 * i + axis` of a Morton code: the `i`-th bit contributed by the
/// coordinate of the given axis (0 for x, 1 for y, 2 for z).
pub open spec fn code_bit(code: u64, i: u64, axis: u64) -> u64 {
    (code >> ((3 * i + axis) as u64)) & 1u64
}

/// Interleaving of the lowest `n` bits of three words: bit `i` of `xu`
/// lands at position `3i`, of `yu` at `3i + 1`, of `zu` at `3i + 2`.
pub open spec fn interleave_bits(xu: u64, yu: u64, zu: u64, n: u64) -> u64
    decreases n,
{
    if n == 0 {
        0
    } else {
        let k = (n - 1) as u64;
        interleave_bits(xu, yu, zu, k) | (bit(xu, k) << ((3 * k) as u64)) | (bit(yu, k) << ((3
            * k + 1) as u64)) | (bit(zu, k) << ((3 * k + 2) as u64))
    }
}

/// Morton code of a cell: the lowest 21 bits of each coordinate (two's
/// complement), interleaved.
pub open spec fn morton_code(x: i32, y: i32, z: i32) -> u64 {
    interleave_bits(x as u64, y as u64, z as u64, 21)
}

/// Adding three bits above the occupied low bits of `r` keeps the low bits,
/// places the new bits, and leaves everything above them clear.
proof fn lemma_interleave_step(r: u64, a: u64, b: u64, c: u64, s: u64, k: u64)
    requires
        s <= 60,
        r >> s == 0,
        a <= 1,
        b <= 1,
        c <= 1,
    ensures
        k < s ==> ((r | (a << s) | (b << ((s + 1) as u64)) | (c << ((s + 2) as u64))) >> k) & 1u64
            == (r >> k) & 1u64,
        ((r | (a << s) | (b << ((s + 1) as u64)) | (c << ((s + 2) as u64))) >> s) & 1u64 == a,
        ((r | (a << s) | (b << ((s + 1) as u64)) | (c << ((s + 2) as u64))) >> ((s + 1) as u64))
            & 1u64 == b,
        ((r | (a << s) | (b << ((s + 1) as u64)) | (c << ((s + 2) as u64))) >> ((s + 2) as u64))
            & 1u64 == c,
        (r | (a << s) | (b << ((s + 1) as u64)) | (c << ((s + 2) as u64))) >> ((s + 3) as u64)
            == 0,
{
    assert(k < s ==> ((r | (a << s) | (b << ((s + 1) as u64)) | (c << ((s + 2) as u64))) >> k)
        & 1u64 == (r >> k) & 1u64) by (bit_vector)
        requires
            s <= 60,
            r >> s == 0,
            a <= 1,
            b <= 1,
            c <= 1,
    ;
    assert(((r | (a << s) | (b << ((s + 1) as u64)) | (c << ((s + 2) as u64))) >> s) & 1u64 == a)
        by (bit_vector)
        requires
            s <= 60,
            r >> s == 0,
            a <= 1,
            b <= 1,
            c <= 1,
    ;
    assert(((r | (a << s) | (b << ((s + 1) as u64)) | (c << ((s + 2) as u64))) >> ((s
        + 1) as u64)) & 1u64 == b) by (bit_vector)
        requires
            s <= 60,
            r >> s == 0,
            a <= 1,
            b <= 1,
            c <= 1,
    ;
    assert(((r | (a << s) | (b << ((s + 1) as u64)) | (c << ((s + 2) as u64))) >> ((s
        + 2) as u64)) & 1u64 == c) by (bit_vector)
        requires
            s <= 60,
            r >> s == 0,
            a <= 1,
            b <= 1,
            c <= 1,
    ;
    assert((r | (a << s) | (b << ((s + 1) as u64)) | (c << ((s + 2) as u64))) >> ((s
        + 3) as u64) == 0) by (bit_vector)
        requires
            s <= 60,
            r >> s == 0,
            a <= 1,
            b <= 1,
            c <= 1,
    ;
}

proof fn lemma_bit_is_bit(v: u64, i: u64)
    ensures
        bit(v, i) <= 1,
{
    assert(((v >> i) & 1u64) <= 1) by (bit_vector);
}

/// The first `n` interleaved bits sit where they belong and nothing is set
/// above position `3n`.
pub proof fn lemma_interleave_bits(xu: u64, yu: u64, zu: u64, n: u64)
    requires
        n <= 21,
    ensures
        interleave_bits(xu, yu, zu, n) >> ((3 * n) as u64) == 0,
        forall|i: u64|
            i < n ==> {
                &&& #[trigger] code_bit(interleave_bits(xu, yu, zu, n), i, 0) == bit(xu, i)
                &&& code_bit(interleave_bits(xu, yu, zu, n), i, 1) == bit(yu, i)
                &&& code_bit(interleave_bits(xu, yu, zu, n), i, 2) == bit(zu, i)
            },
    decreases n,
{
    if n == 0 {
        assert((0u64 >> 0u64) == 0) by (bit_vector);
    } else {
        let k = (n - 1) as u64;
        lemma_interleave_bits(xu, yu, zu, k);
        let r = interleave_bits(xu, yu, zu, k);
        let s = (3 * k) as u64;
        lemma_bit_is_bit(xu, k);
        lemma_bit_is_bit(yu, k);
        lemma_bit_is_bit(zu, k);
        lemma_interleave_step(r, bit(xu, k), bit(yu, k), bit(zu, k), s, 0);
        assert forall|i: u64| i < n implies {
            &&& #[trigger] code_bit(interleave_bits(xu, yu, zu, n), i, 0) == bit(xu, i)
            &&& code_bit(interleave_bits(xu, yu, zu, n), i, 1) == bit(yu, i)
            &&& code_bit(interleave_bits(xu, yu, zu, n), i, 2) == bit(zu, i)
        } by {
            if i < k {
                lemma_interleave_step(r, bit(xu, k), bit(yu, k), bit(zu, k), s, (3 * i) as u64);
                lemma_interleave_step(
                    r,
                    bit(xu, k),
                    bit(yu, k),
                    bit(zu, k),
                    s,
                    (3 * i + 1) as u64,
                );
                lemma_interleave_step(
                    r,
                    bit(xu, k),
                    bit(yu, k),
                    bit(zu, k),
                    s,
                    (3 * i + 2) as u64,
                );
                assert(code_bit(r, i, 0) == bit(xu, i));
            }
        }
    }
}

/// Morton encode 3D cell coordinates into a single 64-bit integer. The lowest
/// 21 bits of each coordinate (as two's complement) are interleaved, so that
/// nearby cells get nearby codes.
pub fn morton_encode(x: i32, y: i32, z: i32) -> (code: u64)
    ensures
        code == morton_code(x, y, z),
        code >> 63u64 == 0,
        forall|i: u64|
            i < 21 ==> {
                &&& #[trigger] code_bit(code, i, 0) == bit(x as u64, i)
                &&& code_bit(code, i, 1) == bit(y as u64, i)
                &&& code_bit(code, i, 2) == bit(z as u64, i)
            },
{
    let xu = x as u64;
    let yu = y as u64;
    let zu = z as u64;
    let mut result: u64 = 0;
    let mut i: u64 = 0;
    while i < 21
        invariant
            i <= 21,
            result == interleave_bits(xu, yu, zu, i),
        decreases 21 - i,
    {
        result = result | (((xu >> i) & 1) << (3 * i)) | (((yu >> i) & 1) << (3 * i + 1)) | (((zu
            >> i) & 1) << (3 * i + 2));
        i = i + 1;
    }
    proof {
        lemma_interleave_bits(xu, yu, zu, 21);
    }
    result
}

/// Side length of the cube of cells within Chebyshev distance `r`.
pub open spec fn cube_side(r: int) -> int {
    2 * r + 1
}

/// Offset of the `k`-th cell of the cube of radius `r`, enumerated with x
/// slowest and z fastest.
pub open spec fn offset_at(r: int, k: int) -> (int, int, int) {
    let s = cube_side(r);
    (k / (s * s) - r, (k / s) % s - r, k % s - r)
}

/// Position of the offset `(a - r, b - r, c - r)` in that enumeration.
pub open spec fn cube_index(s: int, a: int, b: int, c: int) -> int {
    (a * s + b) * s + c
}

/// All offsets of the cube of radius `r`, in enumeration order.
pub open spec fn cube_offsets(r: int) -> Seq<(i32, i32, i32)> {
    let s = cube_side(r);
    Seq::new(
        (s * s * s) as nat,
        |k: int| (offset_at(r, k).0 as i32, offset_at(r, k).1 as i32, offset_at(r, k).2 as i32),
    )
}

/// Inverse of the enumeration: the cell at `cube_index(s, a, b, c)` has
/// offset `(a - r, b - r, c - r)`.
pub proof fn lemma_cube_index_offset(r: int, a: int, b: int, c: int)
    requires
        r >= 0,
        0 <= a < cube_side(r),
        0 <= b < cube_side(r),
        0 <= c < cube_side(r),
    ensures
        0 <= cube_index(cube_side(r), a, b, c) < cube_side(r) * cube_side(r) * cube_side(r),
        offset_at(r, cube_index(cube_side(r), a, b, c)) == (a - r, b - r, c - r),
{
    let s = cube_side(r);
    let k = cube_index(s, a, b, c);
    assert(0 <= a * s + b < s * s) by (nonlinear_arith)
        requires
            0 <= a < s,
            0 <= b < s,
    ;
    assert(0 <= k < s * s * s) by (nonlinear_arith)
        requires
            0 <= a * s + b < s * s,
            0 <= c < s,
            k == (a * s + b) * s + c,
    ;
    lemma_fundamental_div_mod_converse(k, s, a * s + b, c);
    lemma_fundamental_div_mod_converse(a * s + b, s, a, b);
    lemma_div_denominator(k, s, s);
}

/// Every offset of the enumeration lies within the cube.
pub proof fn lemma_offset_in_cube(r: int, k: int)
    requires
        r >= 0,
        0 <= k < cube_side(r) * cube_side(r) * cube_side(r),
    ensures
        -r <= offset_at(r, k).0 <= r,
        -r <= offset_at(r, k).1 <= r,
        -r <= offset_at(r, k).2 <= r,
{
    let s = cube_side(r);
    assert(s * s > 0) by (nonlinear_arith)
        requires
            s >= 1,
    ;
    lemma_fundamental_div_mod(k, s * s);
    lemma_mod_pos_bound(k, s * s);
    let q = k / (s * s);
    assert(0 <= q < s) by (nonlinear_arith)
        requires
            k == (s * s) * q + k % (s * s),
            0 <= k % (s * s) < s * s,
            0 <= k < s * s * s,
            s >= 1,
    ;
    lemma_mod_pos_bound(k / s, s);
    lemma_mod_pos_bound(k, s);
}

/// Offsets of all cells within Chebyshev distance `radius` of a cell, with
/// x slowest and z fastest: the entry at `cube_index(s, a, b, c)` is
/// `(a - radius, b - radius, c - radius)` for `s = 2 * radius + 1`.
pub fn generate_neighbor_offsets(radius: i32) -> (offsets: Vec<(i32, i32, i32)>)
    requires
        radius >= 0,
        cube_side(radius as int) * cube_side(radius as int) * cube_side(radius as int)
            <= usize::MAX,
    ensures
        offsets@ == cube_offsets(radius as int),
{
    let ghost r = radius as int;
    let ghost s = cube_side(r);
    assert(s <= s * s * s) by (nonlinear_arith)
        requires
            s >= 1,
    ;
    assert(s <= 0x40_0000) by (nonlinear_arith)
        requires
            s >= 1,
            s * s * s <= 0xffff_ffff_ffff_ffff,
    ;
    assert(cube_index(s, 0, 0, 0) == 0) by (nonlinear_arith);
    let mut offsets: Vec<(i32, i32, i32)> = Vec::new();
    let mut dx: i32 = -radius;
    while dx <= radius
        invariant
            r == radius as int,
            s == cube_side(r),
            0 <= r < 0x40_0000,
            s * s * s <= usize::MAX,
            -r <= dx <= r + 1,
            offsets@.len() == cube_index(s, dx + r, 0, 0),
            forall|k: int| 0 <= k < offsets@.len() ==> #[trigger] offsets@[k] == cube_offsets(r)[k],
        decreases r + 1 - dx,
    {
        let mut dy: i32 = -radius;
        while dy <= radius
            invariant
                r == radius as int,
                s == cube_side(r),
                0 <= r < 0x40_0000,
                s * s * s <= usize::MAX,
                -r <= dx <= r,
                -r <= dy <= r + 1,
                offsets@.len() == cube_index(s, dx + r, dy + r, 0),
                forall|k: int|
                    0 <= k < offsets@.len() ==> #[trigger] offsets@[k] == cube_offsets(r)[k],
            decreases r + 1 - dy,
        {
            let mut dz: i32 = -radius;
            while dz <= radius
                invariant
                    r == radius as int,
                    s == cube_side(r),
                    0 <= r < 0x40_0000,
                    s * s * s <= usize::MAX,
                    -r <= dx <= r,
                    -r <= dy <= r,
                    -r <= dz <= r + 1,
                    offsets@.len() == cube_index(s, dx + r, dy + r, dz + r),
                    forall|k: int|
                        0 <= k < offsets@.len() ==> #[trigger] offsets@[k] == cube_offsets(r)[k],
                decreases r + 1 - dz,
            {
                proof {
                    lemma_cube_index_offset(r, dx + r, dy + r, dz + r);
                }
                offsets.push((dx, dy, dz));
                dz = dz + 1;
            }
            assert(cube_index(s, dx + r, dy + r, s) == cube_index(s, dx + r, dy + r + 1, 0))
                by (nonlinear_arith);
            dy = dy + 1;
        }
        assert(cube_index(s, dx + r, s, 0) == cube_index(s, dx + r + 1, 0, 0)) by (nonlinear_arith);
        dx = dx + 1;
    }
    assert(cube_index(s, s, 0, 0) == s * s * s) by (nonlinear_arith);
    assert(offsets@ =~= cube_offsets(r));
    offsets
}

/// Entries of the spatial index filed under the Morton code `key`, in
/// insertion order, each as (element id, insertion number).
pub open spec fn bucket(entries: Seq<(u32, (i32, i32, i32))>, key: u64) -> Seq<(u32, usize)>
    decreases entries.len(),
{
    if entries.len() == 0 {
        Seq::empty()
    } else {
        let prev = bucket(entries.drop_last(), key);
        let e = entries.last();
        if morton_code(e.1.0, e.1.1, e.1.2) == key {
            prev.push((e.0, (entries.len() - 1) as usize))
        } else {
            prev
        }
    }
}

/// Concatenation of the buckets of `keys`, in the order of `keys`.
pub open spec fn gather(entries: Seq<(u32, (i32, i32, i32))>, keys: Seq<u64>) -> Seq<(u32, usize)>
    decreases keys.len(),
{
    if keys.len() == 0 {
        Seq::empty()
    } else {
        gather(entries, keys.drop_last()) + bucket(entries, keys.last())
    }
}

/// Morton codes of the cells within Chebyshev distance `r` of `base`, in
/// the order of `cube_offsets(r)`; empty when `r` is negative.
pub open spec fn cube_keys(base: (i32, i32, i32), r: int) -> Seq<u64> {
    if r < 0 {
        Seq::empty()
    } else {
        cube_offsets(r).map_values(
            |o: (i32, i32, i32)|
                morton_code((base.0 + o.0) as i32, (base.1 + o.1) as i32, (base.2 + o.2) as i32),
        )
    }
}

/// The cube of radius `r` around `base` stays within the range of `i32`.
pub open spec fn cube_in_range(base: (i32, i32, i32), r: int) -> bool {
    &&& i32::MIN <= base.0 - r
    &&& base.0 + r <= i32::MAX
    &&& i32::MIN <= base.1 - r
    &&& base.1 + r <= i32::MAX
    &&& i32::MIN <= base.2 - r
    &&& base.2 + r <= i32::MAX
}

/// What a map holds under `key`, or nothing.
pub open spec fn stored(m: Map<u64, Vec<(u32, usize)>>, key: u64) -> Seq<(u32, usize)> {
    if m.contains_key(key) {
        m[key]@
    } else {
        Seq::empty()
    }
}

/// Spatial index of elements by grid cell: elements are filed by the Morton
/// code of their cell, and a query collects every element filed under the
/// cells of a cube around a base cell.
pub struct SpatialIndex {
    octree: FxHashMap<u64, Vec<(u32, usize)>>,
    count: usize,
    entries: Ghost<Seq<(u32, (i32, i32, i32))>>,
}

impl SpatialIndex {
    /// Every element inserted so far, as (id, cell), in insertion order; an
    /// element's insertion number is its position here.
    pub closed spec fn entries(&self) -> Seq<(u32, (i32, i32, i32))> {
        self.entries@
    }

    /// The map files each inserted element under the Morton code of its cell.
    pub closed spec fn wf(&self) -> bool {
        &&& self.count == self.entries@.len()
        &&& forall|key: u64| #[trigger] stored(self.octree@, key) == bucket(self.entries@, key)
    }

    /// Create an empty spatial index.
    pub fn new() -> (index: Self)
        ensures
            index.wf(),
            index.entries().len() == 0,
    {
        let index = SpatialIndex {
            octree: fx_map_with_capacity(1024),
            count: 0,
            entries: Ghost(Seq::empty()),
        };
        assert forall|key: u64| #[trigger] stored(index.octree@, key) == bucket(index.entries@, key) by {}
        index
    }

    /// Number of elements inserted so far.
    pub fn len(&self) -> (n: usize)
        requires
            self.wf(),
        ensures
            n == self.entries().len(),
    {
        self.count
    }

    /// Insert element `id` in `cell`. The result is the element's insertion
    /// number, which later queries report beside its id.
    pub fn insert(&mut self, id: u32, cell: (i32, i32, i32)) -> (slot: usize)
        requires
            old(self).wf(),
            old(self).entries().len() < usize::MAX,
        ensures
            final(self).wf(),
            final(self).entries() == old(self).entries().push((id, cell)),
            slot == old(self).entries().len(),
    {
        let key = morton_encode(cell.0, cell.1, cell.2);
        let slot = self.count;
        let mut elements = match bucket_map_remove(&mut self.octree, key) {
            Some(v) => v,
            None => Vec::new(),
        };
        elements.push((id, slot));
        bucket_map_insert(&mut self.octree, key, elements);
        self.count = self.count + 1;
        let ghost old_entries = self.entries@;
        self.entries = Ghost(self.entries@.push((id, cell)));
        proof {
            assert forall|k: u64| #[trigger] stored(self.octree@, k) == bucket(self.entries@, k) by {
                assert(self.entries@.drop_last() =~= old_entries);
                assert(stored(old(self).octree@, k) == bucket(old_entries, k));
            }
        }
        slot
    }

    /// Every element filed under a cell within Chebyshev distance
    /// `cells_needed` of `base`, as (id, insertion number): cells are visited
    /// with x slowest and z fastest, and within a cell elements come in
    /// insertion order. A negative distance selects no cell.
    pub fn query_cells(&self, base: (i32, i32, i32), cells_needed: i32) -> (found: Vec<(u32, usize)>)
        requires
            self.wf(),
            cube_in_range(base, cells_needed as int),
            cube_side(cells_needed as int) * cube_side(cells_needed as int) * cube_side(
                cells_needed as int,
            ) <= usize::MAX,
        ensures
            found@ == gather(self.entries(), cube_keys(base, cells_needed as int)),
    {
        let mut found: Vec<(u32, usize)> = Vec::new();
        if cells_needed < 0 {
            return found;
        }
        let offsets = generate_neighbor_offsets(cells_needed);
        let ghost keys = cube_keys(base, cells_needed as int);
        let mut i: usize = 0;
        while i < offsets.len()
            invariant
                self.wf(),
                cells_needed >= 0,
                cube_in_range(base, cells_needed as int),
                offsets@ == cube_offsets(cells_needed as int),
                keys == cube_keys(base, cells_needed as int),
                keys.len() == offsets@.len(),
                i <= offsets@.len(),
                found@ == gather(self.entries(), keys.subrange(0, i as int)),
            decreases offsets.len() - i,
        {
            let (dx, dy, dz) = offsets[i];
            proof {
                lemma_offset_in_cube(cells_needed as int, i as int);
            }
            let key = morton_encode(base.0 + dx, base.1 + dy, base.2 + dz);
            let ghost before = found@;
            match bucket_map_get(&self.octree, key) {
                Some(elements) => {
                    let mut j: usize = 0;
                    while j < elements.len()
                        invariant
                            j <= elements@.len(),
                            found@ == before + elements@.subrange(0, j as int),
                        decreases elements.len() - j,
                    {
                        found.push(elements[j]);
                        j = j + 1;
                        assert(found@ =~= before + elements@.subrange(0, j as int));
                    }
                    assert(elements@.subrange(0, elements.len() as int) =~= elements@);
                },
                None => {
                    assert(found@ =~= before + Seq::<(u32, usize)>::empty());
                },
            }
            proof {
                assert(stored(self.octree@, key) == bucket(self.entries(), key));
                assert(keys.subrange(0, i + 1).drop_last() =~= keys.subrange(0, i as int));
                assert(keys[i as int] == key);
            }
            i = i + 1;
        }
        assert(keys.subrange(0, i as int) =~= keys);
        found
    }
}

/// Two cells with the same Morton code agree in the lowest 21 bits of each
/// coordinate.
pub proof fn lemma_morton_code_determines_low_bits(
    x1: i32,
    y1: i32,
    z1: i32,
    x2: i32,
    y2: i32,
    z2: i32,
)
    requires
        morton_code(x1, y1, z1) == morton_code(x2, y2, z2),
    ensures
        forall|i: u64|
            i < 21 ==> {
                &&& #[trigger] bit(x1 as u64, i) == bit(x2 as u64, i)
                &&& bit(y1 as u64, i) == bit(y2 as u64, i)
                &&& bit(z1 as u64, i) == bit(z2 as u64, i)
            },
{
    lemma_interleave_bits(x1 as u64, y1 as u64, z1 as u64, 21);
    lemma_interleave_bits(x2 as u64, y2 as u64, z2 as u64, 21);
    assert forall|i: u64| i < 21 implies {
        &&& #[trigger] bit(x1 as u64, i) == bit(x2 as u64, i)
        &&& bit(y1 as u64, i) == bit(y2 as u64, i)
        &&& bit(z1 as u64, i) == bit(z2 as u64, i)
    } by {
        let m1 = interleave_bits(x1 as u64, y1 as u64, z1 as u64, 21);
        let m2 = interleave_bits(x2 as u64, y2 as u64, z2 as u64, 21);
        assert(m1 == m2);
        assert(code_bit(m1, i, 0) == bit(x1 as u64, i));
        assert(code_bit(m2, i, 0) == bit(x2 as u64, i));
        assert(code_bit(m1, i, 1) == bit(y1 as u64, i));
        assert(code_bit(m2, i, 1) == bit(y2 as u64, i));
    }
}

/// A word below 2^21 is determined by its lowest 21 bits.
proof fn lemma_low_bits_determine(a: u64, b: u64)
    requires
        a < 0x20_0000,
        b < 0x20_0000,
        forall|i: u64| i < 21 ==> #[trigger] bit(a, i) == bit(b, i),
    ensures
        a == b,
{
    assert(bit(a, 0) == bit(b, 0));
    assert(bit(a, 1) == bit(b, 1));
    assert(bit(a, 2) == bit(b, 2));
    assert(bit(a, 3) == bit(b, 3));
    assert(bit(a, 4) == bit(b, 4));
    assert(bit(a, 5) == bit(b, 5));
    assert(bit(a, 6) == bit(b, 6));
    assert(bit(a, 7) == bit(b, 7));
    assert(bit(a, 8) == bit(b, 8));
    assert(bit(a, 9) == bit(b, 9));
    assert(bit(a, 10) == bit(b, 10));
    assert(bit(a, 11) == bit(b, 11));
    assert(bit(a, 12) == bit(b, 12));
    assert(bit(a, 13) == bit(b, 13));
    assert(bit(a, 14) == bit(b, 14));
    assert(bit(a, 15) == bit(b, 15));
    assert(bit(a, 16) == bit(b, 16));
    assert(bit(a, 17) == bit(b, 17));
    assert(bit(a, 18) == bit(b, 18));
    assert(bit(a, 19) == bit(b, 19));
    assert(bit(a, 20) == bit(b, 20));
    assert(a == b) by (bit_vector)
        requires
            a < 0x20_0000,
            b < 0x20_0000,
            (a >> 0u64) & 1 == (b >> 0u64) & 1,
            (a >> 1u64) & 1 == (b >> 1u64) & 1,
            (a >> 2u64) & 1 == (b >> 2u64) & 1,
            (a >> 3u64) & 1 == (b >> 3u64) & 1,
            (a >> 4u64) & 1 == (b >> 4u64) & 1,
            (a >> 5u64) & 1 == (b >> 5u64) & 1,
            (a >> 6u64) & 1 == (b >> 6u64) & 1,
            (a >> 7u64) & 1 == (b >> 7u64) & 1,
            (a >> 8u64) & 1 == (b >> 8u64) & 1,
            (a >> 9u64) & 1 == (b >> 9u64) & 1,
            (a >> 10u64) & 1 == (b >> 10u64) & 1,
            (a >> 11u64) & 1 == (b >> 11u64) & 1,
            (a >> 12u64) & 1 == (b >> 12u64) & 1,
            (a >> 13u64) & 1 == (b >> 13u64) & 1,
            (a >> 14u64) & 1 == (b >> 14u64) & 1,
            (a >> 15u64) & 1 == (b >> 15u64) & 1,
            (a >> 16u64) & 1 == (b >> 16u64) & 1,
            (a >> 17u64) & 1 == (b >> 17u64) & 1,
            (a >> 18u64) & 1 == (b >> 18u64) & 1,
            (a >> 19u64) & 1 == (b >> 19u64) & 1,
            (a >> 20u64) & 1 == (b >> 20u64) & 1,
    ;
}

/// Distinct cells with coordinates in `[0, 2^21)` get distinct Morton codes.
pub proof fn lemma_morton_code_injective(x1: i32, y1: i32, z1: i32, x2: i32, y2: i32, z2: i32)
    requires
        0 <= x1 < 0x20_0000,
        0 <= y1 < 0x20_0000,
        0 <= z1 < 0x20_0000,
        0 <= x2 < 0x20_0000,
        0 <= y2 < 0x20_0000,
        0 <= z2 < 0x20_0000,
        morton_code(x1, y1, z1) == morton_code(x2, y2, z2),
    ensures
        x1 == x2 && y1 == y2 && z1 == z2,
{
    lemma_morton_code_determines_low_bits(x1, y1, z1, x2, y2, z2);
    assert forall|i: u64| i < 21 implies #[trigger] bit(x1 as u64, i) == bit(x2 as u64, i) by {}
    lemma_low_bits_determine(x1 as u64, x2 as u64);
    assert forall|i: u64| i < 21 implies #[trigger] bit(y1 as u64, i) == bit(y2 as u64, i) by {
        assert(bit(x1 as u64, i) == bit(x2 as u64, i));
    }
    lemma_low_bits_determine(y1 as u64, y2 as u64);
    assert forall|i: u64| i < 21 implies #[trigger] bit(z1 as u64, i) == bit(z2 as u64, i) by {
        assert(bit(x1 as u64, i) == bit(x2 as u64, i));
    }
    lemma_low_bits_determine(z1 as u64, z2 as u64);
}

/// Every inserted element is filed in the bucket of its own cell.
proof fn lemma_bucket_has_entry(entries: Seq<(u32, (i32, i32, i32))>, j: int)
    requires
        0 <= j < entries.len(),
    ensures
        bucket(entries, morton_code(entries[j].1.0, entries[j].1.1, entries[j].1.2)).contains(
            (entries[j].0, j as usize),
        ),
    decreases entries.len(),
{
    let key = morton_code(entries[j].1.0, entries[j].1.1, entries[j].1.2);
    let prev = bucket(entries.drop_last(), key);
    if j == entries.len() - 1 {
        assert(bucket(entries, key) == prev.push((entries[j].0, j as usize)));
        assert(bucket(entries, key)[prev.len() as int] == (entries[j].0, j as usize));
    } else {
        lemma_bucket_has_entry(entries.drop_last(), j);
        assert(entries.drop_last()[j] == entries[j]);
        let w = choose|w: int| 0 <= w < prev.len() && prev[w] == (entries[j].0, j as usize);
        assert(bucket(entries, key)[w] == (entries[j].0, j as usize));
    }
}

/// What a bucket holds was inserted with that id, under that key.
proof fn lemma_bucket_sound(entries: Seq<(u32, (i32, i32, i32))>, key: u64, p: (u32, usize))
    requires
        entries.len() <= usize::MAX,
        bucket(entries, key).contains(p),
    ensures
        p.1 < entries.len(),
        entries[p.1 as int].0 == p.0,
        morton_code(entries[p.1 as int].1.0, entries[p.1 as int].1.1, entries[p.1 as int].1.2)
            == key,
    decreases entries.len(),
{
    let prev = bucket(entries.drop_last(), key);
    let e = entries.last();
    if morton_code(e.1.0, e.1.1, e.1.2) == key && p == (e.0, (entries.len() - 1) as usize) {
    } else {
        let w = choose|w: int| 0 <= w < bucket(entries, key).len() && bucket(entries, key)[w] == p;
        if morton_code(e.1.0, e.1.1, e.1.2) == key {
            if w == prev.len() {
                assert(bucket(entries, key)[w] == (e.0, (entries.len() - 1) as usize));
            } else {
                assert(prev[w] == p);
            }
        }
        assert(prev.contains(p));
        lemma_bucket_sound(entries.drop_last(), key, p);
    }
}

/// Gathering the buckets of `keys` keeps everything in the bucket of each key.
proof fn lemma_gather_has(
    entries: Seq<(u32, (i32, i32, i32))>,
    keys: Seq<u64>,
    i: int,
    p: (u32, usize),
)
    requires
        0 <= i < keys.len(),
        bucket(entries, keys[i]).contains(p),
    ensures
        gather(entries, keys).contains(p),
    decreases keys.len(),
{
    let prev = gather(entries, keys.drop_last());
    let last = bucket(entries, keys.last());
    assert(gather(entries, keys) == prev + last);
    if i == keys.len() - 1 {
        let w = choose|w: int| 0 <= w < last.len() && last[w] == p;
        assert((prev + last)[prev.len() + w] == p);
    } else {
        assert(keys.drop_last()[i] == keys[i]);
        lemma_gather_has(entries, keys.drop_last(), i, p);
        let w = choose|w: int| 0 <= w < prev.len() && prev[w] == p;
        assert((prev + last)[w] == p);
    }
}

/// Whatever is gathered comes from the bucket of one of the keys.
proof fn lemma_gather_sound(entries: Seq<(u32, (i32, i32, i32))>, keys: Seq<u64>, p: (u32, usize))
    requires
        gather(entries, keys).contains(p),
    ensures
        exists|i: int| 0 <= i < keys.len() && #[trigger] bucket(entries, keys[i]).contains(p),
    decreases keys.len(),
{
    let prev = gather(entries, keys.drop_last());
    let last = bucket(entries, keys.last());
    assert(gather(entries, keys) == prev + last);
    let w = choose|w: int| 0 <= w < (prev + last).len() && (prev + last)[w] == p;
    if w < prev.len() {
        assert(prev[w] == p);
        lemma_gather_sound(entries, keys.drop_last(), p);
        let i = choose|i: int|
            0 <= i < keys.drop_last().len() && #[trigger] bucket(entries, keys.drop_last()[i]).contains(p);
        assert(keys.drop_last()[i] == keys[i]);
    } else {
        assert(last[w - prev.len()] == p);
        assert(bucket(entries, keys[keys.len() - 1]).contains(p));
    }
}

/// A query finds every element that was inserted in a cell within
/// Chebyshev distance `r` of the base cell.
pub proof fn lemma_query_finds_nearby(
    entries: Seq<(u32, (i32, i32, i32))>,
    base: (i32, i32, i32),
    r: int,
    j: int,
)
    requires
        r >= 0,
        cube_in_range(base, r),
        0 <= j < entries.len(),
        -r <= entries[j].1.0 - base.0 <= r,
        -r <= entries[j].1.1 - base.1 <= r,
        -r <= entries[j].1.2 - base.2 <= r,
    ensures
        gather(entries, cube_keys(base, r)).contains((entries[j].0, j as usize)),
{
    let q = entries[j].1;
    let s = cube_side(r);
    let k = cube_index(s, q.0 - base.0 + r, q.1 - base.1 + r, q.2 - base.2 + r);
    lemma_cube_index_offset(r, q.0 - base.0 + r, q.1 - base.1 + r, q.2 - base.2 + r);
    let keys = cube_keys(base, r);
    assert(keys[k] == morton_code(q.0, q.1, q.2));
    lemma_bucket_has_entry(entries, j);
    lemma_gather_has(entries, keys, k, (entries[j].0, j as usize));
}

/// Everything a query returns is an inserted element, reported with its
/// own id, whose cell has the Morton code of a cell of the queried cube.
pub proof fn lemma_query_returns_inserted(
    entries: Seq<(u32, (i32, i32, i32))>,
    base: (i32, i32, i32),
    r: int,
    p: (u32, usize),
)
    requires
        entries.len() <= usize::MAX,
        gather(entries, cube_keys(base, r)).contains(p),
    ensures
        p.1 < entries.len(),
        entries[p.1 as int].0 == p.0,
        cube_keys(base, r).contains(
            morton_code(entries[p.1 as int].1.0, entries[p.1 as int].1.1, entries[p.1 as int].1.2),
        ),
{
    let keys = cube_keys(base, r);
    lemma_gather_sound(entries, keys, p);
    let i = choose|i: int| 0 <= i < keys.len() && #[trigger] bucket(entries, keys[i]).contains(p);
    lemma_bucket_sound(entries, keys[i], p);
}

} // verus!
