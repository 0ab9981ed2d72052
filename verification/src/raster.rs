//! Indexing of the 2D rasters of the fire-front solvers (level-set field,
//! spread rates, suppression coverage), compute dispatch sizes, and the
//! fixed-point arithmetic of the CPU level-set solver.
use vstd::prelude::*;

verus! {

/// Row-major position of raster cell `(x, y)` when the cell lies inside a
/// `width`×`height` raster. The bounds are compared as `i32`, as the
/// solvers do.
pub open spec fn raster_position(width: u32, height: u32, x: i32, y: i32) -> Option<int> {
    if 0 <= x < width as i32 && 0 <= y < height as i32 {
        Some(y * width + x)
    } else {
        None
    }
}

/// Position of the raster cell `(x, y)`, or `None` outside the raster
/// (where samplers fall back to their default value).
pub fn raster_index(width: u32, height: u32, x: i32, y: i32) -> (r: Option<usize>)
    requires
        (width as int) * (height as int) <= u32::MAX + 1,
    ensures
        match raster_position(width, height, x, y) {
            Some(p) => r == Some(p as usize) && p < (width as int) * (height as int),
            None => r is None,
        },
{
    if x < 0 || x >= width as i32 || y < 0 || y >= height as i32 {
        return None;
    }
    proof {
        assert(width as i32 >= 0 && x < width);
        assert(y < height);
        assert((y as int) * (width as int) + (x as int) < (width as int) * (height as int))
            by (nonlinear_arith)
            requires
                0 <= x < width,
                0 <= y < height,
        ;
        assert((y as int) * (width as int) >= 0) by (nonlinear_arith)
            requires
                y >= 0,
        ;
    }
    Some((y as u32 * width + x as u32) as usize)
}

/// Position of the raster cell `(x, y)` for unsigned coordinates, or `None`
/// outside the raster.
pub fn raster_index_unsigned(width: u32, height: u32, x: u32, y: u32) -> (r: Option<usize>)
    requires
        (width as int) * (height as int) <= u32::MAX + 1,
    ensures
        match r {
            Some(p) => x < width && y < height && p == y * width + x,
            None => !(x < width && y < height),
        },
{
    if x < width && y < height {
        proof {
            assert((y as int) * (width as int) + (x as int) < (width as int) * (height as int))
                by (nonlinear_arith)
                requires
                    0 <= x < width,
                    0 <= y < height,
            ;
        }
        Some((y * width + x) as usize)
    } else {
        None
    }
}

/// `v` limited to `[0, n - 1]`.
pub open spec fn clamp_to(v: int, n: int) -> int {
    if v < 0 {
        0
    } else if v > n - 1 {
        n - 1
    } else {
        v
    }
}

/// Position of the raster cell nearest to `(x, y)`: coordinates outside the
/// raster are clamped to its edge.
pub fn clamped_raster_index(width: u32, height: u32, x: i32, y: i32) -> (i: usize)
    requires
        1 <= width <= i32::MAX,
        1 <= height <= i32::MAX,
        (width as int) * (height as int) <= i32::MAX + 1,
    ensures
        i == clamp_to(y as int, height as int) * width + clamp_to(x as int, width as int),
        i < (width as int) * (height as int),
{
    let w = width as i32;
    let h = height as i32;
    let xc = if x < 0 {
        0
    } else if x > w - 1 {
        w - 1
    } else {
        x
    };
    let yc = if y < 0 {
        0
    } else if y > h - 1 {
        h - 1
    } else {
        y
    };
    proof {
        assert((yc as int) * (w as int) + (xc as int) < (w as int) * (h as int)) by (nonlinear_arith)
            requires
                0 <= xc < w,
                0 <= yc < h,
        ;
        assert((yc as int) * (w as int) >= 0) by (nonlinear_arith)
            requires
                yc >= 0,
                w >= 0,
        ;
    }
    (yc * w + xc) as usize
}

/// `n` divided by `d`, rounded up.
pub open spec fn ceil_div(n: int, d: int) -> int {
    (n + d - 1) / d
}

/// Threads per workgroup along each axis of the solver shaders.
pub const WORKGROUP_SIZE: u32 = 16;

/// Workgroups to dispatch so that 16×16-thread groups cover a
/// `width`×`height` raster.
pub fn workgroup_counts(width: u32, height: u32) -> (c: (u32, u32))
    ensures
        c.0 == ceil_div(width as int, 16),
        c.1 == ceil_div(height as int, 16),
{
    let cx = width / WORKGROUP_SIZE + if width % WORKGROUP_SIZE != 0 {
        1
    } else {
        0
    };
    let cy = height / WORKGROUP_SIZE + if height % WORKGROUP_SIZE != 0 {
        1
    } else {
        0
    };
    (cx, cy)
}

/// Check if a GPU whose largest buffer holds `max_buffer_size` bytes likely
/// has room for a `width`×`height` texture of `bytes_per_pixel`: the
/// texture, with four times its size reserved as working memory, must fit.
pub fn has_sufficient_memory(max_buffer_size: u64, width: u32, height: u32, bytes_per_pixel: u32) -> (r:
    bool)
    requires
        (width as int) * (height as int) * (bytes_per_pixel as int) * 4 <= u64::MAX,
    ensures
        r == ((width as int) * (height as int) * (bytes_per_pixel as int) * 4 <= max_buffer_size),
{
    proof {
        assert((width as int) * (height as int) <= (width as int) * (height as int) * (
        bytes_per_pixel as int) * 4 || bytes_per_pixel == 0) by (nonlinear_arith);
        assert((width as int) * (height as int) * (bytes_per_pixel as int) <= (width as int) * (
        height as int) * (bytes_per_pixel as int) * 4) by (nonlinear_arith);
        assert(0 <= (width as int) * (height as int)) by (nonlinear_arith);
        assert(0 <= (width as int) * (height as int) * (bytes_per_pixel as int)) by (nonlinear_arith);
    }
    if bytes_per_pixel == 0 {
        return 0 <= max_buffer_size;
    }
    let required_bytes = (width as u64) * (height as u64) * (bytes_per_pixel as u64);
    let required_with_overhead = required_bytes * 4;
    required_with_overhead <= max_buffer_size
}

/// Fixed-point scale of the CPU level-set solver (2^10: its square root, 32,
/// is exact).
pub const FIXED_SCALE: i32 = 1024;

/// `steps` Babylonian iterations for the square root of `val` from `guess`,
/// stopping early at a zero guess.
pub open spec fn babylonian(val: int, guess: int, steps: nat) -> int
    decreases steps,
{
    if steps == 0 || guess == 0 {
        guess
    } else {
        babylonian(val, (guess + val / guess) / 2, (steps - 1) as nat)
    }
}

/// Integer square root as the level-set shader computes it: ten Babylonian
/// iterations from `val / 2`; zero for non-positive values.
pub open spec fn shader_sqrt(val: int) -> int {
    if val <= 0 {
        0
    } else {
        babylonian(val, val / 2, 10)
    }
}

/// Integer square root used by the fixed-point level-set update.
pub fn int_sqrt(val: i32) -> (r: i32)
    ensures
        r == shader_sqrt(val as int),
        0 <= r,
        val > 0 ==> r <= val,
{
    if val <= 0 {
        return 0;
    }
    let mut s = val / 2;
    let mut i: u32 = 0;
    while i < 10 && s != 0
        invariant
            val > 0,
            0 <= s <= val,
            i <= 10,
            babylonian(val as int, s as int, (10 - i) as nat) == babylonian(val as int, val / 2, 10),
        decreases 10 - i,
    {
        let q = val / s;
        assert(q <= val) by (nonlinear_arith)
            requires
                q == val / s,
                s >= 1,
                val > 0,
        ;
        s = ((s as i64 + q as i64) / 2) as i32;
        i = i + 1;
    }
    s
}

/// Upwind difference of a row of three level-set values: of the backward
/// difference `c - minus` and the forward difference `plus - c`, the one
/// with the larger magnitude (the forward one on ties).
pub open spec fn upwind(minus: int, c: int, plus: int) -> int {
    let dm = c - minus;
    let dp = plus - c;
    if (if dm < 0 {
        -dm
    } else {
        dm
    }) > (if dp < 0 {
        -dp
    } else {
        dp
    }) {
        dm
    } else {
        dp
    }
}

/// The upwind difference is one of the two one-sided differences, and its
/// magnitude is at least that of each; on equal magnitudes it is the
/// forward difference.
pub proof fn lemma_upwind_dominates(minus: int, c: int, plus: int)
    ensures
        upwind(minus, c, plus) == c - minus || upwind(minus, c, plus) == plus - c,
        ({
            let d = upwind(minus, c, plus);
            let ad = if d < 0 { -d } else { d };
            let am = if c - minus < 0 { minus - c } else { c - minus };
            let ap = if plus - c < 0 { c - plus } else { plus - c };
            &&& ad >= am
            &&& ad >= ap
            &&& am == ap ==> d == plus - c
        }),
{
}

/// Upwind difference used for the level-set gradient.
pub fn upwind_difference(minus: i32, c: i32, plus: i32) -> (d: i32)
    requires
        i32::MIN < c - minus <= i32::MAX,
        i32::MIN < plus - c <= i32::MAX,
    ensures
        d == upwind(minus as int, c as int, plus as int),
        d == c - minus || d == plus - c,
        (if d < 0 { -(d as int) } else { d as int }) >= (if c - minus < 0 { minus - c } else { c - minus }),
        (if d < 0 { -(d as int) } else { d as int }) >= (if plus - c < 0 { c - plus } else { plus - c }),
        (if c - minus < 0 { minus - c } else { c - minus }) == (if plus - c < 0 { c - plus } else {
            plus - c
        }) ==> d == plus - c,
{
    proof {
        lemma_upwind_dominates(minus as int, c as int, plus as int);
    }
    let dm = c - minus;
    let dp = plus - c;
    let am = if dm < 0 {
        -dm
    } else {
        dm
    };
    let ap = if dp < 0 {
        -dp
    } else {
        dp
    };
    if am > ap {
        dm
    } else {
        dp
    }
}

/// Quotient rounded toward zero, as integer division does.
pub open spec fn trunc_div(n: int, d: int) -> int {
    if d > 0 {
        n / d
    } else {
        -(n / (-d))
    }
}

/// Fixed-point gradient magnitude from the integer square root of the
/// squared gradient and the fixed-point grid spacing:
/// `sqrt_val · 32 · 1024 / dx_fixed`, wrapped to `i32`; 0 for zero spacing.
pub fn gradient_magnitude_fixed(sqrt_val: i32, dx_fixed: i32) -> (g: i32)
    requires
        sqrt_val >= 0,
    ensures
        dx_fixed == 0 ==> g == 0,
        dx_fixed != 0 ==> g == (trunc_div(sqrt_val * 32 * 1024, dx_fixed as int) as i32),
{
    if dx_fixed == 0 {
        return 0;
    }
    let n: i64 = (sqrt_val as i64) * 32 * (FIXED_SCALE as i64);
    let q: i64 = if dx_fixed > 0 {
        n / (dx_fixed as i64)
    } else {
        -(n / (-(dx_fixed as i64)))
    };
    q as i32
}

/// The 2×2 block of raster cells whose top-left corner is `(x, y)` holds a
/// level-set value below zero and one above zero, where `s` holds the signs
/// of the values row by row.
pub open spec fn crosses_front(s: Seq<i8>, w: int, x: int, y: int) -> bool {
    let v00 = s[y * w + x];
    let v10 = s[y * w + x + 1];
    let v01 = s[(y + 1) * w + x];
    let v11 = s[(y + 1) * w + x + 1];
    &&& (v00 < 0 || v10 < 0 || v01 < 0 || v11 < 0)
    &&& (v00 > 0 || v10 > 0 || v01 > 0 || v11 > 0)
}

/// Block `(x, y)` lies inside a `w`×`h` raster and the fire front passes
/// through it.
pub open spec fn on_front(s: Seq<i8>, w: int, h: int, x: int, y: int) -> bool {
    0 <= x < w - 1 && 0 <= y < h - 1 && crosses_front(s, w, x, y)
}

/// Block `a` comes before block `b` row by row.
pub open spec fn block_before(a: (u32, u32), b: (u32, u32)) -> bool {
    a.1 < b.1 || (a.1 == b.1 && a.0 < b.0)
}

/// The blocks that the fire front passes through, row by row: the 2×2
/// blocks of cells (named by their top-left cell) that hold a negative and
/// a positive level-set value. `signs` holds the sign of each value.
pub fn front_cells(signs: &Vec<i8>, width: u32, height: u32) -> (cells: Vec<(u32, u32)>)
    requires
        width >= 1,
        height >= 1,
        (width as int) * (height as int) <= u32::MAX,
        width >= 2 && height >= 2 ==> signs@.len() >= (width as int) * (height as int),
    ensures
        forall|a: int, b: int|
            0 <= a < b < cells@.len() ==> block_before(#[trigger] cells@[a], #[trigger] cells@[b]),
        forall|k: int|
            0 <= k < cells@.len() ==> on_front(
                signs@,
                width as int,
                height as int,
                (#[trigger] cells@[k]).0 as int,
                cells@[k].1 as int,
            ),
        forall|x: int, y: int|
            #[trigger] on_front(signs@, width as int, height as int, x, y) ==> cells@.contains(
                (x as u32, y as u32),
            ),
{
    let ghost w = width as int;
    let ghost h = height as int;
    let mut cells: Vec<(u32, u32)> = Vec::new();
    let mut y: u32 = 0;
    while y < height - 1
        invariant
            w == width && h == height,
            width >= 1 && height >= 1,
            w * h <= u32::MAX,
            width >= 2 && height >= 2 ==> signs@.len() >= w * h,
            y <= height - 1,
            forall|a: int, b: int|
                0 <= a < b < cells@.len() ==> block_before(
                    #[trigger] cells@[a],
                    #[trigger] cells@[b],
                ),
            forall|k: int|
                0 <= k < cells@.len() ==> {
                    let c = #[trigger] cells@[k];
                    &&& on_front(signs@, w, h, c.0 as int, c.1 as int)
                    &&& c.1 < y
                },
            forall|xx: int, yy: int|
                #[trigger] on_front(signs@, w, h, xx, yy) && yy < y ==> cells@.contains(
                    (xx as u32, yy as u32),
                ),
        decreases height - 1 - y,
    {
        let mut x: u32 = 0;
        while x < width - 1
            invariant
                w == width && h == height,
                width >= 1 && height >= 2,
                w * h <= u32::MAX,
                width >= 2 ==> signs@.len() >= w * h,
                y < height - 1,
                x <= width - 1,
                forall|a: int, b: int|
                    0 <= a < b < cells@.len() ==> block_before(
                        #[trigger] cells@[a],
                        #[trigger] cells@[b],
                    ),
                forall|k: int|
                    0 <= k < cells@.len() ==> {
                        let c = #[trigger] cells@[k];
                        &&& on_front(signs@, w, h, c.0 as int, c.1 as int)
                        &&& block_before(c, (x, y))
                    },
                forall|xx: int, yy: int|
                    #[trigger] on_front(signs@, w, h, xx, yy) && (yy < y || (yy == y && xx < x))
                        ==> cells@.contains((xx as u32, yy as u32)),
            decreases width - 1 - x,
        {
            proof {
                assert((y as int + 1) * w + x + 1 <= w * h - 1) by (nonlinear_arith)
                    requires
                        0 <= x < w - 1,
                        0 <= y < h - 1,
                ;
                assert(y as int * w >= 0) by (nonlinear_arith)
                    requires
                        y >= 0,
                        w >= 0,
                ;
                assert((y as int + 1) * w == y as int * w + w) by (nonlinear_arith);
            }
            let row = y * width;
            let next_row = row + width;
            let v00 = signs[(row + x) as usize];
            let v10 = signs[(row + x + 1) as usize];
            let v01 = signs[(next_row + x) as usize];
            let v11 = signs[(next_row + x + 1) as usize];
            let has_negative = v00 < 0 || v10 < 0 || v01 < 0 || v11 < 0;
            let has_positive = v00 > 0 || v10 > 0 || v01 > 0 || v11 > 0;
            let ghost before = cells@;
            if has_negative && has_positive {
                cells.push((x, y));
                proof {
                    assert(cells@[before.len() as int] == (x, y));
                    assert forall|xx: int, yy: int|
                        #[trigger] on_front(signs@, w, h, xx, yy) && (yy < y || (yy == y && xx
                            < x + 1)) implies cells@.contains((xx as u32, yy as u32)) by {
                        if yy == y && xx == x {
                        } else {
                            let i = choose|i: int|
                                0 <= i < before.len() && before[i] == (xx as u32, yy as u32);
                            assert(cells@[i] == before[i]);
                        }
                    }
                    assert forall|a: int, b: int|
                        0 <= a < b < cells@.len() implies block_before(
                        #[trigger] cells@[a],
                        #[trigger] cells@[b],
                    ) by {
                        if b < before.len() {
                            assert(cells@[a] == before[a] && cells@[b] == before[b]);
                        } else {
                            assert(cells@[a] == before[a]);
                        }
                    }
                    assert forall|k: int| 0 <= k < cells@.len() implies {
                        let c = #[trigger] cells@[k];
                        &&& on_front(signs@, w, h, c.0 as int, c.1 as int)
                        &&& block_before(c, ((x + 1) as u32, y))
                    } by {
                        if k < before.len() {
                            assert(cells@[k] == before[k]);
                        }
                    }
                }
            } else {
                proof {
                    assert(!on_front(signs@, w, h, x as int, y as int));
                }
            }
            x = x + 1;
        }
        y = y + 1;
    }
    cells
}

/// Positions of an interior cell `(x, y)` and of its neighbours in a
/// `width`-wide raster: `(centre, x + 1, x - 1, y + 1, y - 1)`.
pub open spec fn stencil_positions(width: u32, x: u32, y: u32) -> (int, int, int, int, int) {
    let c = y * width + x;
    (c, c + 1, c - 1, c + width, c - width)
}

/// The five positions of the central-difference stencil at `(x, y)`, or
/// `None` for a cell on the raster's border.
pub fn central_stencil(width: u32, height: u32, x: u32, y: u32) -> (r: Option<
    (usize, usize, usize, usize, usize),
>)
    requires
        width >= 1,
        height >= 1,
        (width as int) * (height as int) <= u32::MAX + 1,
    ensures
        r is None <==> (x == 0 || x >= width - 1 || y == 0 || y >= height - 1),
        r matches Some(t) ==> {
            let p = stencil_positions(width, x, y);
            &&& t.0 == p.0 && t.1 == p.1 && t.2 == p.2 && t.3 == p.3 && t.4 == p.4
            &&& p.3 < (width as int) * (height as int)
        },
{
    if x == 0 || x >= width - 1 || y == 0 || y >= height - 1 {
        return None;
    }
    proof {
        assert((y as int + 1) * width + x < (width as int) * (height as int)) by (nonlinear_arith)
            requires
                0 < x < width - 1,
                0 < y < height - 1,
        ;
        assert((y as int + 1) * width == y as int * width + width) by (nonlinear_arith);
        assert((y as int) * width >= width) by (nonlinear_arith)
            requires
                y >= 1,
                width >= 0,
        ;
    }
    let c = y * width + x;
    Some((c as usize, (c + 1) as usize, (c - 1) as usize, (c + width) as usize, (c - width) as usize))
}

} // verus!
