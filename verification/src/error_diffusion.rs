//! Error-diffusion dithering: a single forward raster scan that snaps each
//! pixel to its nearest levels and spreads the signed residual into the four
//! forward neighbors with weights 7/16, 3/16, 5/16 and 1/16, skipping targets
//! that fall outside the image. The whole pass is a function of the input,
//! so two runs on the same image and parameters agree byte for byte.

use vstd::prelude::*;
use vstd::arithmetic::div_mod::{
    lemma_fundamental_div_mod, lemma_mod_division_less_than_divisor,
};
use vstd::arithmetic::mul::lemma_mul_inequality;
use crate::algorithms::DitheringParameters;
use crate::image::{Image, Rgba};
use crate::levels::{LevelTable, levels_seq, nearest_in};

verus! {

/// One channel after receiving a `w/16` share of the residual `d`: the exact
/// integer form of fixed-point accumulation truncated into [0, 255].
pub open spec fn spread_channel(c: u8, w: int, d: int) -> u8 {
    let n = 16 * c + w * d;
    if n <= 0 {
        0u8
    } else if n / 16 >= 255 {
        255u8
    } else {
        (n / 16) as u8
    }
}

/// A neighbor pixel after receiving its share of all three channel residuals;
/// the write makes the pixel opaque.
pub open spec fn spread_pixel(px: Rgba, w: int, dr: int, dg: int, db: int) -> Rgba {
    Rgba {
        r: spread_channel(px.r, w, dr),
        g: spread_channel(px.g, w, dg),
        b: spread_channel(px.b, w, db),
        a: 255,
    }
}

/// One step of the raster scan at index `idx`: quantize the pixel there, then
/// spread its residual right (7/16), below-left (3/16), below (5/16) and
/// below-right (1/16), each only when that neighbor exists.
pub open spec fn diffuse_step(
    buf: Seq<Rgba>,
    idx: int,
    width: int,
    height: int,
    p: DitheringParameters,
) -> Seq<Rgba> {
    let px = buf[idx];
    let r = nearest_in(levels_seq(p.k_r as int), px.r);
    let g = nearest_in(levels_seq(p.k_g as int), px.g);
    let b = nearest_in(levels_seq(p.k_b as int), px.b);
    let dr = px.r - r;
    let dg = px.g - g;
    let db = px.b - b;
    let row = idx / width;
    let col = idx % width;
    let b0 = buf.update(idx, Rgba { r, g, b, a: 255 });
    let b1 = if col + 1 < width {
        b0.update(idx + 1, spread_pixel(b0[idx + 1], 7, dr, dg, db))
    } else {
        b0
    };
    let b2 = if col >= 1 && row + 1 < height {
        b1.update(idx + width - 1, spread_pixel(b1[idx + width - 1], 3, dr, dg, db))
    } else {
        b1
    };
    let b3 = if row + 1 < height {
        b2.update(idx + width, spread_pixel(b2[idx + width], 5, dr, dg, db))
    } else {
        b2
    };
    if col + 1 < width && row + 1 < height {
        b3.update(idx + width + 1, spread_pixel(b3[idx + width + 1], 1, dr, dg, db))
    } else {
        b3
    }
}

/// The buffer after the scan has processed the first `count` pixels.
pub open spec fn diffuse_prefix(
    pixels: Seq<Rgba>,
    count: int,
    width: int,
    height: int,
    p: DitheringParameters,
) -> Seq<Rgba>
    decreases count,
{
    if count <= 0 {
        pixels
    } else {
        diffuse_step(diffuse_prefix(pixels, count - 1, width, height, p), count - 1, width, height, p)
    }
}

/// The complete error-diffusion pass over a buffer.
pub open spec fn error_diffusion_image(
    p: DitheringParameters,
    width: int,
    height: int,
    pixels: Seq<Rgba>,
) -> Seq<Rgba> {
    diffuse_prefix(pixels, pixels.len() as int, width, height, p)
}

/// Raster geometry: where the forward neighbors of index `idx` fall, and that
/// each guarded target stays inside the buffer.
proof fn lemma_raster_bounds(idx: int, width: int, height: int)
    requires
        width >= 1,
        0 <= idx < width * height,
    ensures
        idx == width * (idx / width) + idx % width,
        0 <= idx % width < width,
        0 <= idx / width < height,
        (idx % width) + 1 < width ==> idx + 1 < width * height,
        idx / width + 1 < height ==> idx + width < width * height,
        idx / width + 1 < height && idx % width >= 1 ==> 0 <= idx + width - 1 < width * height,
        (idx % width) + 1 < width && idx / width + 1 < height ==> idx + width + 1 < width * height,
{
    let q = idx / width;
    let r = idx % width;
    lemma_fundamental_div_mod(idx, width);
    lemma_mod_division_less_than_divisor(idx, width);
    assert(q >= 0) by {
        if q < 0 {
            lemma_mul_inequality(q, -1, width);
            assert(q * width <= (-1) * width);
            assert(width * q == q * width) by (nonlinear_arith);
            assert((-1) * width == -width) by (nonlinear_arith);
        }
    }
    assert(q < height) by {
        if q >= height {
            lemma_mul_inequality(height, q, width);
            assert(height * width <= q * width);
            assert(width * q == q * width) by (nonlinear_arith);
            assert(width * height == height * width) by (nonlinear_arith);
        }
    }
    if q + 1 < height {
        assert(idx + width < width * height) by {
            lemma_mul_inequality(q + 2, height, width);
            assert((q + 2) * width <= height * width);
            assert((q + 2) * width == q * width + 2 * width) by (nonlinear_arith);
            assert(width * q == q * width) by (nonlinear_arith);
            assert(width * height == height * width) by (nonlinear_arith);
        }
    }
    if r + 1 < width && q + 1 < height {
        assert(idx + width + 1 < width * height) by {
            lemma_mul_inequality(q + 2, height, width);
            assert((q + 2) * width <= height * width);
            assert((q + 2) * width == q * width + 2 * width) by (nonlinear_arith);
            assert(width * q == q * width) by (nonlinear_arith);
            assert(width * height == height * width) by (nonlinear_arith);
        }
    }
    if r + 1 < width {
        assert(idx + 1 < width * height) by {
            lemma_mul_inequality(q + 1, height, width);
            assert((q + 1) * width <= height * width);
            assert((q + 1) * width == q * width + width) by (nonlinear_arith);
            assert(width * q == q * width) by (nonlinear_arith);
            assert(width * height == height * width) by (nonlinear_arith);
        }
    }
}

/// One scan step never changes the buffer length.
proof fn lemma_diffuse_step_len(
    buf: Seq<Rgba>,
    idx: int,
    width: int,
    height: int,
    p: DitheringParameters,
)
    requires
        width >= 1,
        buf.len() == width * height,
        0 <= idx < buf.len(),
    ensures
        diffuse_step(buf, idx, width, height, p).len() == buf.len(),
{
    lemma_raster_bounds(idx, width, height);
}

/// The scan preserves the buffer length at every prefix.
proof fn lemma_diffuse_prefix_len(
    pixels: Seq<Rgba>,
    count: int,
    width: int,
    height: int,
    p: DitheringParameters,
)
    requires
        width >= 1,
        pixels.len() == width * height,
        0 <= count <= pixels.len(),
    ensures
        diffuse_prefix(pixels, count, width, height, p).len() == pixels.len(),
    decreases count,
{
    if count > 0 {
        lemma_diffuse_prefix_len(pixels, count - 1, width, height, p);
        lemma_diffuse_step_len(
            diffuse_prefix(pixels, count - 1, width, height, p),
            count - 1,
            width,
            height,
            p,
        );
    }
}

/// One channel's share of a residual, in exec form.
fn spread_channel_exec(c: u8, w: i32, d: i32) -> (r: u8)
    requires
        0 <= w <= 7,
        -255 <= d <= 255,
    ensures
        r == spread_channel(c, w as int, d as int),
{
    proof {
        assert(-1785 <= w * d <= 1785) by (nonlinear_arith)
            requires
                0 <= w <= 7,
                -255 <= d <= 255,
        ;
    }
    let n: i32 = 16 * (c as i32) + w * d;
    if n <= 0 {
        0
    } else {
        let q: u32 = (n as u32) / 16;
        if q >= 255 {
            255
        } else {
            q as u8
        }
    }
}

/// Adds one weighted residual to the pixel at `target`.
fn add_error(out: &mut Vec<Rgba>, target: usize, w: i32, dr: i32, dg: i32, db: i32)
    requires
        target < old(out)@.len(),
        0 <= w <= 7,
        -255 <= dr <= 255,
        -255 <= dg <= 255,
        -255 <= db <= 255,
    ensures
        final(out)@ == old(out)@.update(
            target as int,
            spread_pixel(old(out)@[target as int], w as int, dr as int, dg as int, db as int),
        ),
{
    let px = out[target];
    let q = Rgba {
        r: spread_channel_exec(px.r, w, dr),
        g: spread_channel_exec(px.g, w, dg),
        b: spread_channel_exec(px.b, w, db),
        a: 255,
    };
    out.set(target, q);
}

/// The error-diffusion strategy.
pub struct ErrorDiffusionDitheringColorQuantizer;

impl ErrorDiffusionDitheringColorQuantizer {
    /// Runs the full raster scan; the result is the unique buffer the scan
    /// specification produces, so the pass is deterministic.
    pub fn generate_output_image(params: DitheringParameters, initial_image: &Image) -> (r: Image)
        requires
            params.valid(),
            initial_image.wf(),
        ensures
            r.wf(),
            r.width == initial_image.width,
            r.height == initial_image.height,
            r.pixels@ == error_diffusion_image(
                params,
                initial_image.width as int,
                initial_image.height as int,
                initial_image.pixels@,
            ),
    {
        let r_table = LevelTable::build(params.k_r);
        let g_table = LevelTable::build(params.k_g);
        let b_table = LevelTable::build(params.k_b);
        let width = initial_image.width;
        let height = initial_image.height;
        let n = initial_image.pixels.len();
        let ghost pixels0 = initial_image.pixels@;
        proof {
            if n > 0 && width == 0 {
                assert(initial_image.width * initial_image.height == 0) by (nonlinear_arith)
                    requires
                        initial_image.width == 0,
                ;
            }
        }
        // Start from a copy of the input; the scan rewrites it in place.
        let mut out: Vec<Rgba> = Vec::new();
        let mut i: usize = 0;
        while i < n
            invariant
                pixels0 == initial_image.pixels@,
                n == pixels0.len(),
                0 <= i <= n,
                out@.len() == i,
                forall|j: int| 0 <= j < i ==> #[trigger] out@[j] == pixels0[j],
            decreases n - i,
        {
            out.push(initial_image.pixels[i]);
            i = i + 1;
        }
        proof {
            assert(out@ =~= pixels0);
        }
        let mut i: usize = 0;
        while i < n
            invariant
                params.valid(),
                width == initial_image.width,
                height == initial_image.height,
                n == pixels0.len(),
                pixels0 == initial_image.pixels@,
                n == width * height,
                n > 0 ==> width >= 1,
                r_table.wf() && r_table.levels@ == levels_seq(params.k_r as int),
                g_table.wf() && g_table.levels@ == levels_seq(params.k_g as int),
                b_table.wf() && b_table.levels@ == levels_seq(params.k_b as int),
                0 <= i <= n,
                out@.len() == n,
                out@ == diffuse_prefix(pixels0, i as int, width as int, height as int, params),
            decreases n - i,
        {
            let ghost before = out@;
            proof {
                lemma_raster_bounds(i as int, width as int, height as int);
            }
            let px = out[i];
            let qr = r_table.nearest(px.r);
            let qg = g_table.nearest(px.g);
            let qb = b_table.nearest(px.b);
            let dr: i32 = px.r as i32 - qr as i32;
            let dg: i32 = px.g as i32 - qg as i32;
            let db: i32 = px.b as i32 - qb as i32;
            out.set(i, Rgba { r: qr, g: qg, b: qb, a: 255 });
            let row = i / width;
            let col = i % width;
            if col + 1 < width {
                add_error(&mut out, i + 1, 7, dr, dg, db);
            }
            if col >= 1 && row + 1 < height {
                add_error(&mut out, i + width - 1, 3, dr, dg, db);
            }
            if row + 1 < height {
                add_error(&mut out, i + width, 5, dr, dg, db);
            }
            if col + 1 < width && row + 1 < height {
                add_error(&mut out, i + width + 1, 1, dr, dg, db);
            }
            proof {
                assert(out@ == diffuse_step(before, i as int, width as int, height as int, params));
            }
            i = i + 1;
        }
        Image { width, height, pixels: out }
    }
}

} // verus!
