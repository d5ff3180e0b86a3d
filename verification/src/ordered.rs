//! Ordered dithering: a channel value is scaled into level space and rounded
//! up or down by comparing the scaling remainder against a threshold-matrix
//! entry. The relative variant picks the matrix cell from the pixel's raster
//! position; the random variant draws the cell uniformly at random per pixel
//! and channel.

use vstd::prelude::*;
use vstd::arithmetic::div_mod::{
    lemma_div_is_ordered, lemma_div_multiples_vanish, lemma_div_pos_is_pos,
    lemma_fundamental_div_mod,
};
use vstd::arithmetic::mul::lemma_mul_inequality;
use crate::algorithms::DitheringParameters;
use crate::image::{Image, Rgba};
use crate::levels::{LevelTable, levels_seq};
use crate::threshold::{
    lemma_matrix_entry_range, matrix_entry, spec_matrix_size, supported_size, ThresholdMatrix,
};

verus! {

/// The rounding threshold read from matrix cell (i, j) of the size-`n`
/// matrix, rescaled from [0, n*n) to [0, 255).
pub open spec fn threshold_of(n: int, i: int, j: int) -> int {
    matrix_entry(n, i, j) * 255 / (n * n)
}

/// The level index chosen for a channel value against `k` levels: the integer
/// quotient of `value * (k - 1)` by 255, rounded up when the remainder
/// exceeds the threshold.
pub open spec fn ordered_col(value: u8, k: int, threshold: int) -> int {
    let scaled = value as int * (k - 1);
    if scaled % 255 > threshold {
        scaled / 255 + 1
    } else {
        scaled / 255
    }
}

/// The chosen level index is always a valid index into the `k` levels.
pub proof fn lemma_ordered_col_range(value: u8, k: int, threshold: int)
    requires
        2 <= k <= 255,
        threshold >= 0,
    ensures
        0 <= ordered_col(value, k, threshold) < k,
{
    let scaled = value as int * (k - 1);
    lemma_mul_inequality(0, value as int, k - 1);
    lemma_mul_inequality(value as int, 255, k - 1);
    lemma_div_pos_is_pos(scaled, 255);
    assert(scaled / 255 <= (255 * (k - 1)) / 255) by {
        lemma_div_is_ordered(scaled, 255 * (k - 1), 255);
    }
    assert((255 * (k - 1)) / 255 == k - 1) by {
        lemma_div_multiples_vanish(k - 1, 255);
    }
    if scaled % 255 > threshold {
        // The remainder is positive, so the quotient cannot already be k - 1.
        lemma_fundamental_div_mod(scaled, 255);
        if scaled / 255 == k - 1 {
            assert(scaled == 255 * (k - 1) + scaled % 255);
            assert(scaled <= 255 * (k - 1));
            assert(false);
        }
    }
}

/// The output of one channel under ordered dithering with matrix cell (i, j).
pub open spec fn ordered_channel(value: u8, k: int, n: int, i: int, j: int) -> u8 {
    levels_seq(k)[ordered_col(value, k, threshold_of(n, i, j))]
}

/// The relative variant's output for the pixel at raster row `x`, column `y`:
/// each channel uses matrix cell (x mod n, y mod n) of its own matrix.
pub open spec fn ordered_rel_pixel(p: DitheringParameters, x: int, y: int, px: Rgba) -> Rgba {
    let n_r = spec_matrix_size(p.k_r as int);
    let n_g = spec_matrix_size(p.k_g as int);
    let n_b = spec_matrix_size(p.k_b as int);
    Rgba {
        r: ordered_channel(px.r, p.k_r as int, n_r, x % n_r, y % n_r),
        g: ordered_channel(px.g, p.k_g as int, n_g, x % n_g, y % n_g),
        b: ordered_channel(px.b, p.k_b as int, n_b, x % n_b, y % n_b),
        a: 255,
    }
}

/// The relative variant on a whole buffer of the given width.
pub open spec fn ordered_rel_image(p: DitheringParameters, width: int, pixels: Seq<Rgba>) -> Seq<Rgba> {
    Seq::new(pixels.len(), |idx: int| ordered_rel_pixel(p, idx / width, idx % width, pixels[idx]))
}

/// Pixel-order independence of the relative variant: the output at a raster
/// position depends only on that position and the input pixel there.
pub proof fn lemma_ordered_relative_pixel_order_independent(
    p: DitheringParameters,
    width: int,
    a: Seq<Rgba>,
    b: Seq<Rgba>,
    idx: int,
)
    requires
        0 <= idx < a.len(),
        0 <= idx < b.len(),
        a[idx] == b[idx],
    ensures
        ordered_rel_image(p, width, a)[idx] == ordered_rel_image(p, width, b)[idx],
{
}

/// A possible random-variant output for one channel: the result of some
/// matrix cell.
pub open spec fn random_channel_ok(value: u8, k: int, n: int, out: u8) -> bool {
    exists|i: int, j: int|
        0 <= i < n && 0 <= j < n && out == #[trigger] ordered_channel(value, k, n, i, j)
}

/// A possible random-variant output for one pixel: every channel is the
/// result of some cell of its own matrix, and the pixel is opaque.
pub open spec fn random_pixel_ok(p: DitheringParameters, px: Rgba, out: Rgba) -> bool {
    &&& random_channel_ok(px.r, p.k_r as int, spec_matrix_size(p.k_r as int), out.r)
    &&& random_channel_ok(px.g, p.k_g as int, spec_matrix_size(p.k_g as int), out.g)
    &&& random_channel_ok(px.b, p.k_b as int, spec_matrix_size(p.k_b as int), out.b)
    &&& out.a == 255
}

/// Relies on rand::random_range over `0..n`: a draw from [0, n), which would
/// panic on an empty range.
#[verifier::external_body]
fn random_below(n: usize) -> (r: usize)
    requires
        n >= 1,
    ensures
        r < n,
{
    rand::random_range(0..n)
}

/// One channel of ordered dithering through matrix cell (i, j).
fn ordered_channel_exec(
    value: u8,
    table: &LevelTable,
    k: u8,
    matrix: &ThresholdMatrix,
    i: usize,
    j: usize,
) -> (r: u8)
    requires
        2 <= k,
        table.wf(),
        table.levels@ == levels_seq(k as int),
        table.levels@.len() == k,
        matrix.wf(),
        i < matrix.size,
        j < matrix.size,
    ensures
        r == ordered_channel(value, k as int, matrix.size as int, i as int, j as int),
{
    let n = matrix.size;
    let n_sq: u32 = n as u32 * n as u32;
    proof {
        assert(value as int * (k as int - 1) <= 255 * 254) by (nonlinear_arith)
            requires
                value <= 255,
                2 <= k <= 255,
        ;
    }
    let scaled: u32 = value as u32 * (k as u32 - 1);
    let col: u32 = scaled / 255;
    let re: u32 = scaled % 255;
    let entry: u32 = matrix.rows[i][j];
    proof {
        lemma_matrix_entry_range(n as int, i as int, j as int);
        assert(4 <= (n as int) * (n as int) <= 256) by (nonlinear_arith)
            requires
                2 <= n <= 16,
        ;
    }
    let threshold: u32 = entry * 255 / n_sq;
    proof {
        lemma_ordered_col_range(value, k as int, threshold as int);
    }
    let final_col: usize = if re > threshold {
        col as usize + 1
    } else {
        col as usize
    };
    table.levels[final_col]
}

/// Ordered dithering with the matrix cell taken from the pixel's raster
/// position: deterministic, spatially coherent.
pub struct OrderedDitheringRelativeColorQuantizer;

impl OrderedDitheringRelativeColorQuantizer {
    /// Quantizes every pixel through its position's matrix cell; dimensions
    /// are preserved.
    pub fn generate_output_image(params: DitheringParameters, initial_image: &Image) -> (r: Image)
        requires
            params.valid(),
            initial_image.wf(),
        ensures
            r.wf(),
            r.width == initial_image.width,
            r.height == initial_image.height,
            r.pixels@ == ordered_rel_image(params, initial_image.width as int, initial_image.pixels@),
    {
        let r_table = LevelTable::build(params.k_r);
        let g_table = LevelTable::build(params.k_g);
        let b_table = LevelTable::build(params.k_b);
        let n_r = ThresholdMatrix::find_matrix_size(params.k_r);
        let n_g = ThresholdMatrix::find_matrix_size(params.k_g);
        let n_b = ThresholdMatrix::find_matrix_size(params.k_b);
        let m_r = ThresholdMatrix::generate(n_r);
        let m_g = ThresholdMatrix::generate(n_g);
        let m_b = ThresholdMatrix::generate(n_b);
        let width = initial_image.width;
        let n = initial_image.pixels.len();
        proof {
            if n > 0 && width == 0 {
                assert(initial_image.width * initial_image.height == 0) by (nonlinear_arith)
                    requires
                        initial_image.width == 0,
                ;
            }
        }
        let mut out: Vec<Rgba> = Vec::new();
        let mut idx: usize = 0;
        while idx < n
            invariant
                params.valid(),
                initial_image.wf(),
                n == initial_image.pixels@.len(),
                width == initial_image.width,
                n > 0 ==> width > 0,
                r_table.wf() && r_table.levels@ == levels_seq(params.k_r as int)
                    && r_table.levels@.len() == params.k_r,
                g_table.wf() && g_table.levels@ == levels_seq(params.k_g as int)
                    && g_table.levels@.len() == params.k_g,
                b_table.wf() && b_table.levels@ == levels_seq(params.k_b as int)
                    && b_table.levels@.len() == params.k_b,
                m_r.wf() && m_r.size == spec_matrix_size(params.k_r as int),
                m_g.wf() && m_g.size == spec_matrix_size(params.k_g as int),
                m_b.wf() && m_b.size == spec_matrix_size(params.k_b as int),
                0 <= idx <= n,
                out@.len() == idx,
                forall|q: int| 0 <= q < idx
                    ==> #[trigger] out@[q] == ordered_rel_pixel(
                        params,
                        q / width as int,
                        q % width as int,
                        initial_image.pixels@[q],
                    ),
            decreases n - idx,
        {
            let px = initial_image.pixels[idx];
            let x = idx / width;
            let y = idx % width;
            let q = Rgba {
                r: ordered_channel_exec(px.r, &r_table, params.k_r, &m_r, x % m_r.size as usize,
                    y % m_r.size as usize),
                g: ordered_channel_exec(px.g, &g_table, params.k_g, &m_g, x % m_g.size as usize,
                    y % m_g.size as usize),
                b: ordered_channel_exec(px.b, &b_table, params.k_b, &m_b, x % m_b.size as usize,
                    y % m_b.size as usize),
                a: 255,
            };
            out.push(q);
            idx = idx + 1;
        }
        proof {
            assert(out@ =~= ordered_rel_image(params, width as int, initial_image.pixels@));
        }
        Image { width: initial_image.width, height: initial_image.height, pixels: out }
    }
}

/// Ordered dithering with the matrix cell drawn uniformly at random per pixel
/// and channel: nondeterministic by design, so two runs on the same input may
/// legitimately differ.
pub struct OrderedDitheringRandomColorQuantizer;

impl OrderedDitheringRandomColorQuantizer {
    /// Quantizes every pixel through some matrix cell of each channel's
    /// matrix; dimensions are preserved. Which cell is drawn is not
    /// specified.
    pub fn generate_output_image(params: DitheringParameters, initial_image: &Image) -> (r: Image)
        requires
            params.valid(),
            initial_image.wf(),
        ensures
            r.wf(),
            r.width == initial_image.width,
            r.height == initial_image.height,
            r.pixels@.len() == initial_image.pixels@.len(),
            forall|q: int| 0 <= q < r.pixels@.len()
                ==> #[trigger] random_pixel_ok(params, initial_image.pixels@[q], r.pixels@[q]),
    {
        let r_table = LevelTable::build(params.k_r);
        let g_table = LevelTable::build(params.k_g);
        let b_table = LevelTable::build(params.k_b);
        let n_r = ThresholdMatrix::find_matrix_size(params.k_r);
        let n_g = ThresholdMatrix::find_matrix_size(params.k_g);
        let n_b = ThresholdMatrix::find_matrix_size(params.k_b);
        let m_r = ThresholdMatrix::generate(n_r);
        let m_g = ThresholdMatrix::generate(n_g);
        let m_b = ThresholdMatrix::generate(n_b);
        let n = initial_image.pixels.len();
        let mut out: Vec<Rgba> = Vec::new();
        let mut idx: usize = 0;
        while idx < n
            invariant
                params.valid(),
                initial_image.wf(),
                n == initial_image.pixels@.len(),
                r_table.wf() && r_table.levels@ == levels_seq(params.k_r as int)
                    && r_table.levels@.len() == params.k_r,
                g_table.wf() && g_table.levels@ == levels_seq(params.k_g as int)
                    && g_table.levels@.len() == params.k_g,
                b_table.wf() && b_table.levels@ == levels_seq(params.k_b as int)
                    && b_table.levels@.len() == params.k_b,
                m_r.wf() && m_r.size == spec_matrix_size(params.k_r as int),
                m_g.wf() && m_g.size == spec_matrix_size(params.k_g as int),
                m_b.wf() && m_b.size == spec_matrix_size(params.k_b as int),
                0 <= idx <= n,
                out@.len() == idx,
                forall|q: int| 0 <= q < idx
                    ==> #[trigger] random_pixel_ok(params, initial_image.pixels@[q], out@[q]),
            decreases n - idx,
        {
            let px = initial_image.pixels[idx];
            let ri = random_below(m_r.size as usize);
            let rj = random_below(m_r.size as usize);
            let gi = random_below(m_g.size as usize);
            let gj = random_below(m_g.size as usize);
            let bi = random_below(m_b.size as usize);
            let bj = random_below(m_b.size as usize);
            let q = Rgba {
                r: ordered_channel_exec(px.r, &r_table, params.k_r, &m_r, ri, rj),
                g: ordered_channel_exec(px.g, &g_table, params.k_g, &m_g, gi, gj),
                b: ordered_channel_exec(px.b, &b_table, params.k_b, &m_b, bi, bj),
                a: 255,
            };
            proof {
                assert(random_pixel_ok(params, initial_image.pixels@[idx as int], q)) by {
                    assert(q.r == ordered_channel(px.r, params.k_r as int, m_r.size as int,
                        ri as int, rj as int));
                    assert(q.g == ordered_channel(px.g, params.k_g as int, m_g.size as int,
                        gi as int, gj as int));
                    assert(q.b == ordered_channel(px.b, params.k_b as int, m_b.size as int,
                        bi as int, bj as int));
                }
            }
            out.push(q);
            idx = idx + 1;
        }
        Image { width: initial_image.width, height: initial_image.height, pixels: out }
    }
}

} // verus!
