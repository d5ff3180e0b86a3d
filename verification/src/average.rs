//! Average dithering: every channel value snaps independently to its nearest
//! quantization level; the result at a pixel depends on that pixel alone.

use vstd::prelude::*;
use crate::algorithms::DitheringParameters;
use crate::image::{Image, Rgba};
use crate::levels::{LevelTable, levels_seq, nearest_in};

verus! {

/// Average dithering of one pixel: each channel moves to its nearest level;
/// the output is opaque.
pub open spec fn avg_pixel(p: DitheringParameters, px: Rgba) -> Rgba {
    Rgba {
        r: nearest_in(levels_seq(p.k_r as int), px.r),
        g: nearest_in(levels_seq(p.k_g as int), px.g),
        b: nearest_in(levels_seq(p.k_b as int), px.b),
        a: 255,
    }
}

/// Average dithering of a whole pixel buffer, pixel by pixel.
pub open spec fn avg_image_pixels(p: DitheringParameters, pixels: Seq<Rgba>) -> Seq<Rgba> {
    Seq::new(pixels.len(), |i: int| avg_pixel(p, pixels[i]))
}

/// Pixel-order independence: the output at a position depends only on the
/// input pixel at that position, so permuting the processing order of other
/// pixels cannot change it.
pub proof fn lemma_average_pixel_order_independent(
    p: DitheringParameters,
    a: Seq<Rgba>,
    b: Seq<Rgba>,
    i: int,
)
    requires
        0 <= i < a.len(),
        0 <= i < b.len(),
        a[i] == b[i],
    ensures
        avg_image_pixels(p, a)[i] == avg_image_pixels(p, b)[i],
{
}

/// The average-dithering strategy.
pub struct AverageDitheringColorQuantizer;

impl AverageDitheringColorQuantizer {
    /// Quantizes every pixel of `initial_image` to the nearest level of each
    /// channel's table; dimensions are preserved.
    pub fn generate_output_image(params: DitheringParameters, initial_image: &Image) -> (r: Image)
        requires
            params.valid(),
            initial_image.wf(),
        ensures
            r.wf(),
            r.width == initial_image.width,
            r.height == initial_image.height,
            r.pixels@ == avg_image_pixels(params, initial_image.pixels@),
    {
        let r_table = LevelTable::build(params.k_r);
        let g_table = LevelTable::build(params.k_g);
        let b_table = LevelTable::build(params.k_b);
        let n = initial_image.pixels.len();
        let mut out: Vec<Rgba> = Vec::new();
        let mut i: usize = 0;
        while i < n
            invariant
                initial_image.wf(),
                n == initial_image.pixels@.len(),
                r_table.wf(),
                g_table.wf(),
                b_table.wf(),
                r_table.levels@ == levels_seq(params.k_r as int),
                g_table.levels@ == levels_seq(params.k_g as int),
                b_table.levels@ == levels_seq(params.k_b as int),
                0 <= i <= n,
                out@.len() == i,
                forall|j: int| 0 <= j < i
                    ==> #[trigger] out@[j] == avg_pixel(params, initial_image.pixels@[j]),
            decreases n - i,
        {
            let px = initial_image.pixels[i];
            let q = Rgba {
                r: r_table.nearest(px.r),
                g: g_table.nearest(px.g),
                b: b_table.nearest(px.b),
                a: 255,
            };
            out.push(q);
            i = i + 1;
        }
        proof {
            assert(out@ =~= avg_image_pixels(params, initial_image.pixels@));
        }
        Image { width: initial_image.width, height: initial_image.height, pixels: out }
    }
}

} // verus!
