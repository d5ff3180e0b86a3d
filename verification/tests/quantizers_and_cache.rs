use color_quantizer::algorithms::{
    Algorithm, AlgorithmCacheKey, AlgorithmParameters, DitheringParameters, PopularityParameters,
    QuantizeError,
};
use color_quantizer::average::AverageDitheringColorQuantizer;
use color_quantizer::cache::ProcessedImagesCache;
use color_quantizer::error_diffusion::ErrorDiffusionDitheringColorQuantizer;
use color_quantizer::image::{Image, Rgba};
use color_quantizer::ordered::{
    OrderedDitheringRandomColorQuantizer, OrderedDitheringRelativeColorQuantizer,
};
use color_quantizer::popularity::PopularityAlgorithmColorQuantizer;

fn px(r: u8, g: u8, b: u8) -> Rgba {
    Rgba { r, g, b, a: 255 }
}

fn img(width: usize, height: usize, pixels: Vec<Rgba>) -> Image {
    Image::new(width, height, pixels).unwrap()
}

fn k3(k: u8) -> DitheringParameters {
    DitheringParameters { k_r: k, k_g: k, k_b: k }
}

#[test]
fn image_new_checks_the_dimensions() {
    assert!(Image::new(2, 2, vec![px(0, 0, 0); 4]).is_some());
    assert!(Image::new(2, 2, vec![px(0, 0, 0); 3]).is_none());
    assert!(Image::new(0, 0, Vec::new()).is_some());
}

#[test]
fn average_dithering_maps_each_channel_to_the_nearer_extreme() {
    // A 2x2 image quantized to two levels per channel: every output channel
    // is 0 or 255; 128 goes to 255 (closer), 64 goes to 0.
    let source = img(2, 2, vec![px(0, 0, 0), px(255, 255, 255), px(128, 128, 128), px(64, 64, 64)]);
    let out = AverageDitheringColorQuantizer::generate_output_image(k3(2), &source);
    assert_eq!(out.width, 2);
    assert_eq!(out.height, 2);
    for p in &out.pixels {
        for c in [p.r, p.g, p.b] {
            assert!(c == 0 || c == 255);
        }
        assert_eq!(p.a, 255);
    }
    assert_eq!(out.pixels, vec![px(0, 0, 0), px(255, 255, 255), px(255, 255, 255), px(0, 0, 0)]);
}

#[test]
fn average_dithering_treats_channels_independently() {
    let source = img(1, 1, vec![px(10, 200, 128)]);
    let out = AverageDitheringColorQuantizer::generate_output_image(
        DitheringParameters { k_r: 2, k_g: 2, k_b: 3 },
        &source,
    );
    assert_eq!(out.pixels, vec![px(0, 255, 128)]);
}

#[test]
fn error_diffusion_pushes_the_residual_rightward() {
    // One row of two mid-gray pixels, two levels: the first snaps to 0 and
    // hands 7/16 of its residual of 100 to its right neighbor, which becomes
    // 100 + 43 = 143 and snaps to 255.
    let source = img(2, 1, vec![px(100, 100, 100), px(100, 100, 100)]);
    let out = ErrorDiffusionDitheringColorQuantizer::generate_output_image(k3(2), &source);
    assert_eq!(out.pixels, vec![px(0, 0, 0), px(255, 255, 255)]);
}

#[test]
fn error_diffusion_is_deterministic() {
    let pixels: Vec<Rgba> = (0..64u32)
        .map(|i| px((i * 4) as u8, (255 - i) as u8, (i * 7 % 251) as u8))
        .collect();
    let source = img(8, 8, pixels);
    let a = ErrorDiffusionDitheringColorQuantizer::generate_output_image(k3(3), &source);
    let b = ErrorDiffusionDitheringColorQuantizer::generate_output_image(k3(3), &source);
    assert_eq!(a.pixels, b.pixels);
    assert_eq!(a.width, 8);
    assert_eq!(a.height, 8);
}

#[test]
fn error_diffusion_skips_targets_outside_the_image() {
    // A single pixel has no neighbors; the pass must not wrap or fail.
    let source = img(1, 1, vec![px(100, 100, 100)]);
    let out = ErrorDiffusionDitheringColorQuantizer::generate_output_image(k3(2), &source);
    assert_eq!(out.pixels, vec![px(0, 0, 0)]);
}

#[test]
fn ordered_relative_is_deterministic_and_uses_table_levels() {
    let pixels: Vec<Rgba> = (0..30u32).map(|i| px((i * 8) as u8, 100, 200)).collect();
    let source = img(6, 5, pixels);
    let a = OrderedDitheringRelativeColorQuantizer::generate_output_image(k3(2), &source);
    let b = OrderedDitheringRelativeColorQuantizer::generate_output_image(k3(2), &source);
    assert_eq!(a.pixels, b.pixels);
    for p in &a.pixels {
        for c in [p.r, p.g, p.b] {
            assert!(c == 0 || c == 255);
        }
    }
}

#[test]
fn ordered_relative_extremes_stay_fixed() {
    let source = img(2, 1, vec![px(0, 0, 0), px(255, 255, 255)]);
    let out = OrderedDitheringRelativeColorQuantizer::generate_output_image(k3(2), &source);
    assert_eq!(out.pixels, vec![px(0, 0, 0), px(255, 255, 255)]);
}

#[test]
fn ordered_random_outputs_only_table_levels() {
    let pixels: Vec<Rgba> = (0..64u32).map(|i| px((i * 4) as u8, 77, 180)).collect();
    let source = img(8, 8, pixels);
    let out = OrderedDitheringRandomColorQuantizer::generate_output_image(k3(2), &source);
    assert_eq!(out.pixels.len(), 64);
    for p in &out.pixels {
        for c in [p.r, p.g, p.b] {
            assert!(c == 0 || c == 255);
        }
        assert_eq!(p.a, 255);
    }
}

#[test]
fn average_output_at_a_position_depends_only_on_that_pixel() {
    // Two images agreeing only at one position: the outputs agree there.
    let a = img(2, 2, vec![px(5, 5, 5), px(77, 88, 99), px(200, 200, 200), px(1, 2, 3)]);
    let b = img(2, 2, vec![px(250, 0, 9), px(77, 88, 99), px(3, 14, 15), px(92, 65, 35)]);
    let out_a = AverageDitheringColorQuantizer::generate_output_image(k3(4), &a);
    let out_b = AverageDitheringColorQuantizer::generate_output_image(k3(4), &b);
    assert_eq!(out_a.pixels[1], out_b.pixels[1]);
}

#[test]
fn ordered_relative_output_at_a_position_depends_only_on_that_pixel() {
    let a = img(3, 2, vec![px(5, 5, 5); 6]);
    let mut pixels_b = vec![px(222, 111, 44); 6];
    pixels_b[4] = px(5, 5, 5);
    let b = img(3, 2, pixels_b);
    let out_a = OrderedDitheringRelativeColorQuantizer::generate_output_image(k3(2), &a);
    let out_b = OrderedDitheringRelativeColorQuantizer::generate_output_image(k3(2), &b);
    assert_eq!(out_a.pixels[4], out_b.pixels[4]);
}

#[test]
fn popularity_with_k1_paints_everything_in_the_most_frequent_color() {
    let source = img(
        2,
        2,
        vec![px(1, 2, 3), px(1, 2, 3), px(9, 9, 9), px(1, 2, 3)],
    );
    let out = PopularityAlgorithmColorQuantizer::generate_output_image(
        PopularityParameters { k: 1 },
        &source,
    )
    .unwrap();
    assert_eq!(out.pixels, vec![px(1, 2, 3); 4]);
}

#[test]
fn popularity_keeps_all_colors_when_fewer_than_k() {
    let source = img(3, 1, vec![px(0, 0, 0), px(255, 0, 0), px(0, 0, 0)]);
    let out = PopularityAlgorithmColorQuantizer::generate_output_image(
        PopularityParameters { k: 8 },
        &source,
    )
    .unwrap();
    // Both colors survive, so the image is unchanged.
    assert_eq!(out.pixels, source.pixels);
}

#[test]
fn popularity_maps_to_the_nearest_palette_color() {
    // Two dominant colors; the two odd pixels move to whichever is closer.
    let source = img(
        3,
        2,
        vec![
            px(0, 0, 0),
            px(0, 0, 0),
            px(250, 250, 250),
            px(250, 250, 250),
            px(10, 10, 10),
            px(240, 240, 240),
        ],
    );
    let out = PopularityAlgorithmColorQuantizer::generate_output_image(
        PopularityParameters { k: 2 },
        &source,
    )
    .unwrap();
    assert_eq!(out.pixels[4], px(0, 0, 0));
    assert_eq!(out.pixels[5], px(250, 250, 250));
}

#[test]
fn popularity_fails_on_an_empty_image() {
    let source = img(0, 0, Vec::new());
    let r = PopularityAlgorithmColorQuantizer::generate_output_image(
        PopularityParameters { k: 2 },
        &source,
    );
    assert_eq!(r.unwrap_err(), QuantizeError::EmptyPalette);
}

fn dithering_key(algorithm: Algorithm, k: u8) -> AlgorithmCacheKey {
    AlgorithmCacheKey { algorithm, params: AlgorithmParameters::Dithering(k3(k)) }
}

#[test]
fn cache_computes_each_key_once() {
    let source = img(2, 2, vec![px(0, 0, 0), px(255, 255, 255), px(128, 128, 128), px(64, 64, 64)]);
    let mut cache = ProcessedImagesCache::new(4);
    assert_eq!(cache.computed_count(), 0);

    let key = dithering_key(Algorithm::AverageDithering, 2);
    let first = cache.get(key, &source).unwrap();
    assert_eq!(cache.computed_count(), 1);
    let second = cache.get(key, &source).unwrap();
    assert_eq!(cache.computed_count(), 1);
    assert_eq!(first.pixels, second.pixels);
}

#[test]
fn cache_distinguishes_algorithms_with_equal_parameters() {
    let source = img(2, 1, vec![px(100, 100, 100), px(100, 100, 100)]);
    let mut cache = ProcessedImagesCache::new(4);
    let avg = cache.get(dithering_key(Algorithm::AverageDithering, 2), &source).unwrap();
    let diff = cache.get(dithering_key(Algorithm::ErrorDiffusionDithering, 2), &source).unwrap();
    assert_eq!(cache.computed_count(), 2);
    assert_eq!(cache.len(), 2);
    // Average sends both mid-gray pixels down; error diffusion pushes the
    // second one up.
    assert_eq!(avg.pixels, vec![px(0, 0, 0), px(0, 0, 0)]);
    assert_eq!(diff.pixels, vec![px(0, 0, 0), px(255, 255, 255)]);
}

#[test]
fn cache_evicts_the_least_recently_used_key() {
    let source = img(2, 1, vec![px(10, 10, 10), px(200, 200, 200)]);
    let mut cache = ProcessedImagesCache::new(2);
    let a = dithering_key(Algorithm::AverageDithering, 2);
    let b = dithering_key(Algorithm::AverageDithering, 3);
    let c = dithering_key(Algorithm::AverageDithering, 4);

    cache.get(a, &source).unwrap();
    cache.get(b, &source).unwrap();
    assert_eq!(cache.computed_count(), 2);
    // Touch `a` so that `b` is the least recently used, then overflow.
    cache.get(a, &source).unwrap();
    assert_eq!(cache.computed_count(), 2);
    cache.get(c, &source).unwrap();
    assert_eq!(cache.computed_count(), 3);
    assert_eq!(cache.len(), 2);
    // `a` survived; `b` was evicted and must be recomputed.
    cache.get(a, &source).unwrap();
    assert_eq!(cache.computed_count(), 3);
    cache.get(b, &source).unwrap();
    assert_eq!(cache.computed_count(), 4);
}

#[test]
fn clear_forces_recomputation() {
    let source = img(1, 1, vec![px(40, 40, 40)]);
    let mut cache = ProcessedImagesCache::new(4);
    let key = dithering_key(Algorithm::AverageDithering, 2);
    cache.get(key, &source).unwrap();
    cache.get(key, &source).unwrap();
    assert_eq!(cache.computed_count(), 1);
    cache.clear();
    assert_eq!(cache.len(), 0);
    cache.get(key, &source).unwrap();
    assert_eq!(cache.computed_count(), 2);
}

#[test]
fn invalidate_clears_only_on_a_changed_image() {
    let source = img(1, 1, vec![px(40, 40, 40)]);
    let mut cache = ProcessedImagesCache::new(4);
    let key = dithering_key(Algorithm::AverageDithering, 2);
    cache.get(key, &source).unwrap();
    cache.invalidate(false);
    assert_eq!(cache.len(), 1);
    cache.invalidate(true);
    assert_eq!(cache.len(), 0);
}

#[test]
fn quantized_image_is_the_facade_over_the_cache() {
    let source = img(2, 2, vec![px(0, 0, 0), px(255, 255, 255), px(128, 128, 128), px(64, 64, 64)]);
    let mut cache = ProcessedImagesCache::new(4);
    let out = cache
        .quantized_image(
            Algorithm::AverageDithering,
            AlgorithmParameters::Dithering(k3(2)),
            &source,
        )
        .unwrap();
    assert_eq!(out.pixels, vec![px(0, 0, 0), px(255, 255, 255), px(255, 255, 255), px(0, 0, 0)]);
    assert_eq!(cache.computed_count(), 1);
    let popularity = cache
        .quantized_image(
            Algorithm::PopularityAlgorithm,
            AlgorithmParameters::Popularity(PopularityParameters { k: 2 }),
            &source,
        )
        .unwrap();
    assert_eq!(popularity.pixels.len(), 4);
    assert_eq!(cache.computed_count(), 2);
}

#[test]
fn cache_get_on_an_empty_image_fails_for_popularity_only() {
    let source = img(0, 0, Vec::new());
    let mut cache = ProcessedImagesCache::new(2);
    let pop = AlgorithmCacheKey {
        algorithm: Algorithm::PopularityAlgorithm,
        params: AlgorithmParameters::Popularity(PopularityParameters { k: 2 }),
    };
    assert_eq!(cache.get(pop, &source).unwrap_err(), QuantizeError::EmptyPalette);
    assert_eq!(cache.computed_count(), 0);
    let avg = dithering_key(Algorithm::AverageDithering, 2);
    let out = cache.get(avg, &source).unwrap();
    assert_eq!(out.pixels.len(), 0);
    assert_eq!(cache.computed_count(), 1);
}

#[test]
fn random_ordered_dithering_result_is_frozen_by_the_cache() {
    // Random ordered dithering may differ between runs, but a cached result
    // is returned unchanged on every hit.
    let pixels: Vec<Rgba> = (0..64u32).map(|i| px((i * 4) as u8, 90, 160)).collect();
    let source = img(8, 8, pixels);
    let mut cache = ProcessedImagesCache::new(2);
    let key = dithering_key(Algorithm::OrderedDitheringRandom, 2);
    let first = cache.get(key, &source).unwrap();
    let second = cache.get(key, &source).unwrap();
    assert_eq!(first.pixels, second.pixels);
    assert_eq!(cache.computed_count(), 1);
}
