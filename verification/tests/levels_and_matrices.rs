use color_quantizer::algorithms::{Algorithm, AlgorithmType, QuantizeError};
use color_quantizer::levels::LevelTable;
use color_quantizer::threshold::ThresholdMatrix;

#[test]
fn level_table_k2_is_black_and_white() {
    let t = LevelTable::build(2);
    assert_eq!(t.levels, vec![0u8, 255u8]);
}

#[test]
fn level_table_k3_has_midpoint() {
    let t = LevelTable::build(3);
    assert_eq!(t.levels, vec![0u8, 128u8, 255u8]);
}

#[test]
fn level_table_k4_is_evenly_spaced() {
    let t = LevelTable::build(4);
    assert_eq!(t.levels, vec![0u8, 85u8, 170u8, 255u8]);
}

#[test]
fn level_tables_are_strictly_increasing_from_zero_to_255() {
    for k in 2..=255u16 {
        let t = LevelTable::build(k as u8);
        assert_eq!(t.levels.len(), k as usize);
        assert_eq!(t.levels[0], 0);
        assert_eq!(t.levels[k as usize - 1], 255);
        for i in 1..t.levels.len() {
            assert!(t.levels[i - 1] < t.levels[i]);
        }
        for i in 0..t.levels.len() {
            let exact = (i as f64) * 255.0 / (k as f64 - 1.0);
            assert_eq!(t.levels[i], exact.round() as u8);
        }
    }
}

#[test]
fn nearest_matches_brute_force_minimum() {
    for k in [2u8, 3, 5, 17, 255] {
        let t = LevelTable::build(k);
        for v in 0..=255u8 {
            let r = t.nearest(v);
            assert!(t.levels.contains(&r));
            let d = |l: u8| (v as i32 - l as i32).abs();
            for &l in &t.levels {
                assert!(d(r) <= d(l));
                if d(l) == d(r) {
                    assert!(r <= l);
                }
            }
        }
    }
}

#[test]
fn nearest_resolves_ties_toward_the_lower_level() {
    // With levels [0, 128, 255], the value 64 is 64 away from both 0 and 128.
    let t = LevelTable::build(3);
    assert_eq!(t.nearest(64), 0);
    // 192 is 64 away from 128 and 63 away from 255.
    assert_eq!(t.nearest(192), 255);
}

#[test]
fn nearest_clamps_at_the_ends() {
    let t = LevelTable::build(2);
    assert_eq!(t.nearest(0), 0);
    assert_eq!(t.nearest(127), 0);
    assert_eq!(t.nearest(128), 255);
    assert_eq!(t.nearest(255), 255);
}

#[test]
fn threshold_matrix_base_cases_are_the_hand_specified_tables() {
    let m2 = ThresholdMatrix::generate(2);
    assert_eq!(m2.rows, vec![vec![0u32, 2], vec![3, 1]]);
    let m3 = ThresholdMatrix::generate(3);
    assert_eq!(m3.rows, vec![vec![6u32, 8, 4], vec![1, 0, 3], vec![5, 2, 7]]);
}

#[test]
fn threshold_matrix_is_a_permutation_for_every_supported_size() {
    for n in [2usize, 3, 4, 6, 8, 12, 16] {
        let m = ThresholdMatrix::generate(n as u8);
        assert_eq!(m.rows.len(), n);
        let mut seen: Vec<u32> = Vec::new();
        for row in &m.rows {
            assert_eq!(row.len(), n);
            seen.extend_from_slice(row);
        }
        seen.sort();
        let expected: Vec<u32> = (0..(n * n) as u32).collect();
        assert_eq!(seen, expected);
    }
}

#[test]
fn matrix_size_is_the_smallest_that_covers_the_gaps() {
    // n * n * (k - 1) >= 256, over the candidate sizes 2, 3, 4, 6, 8, 12, 16.
    assert_eq!(ThresholdMatrix::find_matrix_size(2), 16);
    assert_eq!(ThresholdMatrix::find_matrix_size(3), 12);
    assert_eq!(ThresholdMatrix::find_matrix_size(5), 8);
    assert_eq!(ThresholdMatrix::find_matrix_size(8), 8);
    assert_eq!(ThresholdMatrix::find_matrix_size(9), 6);
    assert_eq!(ThresholdMatrix::find_matrix_size(17), 4);
    assert_eq!(ThresholdMatrix::find_matrix_size(29), 4);
    assert_eq!(ThresholdMatrix::find_matrix_size(30), 3);
    assert_eq!(ThresholdMatrix::find_matrix_size(65), 2);
    assert_eq!(ThresholdMatrix::find_matrix_size(255), 2);
}

#[test]
fn algorithms_enumerate_and_name_themselves() {
    let all = Algorithm::all();
    assert_eq!(all.len(), 5);
    assert_eq!(all[0].display_name(), "Average Dithering");
    assert_eq!(all[1].display_name(), "Error Diffusion Dithering");
    assert_eq!(all[2].display_name(), "Ordered Dithering Random");
    assert_eq!(all[3].display_name(), "Ordered Dithering Relative");
    assert_eq!(all[4].display_name(), "Popularity Algorithm");
}

#[test]
fn algorithm_families_split_dithering_from_popularity() {
    assert!(matches!(AlgorithmType::from(Algorithm::AverageDithering), AlgorithmType::Dithering));
    assert!(matches!(
        AlgorithmType::from(Algorithm::ErrorDiffusionDithering),
        AlgorithmType::Dithering
    ));
    assert!(matches!(
        AlgorithmType::from(Algorithm::OrderedDitheringRandom),
        AlgorithmType::Dithering
    ));
    assert!(matches!(
        AlgorithmType::from(Algorithm::OrderedDitheringRelative),
        AlgorithmType::Dithering
    ));
    assert!(matches!(
        AlgorithmType::from(Algorithm::PopularityAlgorithm),
        AlgorithmType::Popularity
    ));
}

#[test]
fn quantize_error_describes_itself() {
    assert_eq!(QuantizeError::EmptyPalette.message(), "empty palette: the image has no pixels");
}
