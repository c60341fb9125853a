use heatmap_processing::matrix::HeatmapMatrix;
use heatmap_processing::normalization::{normalize_heatmap, Normalization};
use heatmap_processing::stats::percentile_bounds;

const UNIT: i32 = 65536;

fn matrix_of(rows: usize, cols: usize, values: &[f32]) -> HeatmapMatrix {
    HeatmapMatrix::from_vec(rows, cols, values.iter().map(|v| v.to_bits() as i32).collect())
        .unwrap()
}

fn sample(x: f64) -> i32 {
    (x * 65536.0) as i32
}

#[test]
fn minmax_maps_the_range_onto_the_unit_interval() {
    let m = matrix_of(2, 2, &[1.0, 2.0, 3.0, 4.0]);
    let n = normalize_heatmap(&m, &Normalization::MinMax);
    assert_eq!(n.nrows(), 2);
    assert_eq!(n.ncols(), 2);
    assert_eq!(n.samples(), vec![0, 21845, 43690, 65536]);
}

#[test]
fn minmax_output_has_minimum_zero_and_maximum_one() {
    let m = matrix_of(1, 5, &[-700.5, 13.0, 99999.0, 5.0e-20, -3.0]);
    let n = normalize_heatmap(&m, &Normalization::MinMax).samples();
    assert_eq!(*n.iter().min().unwrap(), 0);
    assert_eq!(*n.iter().max().unwrap(), UNIT);
    assert_eq!(n[0], 0);
    assert_eq!(n[2], UNIT);
}

#[test]
fn minmax_tells_large_numbers_apart() {
    let m = matrix_of(1, 3, &[40000.0, 60000.0, 50000.0]);
    let n = normalize_heatmap(&m, &Normalization::MinMax);
    assert_eq!(n.samples(), vec![0, 65536, 32768]);
    let m = matrix_of(1, 3, &[1.0e30, 3.0e30, 2.0e30]);
    let n = normalize_heatmap(&m, &Normalization::MinMax).samples();
    assert_eq!(n[0], 0);
    assert_eq!(n[1], 65536);
    assert!((n[2] - 32768).abs() <= 1);
}

#[test]
fn minmax_tells_close_numbers_apart() {
    let m = matrix_of(1, 3, &[1.0e-30, 3.0e-30, 2.0e-30]);
    let n = normalize_heatmap(&m, &Normalization::MinMax).samples();
    assert_eq!(n[0], 0);
    assert_eq!(n[1], 65536);
    assert!((n[2] - 32768).abs() <= 1);
    let m = matrix_of(1, 2, &[1.0, 1.0000001]);
    assert_eq!(normalize_heatmap(&m, &Normalization::MinMax).samples(), vec![0, 65536]);
}

#[test]
fn minmax_leaves_a_constant_matrix_as_it_is() {
    let m = matrix_of(1, 3, &[5.0, 5.0, 5.0]);
    let n = normalize_heatmap(&m, &Normalization::MinMax);
    assert_eq!(n.samples(), vec![5 * UNIT, 5 * UNIT, 5 * UNIT]);
    let m = matrix_of(1, 2, &[0.0, -0.0]);
    assert_eq!(normalize_heatmap(&m, &Normalization::MinMax).samples(), vec![0, 0]);
}

#[test]
fn minmax_works_over_the_whole_matrix_not_row_by_row() {
    let m = matrix_of(2, 2, &[0.0, 10.0, 20.0, 40.0]);
    let n = normalize_heatmap(&m, &Normalization::MinMax);
    assert_eq!(n.samples(), vec![0, 16384, 32768, 65536]);
}

#[test]
fn minmax_agrees_with_the_quotient_of_the_exact_values() {
    let values = [0.1f32, 0.7, -3.25, 8.5, 2.0, 1.0e-3, 6.02e3, -17.0];
    let m = matrix_of(2, 4, &values);
    let n = normalize_heatmap(&m, &Normalization::MinMax).samples();
    let low = -17.0f64;
    let high = 6.02e3f32 as f64;
    for (i, v) in values.iter().enumerate() {
        let expected = sample((*v as f64 - low) / (high - low));
        assert!((n[i] - expected).abs() <= 1, "{} {} {}", i, n[i], expected);
    }
}

#[test]
fn zscore_divides_the_distance_from_the_mean_by_the_deviation() {
    let m = matrix_of(2, 2, &[1.0, 2.0, 3.0, 4.0]);
    let n = normalize_heatmap(&m, &Normalization::ZScore);
    // The mean is 2.5 and the deviation the root of 1.25.
    assert_eq!(n.samples(), vec![-87925, -29308, 29308, 87925]);
}

#[test]
fn zscore_uses_the_exact_mean_and_deviation() {
    let m = matrix_of(1, 2, &[0.0, 1.0 / 65536.0]);
    let n = normalize_heatmap(&m, &Normalization::ZScore);
    assert_eq!(n.samples(), vec![-65536, 65536]);
    let m = matrix_of(1, 2, &[1.0e-40, 3.0e-40]);
    assert_eq!(normalize_heatmap(&m, &Normalization::ZScore).samples(), vec![-65536, 65536]);
    let m = matrix_of(1, 2, &[-1.0e38, 3.0e38]);
    assert_eq!(normalize_heatmap(&m, &Normalization::ZScore).samples(), vec![-65536, 65536]);
    let m = matrix_of(1, 3, &[0.0, 0.0, 1.0]);
    let n = normalize_heatmap(&m, &Normalization::ZScore).samples();
    assert_eq!(n, vec![sample(-0.5f64.sqrt()), sample(-0.5f64.sqrt()), sample(2.0f64.sqrt())]);
}

#[test]
fn zscore_agrees_with_the_standard_score_of_the_exact_values() {
    let values = [0.1f32, 0.7, -3.25, 8.5, 2.0, 1.0e-3, 6.02, -17.0, 4.4, 4.5];
    let m = matrix_of(2, 5, &values);
    let n = normalize_heatmap(&m, &Normalization::ZScore).samples();
    let count = values.len() as f64;
    let mean = values.iter().map(|v| *v as f64).sum::<f64>() / count;
    let variance = values.iter().map(|v| (*v as f64 - mean).powi(2)).sum::<f64>() / count;
    for (i, v) in values.iter().enumerate() {
        let expected = sample((*v as f64 - mean) / variance.sqrt());
        assert!((n[i] - expected).abs() <= 1, "{} {} {}", i, n[i], expected);
    }
}

#[test]
fn zscore_leaves_a_constant_matrix_as_it_is() {
    let m = matrix_of(2, 2, &[7.0, 7.0, 7.0, 7.0]);
    let n = normalize_heatmap(&m, &Normalization::ZScore);
    assert_eq!(n.samples(), vec![7 * UNIT, 7 * UNIT, 7 * UNIT, 7 * UNIT]);
}

#[test]
fn zscore_rescales_however_small_the_deviation_is() {
    let mut values = vec![1000.0f32; 1000];
    values[17] = 1000.0001;
    let m = matrix_of(10, 100, &values);
    let n = normalize_heatmap(&m, &Normalization::ZScore).samples();
    // One cell of a thousand differs: its score is the root of 999.
    assert_eq!(n[17], sample(999.0f64.sqrt()));
    assert_eq!(n[0], sample(-(1.0f64 / 999.0).sqrt()));
}

#[test]
fn zscore_limits_its_result_to_the_sample_range() {
    let mut values = vec![0.0f32; 2_000_000];
    values[0] = 1.0;
    let count = values.len();
    let m = matrix_of(1, count, &values);
    let n = normalize_heatmap(&m, &Normalization::ZScore).samples();
    assert_eq!(n[0], sample(1999999.0f64.sqrt()));
    let mut values = vec![0.0f32; 40_000];
    values[0] = 1.0;
    values.resize(40_000, 0.0);
    let m = matrix_of(200, 200, &values);
    assert!(normalize_heatmap(&m, &Normalization::ZScore).samples()[0] < i32::MAX);
}

#[test]
fn percentile_rescales_between_the_two_percentiles_and_clamps() {
    let values: Vec<f32> = (0..20).map(|i| i as f32).collect();
    let m = matrix_of(4, 5, &values);
    let n = normalize_heatmap(&m, &Normalization::Percentile).samples();
    // The percentiles are the numbers 1 and 19.
    assert_eq!(n[0], 0);
    assert_eq!(n[1], 0);
    assert_eq!(n[10], 32768);
    assert_eq!(n[19], 65536);
    assert_eq!(n[2], 3640);
}

#[test]
fn percentile_orders_negative_numbers_and_fractions_by_value() {
    let values: Vec<f32> = (0..20).map(|i| (i as f32 - 10.0) * 0.25).collect();
    let mut shuffled = values.clone();
    shuffled.reverse();
    shuffled.swap(3, 11);
    let m = matrix_of(2, 10, &shuffled);
    let n = normalize_heatmap(&m, &Normalization::Percentile).samples();
    // The percentiles are -2.25 and 2.25.
    for (i, v) in shuffled.iter().enumerate() {
        let expected = sample(((*v as f64 + 2.25) / 4.5).clamp(0.0, 1.0));
        assert_eq!(n[i], expected);
    }
}

#[test]
fn percentile_output_lies_in_the_unit_interval() {
    let values: Vec<f32> = (0..200).map(|i| ((i * 7919) % 1000) as f32 * 1.5e6 - 5.0e8).collect();
    let m = matrix_of(10, 20, &values);
    let n = normalize_heatmap(&m, &Normalization::Percentile).samples();
    assert!(n.iter().all(|v| 0 <= *v && *v <= UNIT));
    assert!(n.iter().any(|v| *v == 0));
    assert!(n.iter().any(|v| *v == UNIT));
}

#[test]
fn percentile_leaves_a_matrix_with_equal_percentiles_as_it_is() {
    let m = matrix_of(1, 2, &[5.0, 5.0]);
    let n = normalize_heatmap(&m, &Normalization::Percentile);
    assert_eq!(n.samples(), vec![5 * UNIT, 5 * UNIT]);
}

#[test]
fn percentile_of_few_numbers_uses_the_first_and_the_last() {
    let m = matrix_of(2, 2, &[4.0, 1.0, 3.0, 2.0]);
    let n = normalize_heatmap(&m, &Normalization::Percentile);
    assert_eq!(n.samples(), vec![65536, 0, 43690, 21845]);
}

#[test]
fn numbers_that_pass_through_become_their_samples() {
    let m = matrix_of(1, 1, &[0.1]);
    for method in [Normalization::MinMax, Normalization::ZScore, Normalization::Percentile] {
        assert_eq!(normalize_heatmap(&m, &method).samples(), vec![6553]);
    }
    let m = matrix_of(1, 1, &[-40000.0]);
    assert_eq!(normalize_heatmap(&m, &Normalization::MinMax).samples(), vec![i32::MIN]);
}

#[test]
fn empty_matrix_stays_empty_under_every_method() {
    for method in [Normalization::MinMax, Normalization::ZScore, Normalization::Percentile] {
        let m = HeatmapMatrix::from_vec(0, 3, vec![]).unwrap();
        let n = normalize_heatmap(&m, &method);
        assert_eq!(n.nrows(), 0);
        assert_eq!(n.ncols(), 3);
        assert_eq!(n.samples(), Vec::<i32>::new());
    }
}

#[test]
fn normalization_names_are_read_without_regard_to_case() {
    assert_eq!(Normalization::from_str("minmax"), Ok(Normalization::MinMax));
    assert_eq!(Normalization::from_str("ZScore"), Ok(Normalization::ZScore));
    assert_eq!(Normalization::from_str("PERCENTILE"), Ok(Normalization::Percentile));
}

#[test]
fn unknown_normalization_name_is_reported_with_the_accepted_names() {
    assert_eq!(
        Normalization::from_str("log"),
        Err("Unknown normalization: log. Available: minmax, zscore, percentile".to_string())
    );
}

#[test]
fn percentiles_are_taken_from_the_sorted_samples() {
    let values: Vec<i32> = (0..100).rev().collect();
    assert_eq!(percentile_bounds(values), (5, 95));
    assert_eq!(percentile_bounds(vec![9]), (9, 9));
    assert_eq!(percentile_bounds(vec![3, 1, 2]), (1, 3));
    let values: Vec<i32> = (0..21).map(|i| (i * 5) % 21).collect();
    assert_eq!(percentile_bounds(values), (1, 19));
}
