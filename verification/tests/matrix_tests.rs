use heatmap_processing::matrix::HeatmapMatrix;
use heatmap_processing::resize::resize_heatmap;

#[test]
fn matrix_is_made_row_by_row() {
    let m = HeatmapMatrix::from_vec(2, 3, vec![1, 2, 3, 4, 5, 6]).unwrap();
    assert_eq!(m.nrows(), 2);
    assert_eq!(m.ncols(), 3);
    assert_eq!(m.get(0, 0), Some(1));
    assert_eq!(m.get(0, 2), Some(3));
    assert_eq!(m.get(1, 0), Some(4));
    assert_eq!(m.get(1, 2), Some(6));
    assert_eq!(m.get(2, 0), None);
    assert_eq!(m.get(0, 3), None);
    assert_eq!(m.samples(), vec![1, 2, 3, 4, 5, 6]);
}

#[test]
fn matrix_needs_one_sample_per_cell() {
    assert!(HeatmapMatrix::from_vec(2, 3, vec![1, 2, 3, 4, 5]).is_none());
    assert!(HeatmapMatrix::from_vec(2, 3, vec![1, 2, 3, 4, 5, 6, 7]).is_none());
    assert!(HeatmapMatrix::from_vec(0, 0, vec![]).is_some());
    assert!(HeatmapMatrix::from_vec(0, 7, vec![]).is_some());
    assert!(HeatmapMatrix::from_vec(0, usize::MAX, vec![]).is_none());
    assert!(HeatmapMatrix::from_vec(usize::MAX, 2, vec![]).is_none());
}

#[test]
fn resizing_to_the_same_dimensions_keeps_every_cell() {
    let values: Vec<i32> = (0..35).map(|i| i * i - 100).collect();
    let m = HeatmapMatrix::from_vec(5, 7, values.clone()).unwrap();
    let r = resize_heatmap(&m, 7, 5);
    assert_eq!(r.nrows(), 5);
    assert_eq!(r.ncols(), 7);
    assert_eq!(r.samples(), values);
}

#[test]
fn resizing_up_repeats_the_nearest_cell() {
    let m = HeatmapMatrix::from_vec(2, 2, vec![1, 2, 3, 4]).unwrap();
    let r = resize_heatmap(&m, 4, 4);
    assert_eq!(r.samples(), vec![1, 1, 2, 2, 1, 1, 2, 2, 3, 3, 4, 4, 3, 3, 4, 4]);
}

#[test]
fn resizing_down_picks_every_other_cell() {
    let values: Vec<i32> = (0..16).collect();
    let m = HeatmapMatrix::from_vec(4, 4, values).unwrap();
    let r = resize_heatmap(&m, 2, 2);
    assert_eq!(r.samples(), vec![0, 2, 8, 10]);
}

#[test]
fn resizing_takes_width_before_height() {
    let m = HeatmapMatrix::from_vec(1, 2, vec![10, 20]).unwrap();
    let r = resize_heatmap(&m, 3, 2);
    assert_eq!(r.nrows(), 2);
    assert_eq!(r.ncols(), 3);
    // Column 1 of 3 comes from place 1 * 2 / 3 = 0, column 2 from place 1.
    assert_eq!(r.samples(), vec![10, 10, 20, 10, 10, 20]);
}

#[test]
fn resizing_to_no_cells_gives_an_empty_matrix() {
    let m = HeatmapMatrix::from_vec(2, 2, vec![1, 2, 3, 4]).unwrap();
    let r = resize_heatmap(&m, 0, 3);
    assert_eq!(r.nrows(), 3);
    assert_eq!(r.ncols(), 0);
    assert_eq!(r.samples(), Vec::<i32>::new());
}

#[test]
fn matrix_holds_the_bit_patterns_of_its_numbers() {
    let numbers = [0.1f32, -2.5, 40000.0, -0.0, f32::INFINITY, 1.0e-42];
    let bits: Vec<u32> = numbers.iter().map(|x| x.to_bits()).collect();
    let m = HeatmapMatrix::from_bit_patterns(2, 3, bits.clone()).unwrap();
    assert_eq!(m.bit_patterns(), bits);
    assert_eq!(m.get(0, 1), Some((-2.5f32).to_bits() as i32));
    assert!(HeatmapMatrix::from_bit_patterns(2, 2, bits).is_none());
}
