use bubble_lib::analysis::{local_maxima, threshold};

fn grid(rows: &[&[f32]]) -> Vec<Vec<u32>> {
    rows.iter().map(|r| r.iter().map(|v| v.to_bits()).collect()).collect()
}

#[test]
fn single_peak_in_the_middle() {
    let s = grid(&[&[0., 1., 0.], &[1., 5., 1.], &[0., 1., 0.]]);
    assert_eq!(local_maxima(&s), vec![(1, 1)]);
}

#[test]
fn peaks_are_listed_row_by_row() {
    let s = grid(&[
        &[0., 0., 0., 0., 0.],
        &[0., 3., 0., 4., 0.],
        &[0., 0., 0., 0., 0.],
        &[0., 2., 0., 0., 0.],
        &[0., 0., 0., 0., 0.],
    ]);
    assert_eq!(local_maxima(&s), vec![(1, 1), (1, 3), (3, 1)]);
}

#[test]
fn border_cells_and_ties_are_not_peaks() {
    // The 9s stand on the border; the 5s tie with each other.
    let s = grid(&[&[9., 0., 0., 0.], &[0., 5., 5., 0.], &[0., 0., 0., 9.]]);
    assert_eq!(local_maxima(&s), Vec::<(usize, usize)>::new());
}

#[test]
fn negative_values_and_nan_compare_as_floats() {
    let s = grid(&[&[-3., -3., -3.], &[-3., -1., -3.], &[-3., f32::NAN, -3.]]);
    // NaN is not less than -1, so (1, 1) is no peak.
    assert_eq!(local_maxima(&s), Vec::<(usize, usize)>::new());
    let s = grid(&[&[-3., -3., -3.], &[-3., -1., -3.], &[-3., -2., -3.]]);
    assert_eq!(local_maxima(&s), vec![(1, 1)]);
}

#[test]
fn grids_without_interior_have_no_peaks() {
    assert_eq!(local_maxima(&grid(&[&[1., 2., 1.]])), vec![]);
    assert_eq!(local_maxima(&grid(&[&[1., 2.], &[3., 4.]])), vec![]);
    assert_eq!(local_maxima(&grid(&[&[], &[]])), vec![]);
}

#[test]
fn threshold_zeroes_values_below_the_minimum() {
    let mut s = grid(&[&[50., 100., 150.], &[99.9, -1., 100.5]]);
    threshold(&mut s, 100.0f32.to_bits());
    assert_eq!(s, grid(&[&[0., 100., 150.], &[0., 0., 100.5]]));
}

#[test]
fn threshold_keeps_nan_and_zeroes_nothing_with_a_negative_minimum() {
    let mut s = grid(&[&[f32::NAN, 0.5, 3.0]]);
    threshold(&mut s, (-1.0f32).to_bits());
    assert_eq!(s[0][1], 0.5f32.to_bits());
    assert_eq!(s[0][2], 3.0f32.to_bits());
    assert!(f32::from_bits(s[0][0]).is_nan());
    threshold(&mut s, f32::NAN.to_bits());
    assert_eq!(s[0][1], 0.5f32.to_bits());
}

#[test]
fn threshold_then_peaks() {
    let mut s = grid(&[&[0., 0., 0., 0.], &[0., 80., 0., 0.], &[0., 0., 120., 0.], &[0., 0., 0., 0.]]);
    threshold(&mut s, 100.0f32.to_bits());
    assert_eq!(local_maxima(&s), vec![(2, 2)]);
}
