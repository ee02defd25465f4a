use bubble_lib::mean_shift_clustering::{remove_duplicates, strongest_per_group};

fn p(a: f32, b: f32) -> (u32, u32) {
    (a.to_bits(), b.to_bits())
}

#[test]
fn remove_duplicates_keeps_first_occurrences_in_order() {
    let pts = vec![p(1., 2.), p(3., 4.), p(1., 2.), p(5., 6.), p(3., 4.)];
    assert_eq!(remove_duplicates(&pts), vec![p(1., 2.), p(3., 4.), p(5., 6.)]);
}

#[test]
fn remove_duplicates_compares_coordinates_as_floats() {
    // -0.0 == 0.0, so the second point repeats the first; NaN never repeats.
    let pts = vec![p(0., 1.), p(-0., 1.), p(f32::NAN, 1.), p(f32::NAN, 1.)];
    let out = remove_duplicates(&pts);
    assert_eq!(out.len(), 3);
    assert_eq!(out[0], p(0., 1.));
    assert!(f32::from_bits(out[1].0).is_nan());
    assert!(f32::from_bits(out[2].0).is_nan());
}

#[test]
fn remove_duplicates_of_nothing_is_nothing() {
    assert_eq!(remove_duplicates(&vec![]), vec![]);
}

#[test]
fn strongest_point_stands_for_each_group() {
    // Two groups, (1, 1) and (4, 7); strengths decide the representative.
    let shifted = vec![
        (p(1., 1.), 1.0f32.to_bits()),
        (p(1., 1.), 2.0f32.to_bits()),
        (p(4., 7.), 2.0f32.to_bits()),
        (p(4., 7.), 1.0f32.to_bits()),
        (p(4., 7.), 1.0f32.to_bits()),
        (p(1., 1.), 1.0f32.to_bits()),
    ];
    assert_eq!(strongest_per_group(&shifted), vec![1, 2]);
}

#[test]
fn equal_strength_keeps_the_earlier_point() {
    let shifted = vec![(p(2., 2.), 5.0f32.to_bits()), (p(2., 2.), 5.0f32.to_bits())];
    assert_eq!(strongest_per_group(&shifted), vec![0]);
}

#[test]
fn points_shifted_to_nan_stand_alone() {
    let shifted = vec![
        (p(f32::NAN, 0.), 1.0f32.to_bits()),
        (p(f32::NAN, 0.), 9.0f32.to_bits()),
        (p(0., 0.), 1.0f32.to_bits()),
        (p(-0., 0.), 3.0f32.to_bits()),
    ];
    assert_eq!(strongest_per_group(&shifted), vec![0, 1, 3]);
}
