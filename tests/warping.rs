use dtw_pairwise::warping_distance;

fn dtw(a: &[f32], b: &[f32]) -> Option<f32> {
    let cell = |i: usize, j: usize, up: Option<f32>, left: Option<f32>, diag: Option<f32>| {
        let best = [up, left, diag].into_iter().flatten().reduce(f32::min)?;
        Some((a[i - 1] - b[j - 1]).abs() + best)
    };
    warping_distance(a.len(), b.len(), 0.0f32, &cell)
}

#[test]
fn known_alignment_costs_one() {
    assert_eq!(dtw(&[1.0, 2.0, 3.0], &[2.0, 2.0, 2.0, 3.0]), Some(1.0));
}

#[test]
fn single_point_aligns_with_every_point() {
    assert_eq!(dtw(&[5.0], &[5.0, 9.0]), Some(4.0));
}

#[test]
fn distance_is_symmetric_on_examples() {
    let a = [0.5f32, -2.0, 7.25, 3.0];
    let b = [1.0f32, 1.5, -4.0];
    assert_eq!(dtw(&a, &b), dtw(&b, &a));
    assert_eq!(dtw(&[5.0], &[5.0, 9.0]), dtw(&[5.0, 9.0], &[5.0]));
}

#[test]
fn distance_to_itself_is_zero() {
    assert_eq!(dtw(&[3.0, -1.0, 8.5, 8.5], &[3.0, -1.0, 8.5, 8.5]), Some(0.0));
    assert_eq!(dtw(&[2.0, 2.0], &[2.0, 2.0]), Some(0.0));
}

#[test]
fn distance_is_never_negative() {
    let d = dtw(&[-3.0, -1.0], &[4.0, -9.0, 0.0]).unwrap();
    assert!(d >= 0.0);
    assert_eq!(d, 14.0);
}

#[test]
fn two_empty_sequences_are_at_the_origin() {
    assert_eq!(dtw(&[], &[]), Some(0.0));
}

#[test]
fn empty_against_non_empty_is_unreachable() {
    assert_eq!(dtw(&[], &[1.0]), None);
    assert_eq!(dtw(&[1.0, 2.0], &[]), None);
}

#[test]
fn cell_sees_its_index_and_predecessors() {
    // Counts the monotone lattice paths from the origin: D[i][j] is the sum
    // of its three predecessors.
    let cell = |_i: usize, _j: usize, up: Option<u64>, left: Option<u64>, diag: Option<u64>| {
        Some(up.unwrap_or(0) + left.unwrap_or(0) + diag.unwrap_or(0))
    };
    assert_eq!(warping_distance(2, 2, 1u64, &cell), Some(3));
    assert_eq!(warping_distance(1, 3, 1u64, &cell), Some(1));
    assert_eq!(warping_distance(0, 0, 7u64, &cell), Some(7));
    assert_eq!(warping_distance(0, 3, 7u64, &cell), None);
}
