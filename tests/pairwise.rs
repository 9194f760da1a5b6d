use dtw_pairwise::{distance_row, pairwise_distances, ComputationError};

fn series(id: &str, values: &[i64]) -> (String, Vec<i64>) {
    (id.to_string(), values.to_vec())
}

fn total(a: &Vec<i64>, b: &Vec<i64>) -> i64 {
    a.iter().sum::<i64>() * 10 + b.iter().sum::<i64>()
}

#[test]
fn every_pair_appears_once_in_row_major_order() {
    let left = vec![series("a", &[1]), series("b", &[2, 3])];
    let right = vec![series("x", &[4]), series("y", &[5]), series("z", &[6, 1])];
    let out = pairwise_distances(&left, &right, &total).unwrap();
    let expected: Vec<(String, String, i64)> = vec![
        ("a", "x", 14),
        ("a", "y", 15),
        ("a", "z", 17),
        ("b", "x", 54),
        ("b", "y", 55),
        ("b", "z", 57),
    ]
    .into_iter()
    .map(|(l, r, d)| (l.to_string(), r.to_string(), d))
    .collect();
    assert_eq!(out, expected);
}

#[test]
fn same_identifier_on_both_sides_is_an_ordinary_pair() {
    let left = vec![series("s", &[1])];
    let right = vec![series("s", &[2]), series("t", &[3])];
    let out = pairwise_distances(&left, &right, &total).unwrap();
    assert_eq!(out.len(), 2);
    assert_eq!(out[0], ("s".to_string(), "s".to_string(), 12));
}

#[test]
fn an_empty_side_gives_no_triples() {
    let left = vec![series("a", &[1]), series("b", &[2])];
    let right: Vec<(String, Vec<i64>)> = vec![];
    assert_eq!(pairwise_distances(&left, &right, &total).unwrap(), vec![]);
    assert_eq!(pairwise_distances(&right, &left, &total).unwrap(), vec![]);
}

#[test]
fn two_empty_series_are_pairable() {
    let left = vec![series("e", &[])];
    let right = vec![series("f", &[])];
    let out = pairwise_distances(&left, &right, &total).unwrap();
    assert_eq!(out, vec![("e".to_string(), "f".to_string(), 0)]);
}

#[test]
fn empty_against_non_empty_names_the_first_such_pair() {
    let left = vec![series("a", &[1]), series("b", &[]), series("c", &[])];
    let right = vec![series("x", &[]), series("y", &[2])];
    assert_eq!(
        pairwise_distances(&left, &right, &total),
        Err(ComputationError { id_1: "a".to_string(), id_2: "x".to_string() })
    );
    let left = vec![series("a", &[]), series("b", &[1])];
    let right = vec![series("x", &[]), series("y", &[2])];
    assert_eq!(
        pairwise_distances(&left, &right, &total),
        Err(ComputationError { id_1: "a".to_string(), id_2: "y".to_string() })
    );
}

#[test]
fn one_row_holds_the_distances_to_every_right_series() {
    let right = vec![series("x", &[4]), series("y", &[5])];
    let row = distance_row(&series("a", &[1, 1]), &right, &total).unwrap();
    assert_eq!(
        row,
        vec![
            ("a".to_string(), "x".to_string(), 24),
            ("a".to_string(), "y".to_string(), 25)
        ]
    );
    assert_eq!(
        distance_row(&series("a", &[]), &right, &total),
        Err(ComputationError { id_1: "a".to_string(), id_2: "x".to_string() })
    );
}
