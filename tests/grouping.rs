use dtw_pairwise::{group_observations, SchemaError};

fn row(id: &str, y: f32) -> (Option<String>, Option<f32>) {
    (Some(id.to_string()), Some(y))
}

#[test]
fn groups_rows_by_identifier_in_order() {
    let rows = vec![row("A", 1.0), row("A", 2.0), row("B", 5.0)];
    let groups = group_observations(&rows).unwrap();
    assert_eq!(
        groups,
        vec![("A".to_string(), vec![1.0f32, 2.0]), ("B".to_string(), vec![5.0f32])]
    );
}

#[test]
fn interleaved_rows_keep_their_order_within_a_group() {
    let rows = vec![row("x", 3.0), row("y", 1.0), row("x", -1.0), row("y", 4.0), row("x", 3.0)];
    let groups = group_observations(&rows).unwrap();
    assert_eq!(
        groups,
        vec![("x".to_string(), vec![3.0f32, -1.0, 3.0]), ("y".to_string(), vec![1.0f32, 4.0])]
    );
}

#[test]
fn no_rows_give_no_groups() {
    let rows: Vec<(Option<String>, Option<f32>)> = vec![];
    assert_eq!(group_observations(&rows).unwrap(), vec![]);
}

#[test]
fn missing_identifier_is_reported_at_its_row() {
    let rows = vec![row("A", 1.0), (None, Some(2.0f32)), (Some("B".to_string()), None)];
    assert_eq!(group_observations(&rows), Err(SchemaError::NullIdentifier { row: 1 }));
}

#[test]
fn missing_value_is_reported_with_its_identifier() {
    let rows = vec![row("A", 1.0), (Some("B".to_string()), None), (None, Some(2.0f32))];
    assert_eq!(
        group_observations(&rows),
        Err(SchemaError::NullValue { row: 1, id: "B".to_string() })
    );
}

#[test]
fn same_identifier_never_yields_two_groups() {
    let rows = vec![row("k", 1.0), row("k", 1.0), row("k", 1.0)];
    let groups = group_observations(&rows).unwrap();
    assert_eq!(groups.len(), 1);
    assert_eq!(groups[0].1.len(), 3);
}
