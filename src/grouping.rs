use vstd::prelude::*;

use crate::error::SchemaError;

verus! {

/// A row that holds both its identifier and its value.
pub open spec fn row_is_complete<V>(row: (Option<String>, Option<V>)) -> bool {
    row.0 is Some && row.1 is Some
}

/// The values of the complete rows whose identifier is `id`, in row order.
pub open spec fn values_for<V>(rows: Seq<(Option<String>, Option<V>)>, id: Seq<char>) -> Seq<V>
    decreases rows.len(),
{
    if rows.len() == 0 {
        Seq::empty()
    } else {
        let earlier = values_for(rows.drop_last(), id);
        match rows.last() {
            (Some(s), Some(v)) => if s@ == id {
                earlier.push(v)
            } else {
                earlier
            },
            _ => earlier,
        }
    }
}

/// Row `i` is the first row that lacks its identifier or its value.
pub open spec fn first_incomplete_row<V>(rows: Seq<(Option<String>, Option<V>)>, i: int) -> bool {
    &&& 0 <= i < rows.len()
    &&& !row_is_complete(rows[i])
    &&& forall|j: int| 0 <= j < i ==> row_is_complete(#[trigger] rows[j])
}

/// No identifier occurs twice among the groups.
pub open spec fn group_ids_unique<V>(groups: Seq<(String, Vec<V>)>) -> bool {
    forall|a: int, b: int| 0 <= a < b < groups.len() ==> groups[a].0@ != groups[b].0@
}

/// `groups` holds one entry per identifier of `rows`, and each entry holds the
/// values of that identifier's rows in their order.
pub open spec fn is_grouping_of<V>(
    groups: Seq<(String, Vec<V>)>,
    rows: Seq<(Option<String>, Option<V>)>,
) -> bool {
    &&& group_ids_unique(groups)
    &&& forall|k: int|
        0 <= k < groups.len() ==> {
            &&& (#[trigger] groups[k]).1@ == values_for(rows, groups[k].0@)
            &&& groups[k].1@.len() > 0
        }
    &&& forall|r: int|
        #![trigger rows[r]]
        0 <= r < rows.len() ==> exists|k: int|
            0 <= k < groups.len() && (#[trigger] groups[k]).0@ == rows[r].0.unwrap()@
}

/// The error that reports the first incomplete row of `rows`.
pub open spec fn reports_first_incomplete_row<V>(
    rows: Seq<(Option<String>, Option<V>)>,
    e: SchemaError,
) -> bool {
    match e {
        SchemaError::NullIdentifier { row } => first_incomplete_row(rows, row as int)
            && rows[row as int].0 is None,
        SchemaError::NullValue { row, id } => first_incomplete_row(rows, row as int)
            && rows[row as int].0 == Some(id),
    }
}

/// Groups observation rows `(identifier, value)` into one sequence per
/// distinct identifier, keeping the rows' order within each sequence.
/// Identifiers come out in the order of their first row. A row without its
/// identifier or its value fails the whole grouping, reported at the first
/// such row.
pub fn group_observations<V: Copy>(rows: &Vec<(Option<String>, Option<V>)>) -> (res: Result<
    Vec<(String, Vec<V>)>,
    SchemaError,
>)
    ensures
        res is Ok <==> forall|i: int| 0 <= i < rows@.len() ==> row_is_complete(#[trigger] rows@[i]),
        res matches Ok(groups) ==> is_grouping_of(groups@, rows@),
        res matches Err(e) ==> reports_first_incomplete_row(rows@, e),
{
    let mut groups: Vec<(String, Vec<V>)> = Vec::new();
    for i in 0..rows.len()
        invariant
            forall|j: int| 0 <= j < i ==> row_is_complete(#[trigger] rows@[j]),
            is_grouping_of(groups@, rows@.subrange(0, i as int)),
    {
        let ghost before = rows@.subrange(0, i as int);
        let ghost after = rows@.subrange(0, i + 1);
        assert(after.drop_last() == before);
        match &rows[i] {
            (Some(id), Some(v)) => {
                let mut k: usize = 0;
                let mut found = false;
                while k < groups.len()
                    invariant_except_break
                        !found,
                    invariant
                        k <= groups.len(),
                        forall|a: int| 0 <= a < k ==> (#[trigger] groups@[a]).0@ != id@,
                    ensures
                        found ==> k < groups.len() && groups@[k as int].0@ == id@,
                        !found ==> k == groups.len(),
                        forall|a: int| 0 <= a < k ==> (#[trigger] groups@[a]).0@ != id@,
                    decreases groups.len() - k,
                {
                    if groups[k].0 == *id {
                        found = true;
                        break;
                    }
                    k = k + 1;
                }
                let ghost old_groups = groups@;
                if found {
                    groups[k].1.push(*v);
                    proof {
                        assert forall|a: int| 0 <= a < groups@.len() implies (#[trigger] groups@[a]).0
                            == old_groups[a].0 by {}
                        assert forall|a: int| 0 <= a < groups@.len() implies (#[trigger] groups@[a]).1@
                            == values_for(after, groups@[a].0@) by {
                            assert(after.last() == rows@[i as int]);
                            if a != k {
                                assert(groups@[a] == old_groups[a]);
                            }
                        }
                        assert forall|r: int| #![trigger after[r]] 0 <= r < after.len() implies exists|b: int|
                            0 <= b < groups@.len() && (#[trigger] groups@[b]).0@
                                == after[r].0.unwrap()@ by {
                            if r < i {
                                assert(before[r] == after[r]);
                                let b = choose|b: int|
                                    0 <= b < old_groups.len() && (#[trigger] old_groups[b]).0@
                                        == before[r].0.unwrap()@;
                                assert(groups@[b].0@ == after[r].0.unwrap()@);
                            } else {
                                assert(groups@[k as int].0@ == after[r].0.unwrap()@);
                            }
                        }
                    }
                } else {
                    groups.push((id.clone(), vec![*v]));
                    proof {
                        assert(values_for(before, id@).len() == 0) by {
                            if values_for(before, id@).len() > 0 {
                                lemma_values_for_has_row(before, id@);
                                let r = choose|r: int|
                                    0 <= r < before.len() && (#[trigger] before[r]).0 is Some
                                        && before[r].0.unwrap()@ == id@;
                                let b = choose|b: int|
                                    0 <= b < old_groups.len() && (#[trigger] old_groups[b]).0@
                                        == before[r].0.unwrap()@;
                            }
                        }
                        assert(values_for(after, id@) =~= seq![*v]);
                        assert forall|a: int| 0 <= a < groups@.len() implies (#[trigger] groups@[a]).1@
                            == values_for(after, groups@[a].0@) by {
                            assert(after.last() == rows@[i as int]);
                            if a < old_groups.len() {
                                assert(groups@[a] == old_groups[a]);
                            }
                        }
                        assert forall|r: int| #![trigger after[r]] 0 <= r < after.len() implies exists|b: int|
                            0 <= b < groups@.len() && (#[trigger] groups@[b]).0@
                                == after[r].0.unwrap()@ by {
                            if r < i {
                                assert(before[r] == after[r]);
                                let b = choose|b: int|
                                    0 <= b < old_groups.len() && (#[trigger] old_groups[b]).0@
                                        == before[r].0.unwrap()@;
                                assert(groups@[b] == old_groups[b]);
                            } else {
                                assert(groups@[old_groups.len() as int].0@ == after[r].0.unwrap()@);
                            }
                        }
                    }
                }
            },
            (None, _) => {
                return Err(SchemaError::NullIdentifier { row: i });
            },
            (Some(id), None) => {
                return Err(SchemaError::NullValue { row: i, id: id.clone() });
            },
        }
    }
    assert(rows@.subrange(0, rows@.len() as int) == rows@);
    Ok(groups)
}

/// A sequence of values for `id` is non-empty only if some row carries `id`.
proof fn lemma_values_for_has_row<V>(rows: Seq<(Option<String>, Option<V>)>, id: Seq<char>)
    requires
        values_for(rows, id).len() > 0,
    ensures
        exists|r: int|
            0 <= r < rows.len() && (#[trigger] rows[r]).0 is Some && rows[r].0.unwrap()@ == id,
    decreases rows.len(),
{
    let earlier = values_for(rows.drop_last(), id);
    if earlier.len() > 0 {
        lemma_values_for_has_row(rows.drop_last(), id);
        let r = choose|r: int|
            0 <= r < rows.drop_last().len() && (#[trigger] rows.drop_last()[r]).0 is Some
                && rows.drop_last()[r].0.unwrap()@ == id;
        assert(rows[r] == rows.drop_last()[r]);
    } else {
        assert(rows[rows.len() - 1] == rows.last());
    }
}

} // verus!
