use vstd::prelude::*;
use vstd::arithmetic::div_mod::{
    lemma_fundamental_div_mod,
    lemma_fundamental_div_mod_converse,
    lemma_mod_pos_bound,
};

use crate::error::ComputationError;
use crate::grouping::group_ids_unique;

verus! {

/// Two sequences can be aligned: both are empty, or neither is.
pub open spec fn pairable<V>(a: Seq<V>, b: Seq<V>) -> bool {
    (a.len() == 0) == (b.len() == 0)
}

/// The series `l` can be aligned with every series of `right`.
pub open spec fn row_pairable<V>(l: (String, Vec<V>), right: Seq<(String, Vec<V>)>) -> bool {
    forall|j: int| 0 <= j < right.len() ==> pairable(l.1@, (#[trigger] right[j]).1@)
}

/// Every series of `left` can be aligned with every series of `right`.
pub open spec fn all_pairable<V>(left: Seq<(String, Vec<V>)>, right: Seq<(String, Vec<V>)>) -> bool {
    forall|i: int| 0 <= i < left.len() ==> row_pairable(#[trigger] left[i], right)
}

/// `right[j]` is the first series of `right` that cannot be aligned with `l`.
pub open spec fn first_unpairable_in_row<V>(
    l: (String, Vec<V>),
    right: Seq<(String, Vec<V>)>,
    j: int,
) -> bool {
    &&& 0 <= j < right.len()
    &&& !pairable(l.1@, right[j].1@)
    &&& forall|b: int| 0 <= b < j ==> pairable(l.1@, (#[trigger] right[b]).1@)
}

/// `(left[i], right[j])` is the first pair, in row-major order, that cannot
/// be aligned.
pub open spec fn first_unpairable<V>(
    left: Seq<(String, Vec<V>)>,
    right: Seq<(String, Vec<V>)>,
    i: int,
    j: int,
) -> bool {
    &&& 0 <= i < left.len()
    &&& forall|a: int| 0 <= a < i ==> row_pairable(#[trigger] left[a], right)
    &&& first_unpairable_in_row(left[i], right, j)
}

/// The error that names the pair `(l, r)`.
pub open spec fn names_pair<V>(e: ComputationError, l: (String, Vec<V>), r: (String, Vec<V>)) -> bool {
    e.id_1 == l.0 && e.id_2 == r.0
}

/// `t` is the triple for the pair `(l, r)`: both identifiers, and a distance
/// that `dist` may return for the two sequences.
pub open spec fn is_distance_entry<V, D, F: Fn(&Vec<V>, &Vec<V>) -> D>(
    l: (String, Vec<V>),
    r: (String, Vec<V>),
    t: (String, String, D),
    dist: F,
) -> bool {
    &&& t.0 == l.0
    &&& t.1 == r.0
    &&& dist.ensures((&l.1, &r.1), t.2)
}

/// `out` holds one triple for each pair of a series of `left` with a series
/// of `right`, in row-major order: entry `p` is for `left[p / |right|]` and
/// `right[p % |right|]`.
pub open spec fn is_cross_product<V, D, F: Fn(&Vec<V>, &Vec<V>) -> D>(
    left: Seq<(String, Vec<V>)>,
    right: Seq<(String, Vec<V>)>,
    out: Seq<(String, String, D)>,
    dist: F,
) -> bool {
    &&& out.len() == left.len() * right.len()
    &&& forall|p: int|
        0 <= p < out.len() ==> is_distance_entry(
            left[p / right.len() as int],
            right[p % right.len() as int],
            #[trigger] out[p],
            dist,
        )
}

/// The distances from one series to every series of `right`, in the order of
/// `right`. Fails, naming the pair, at the first series of `right` that
/// cannot be aligned with `l`.
pub fn distance_row<V, D, F: Fn(&Vec<V>, &Vec<V>) -> D>(
    l: &(String, Vec<V>),
    right: &Vec<(String, Vec<V>)>,
    dist: &F,
) -> (res: Result<Vec<(String, String, D)>, ComputationError>)
    requires
        forall|a: &Vec<V>, b: &Vec<V>| pairable(a@, b@) ==> dist.requires((a, b)),
    ensures
        res is Ok <==> row_pairable(*l, right@),
        res matches Ok(row) ==> {
            &&& row@.len() == right@.len()
            &&& forall|j: int|
                0 <= j < right@.len() ==> is_distance_entry(*l, right@[j], #[trigger] row@[j], *dist)
        },
        res matches Err(e) ==> exists|j: int|
            first_unpairable_in_row(*l, right@, j) && names_pair(e, *l, #[trigger] right@[j]),
{
    let mut row: Vec<(String, String, D)> = Vec::new();
    for j in 0..right.len()
        invariant
            forall|a: &Vec<V>, b: &Vec<V>| pairable(a@, b@) ==> dist.requires((a, b)),
            row@.len() == j,
            forall|b: int| 0 <= b < j ==> pairable(l.1@, (#[trigger] right@[b]).1@),
            forall|b: int|
                0 <= b < j ==> is_distance_entry(*l, right@[b], #[trigger] row@[b], *dist),
    {
        let r = &right[j];
        if (l.1.len() == 0) != (r.1.len() == 0) {
            let e = ComputationError { id_1: l.0.clone(), id_2: r.0.clone() };
            assert(first_unpairable_in_row(*l, right@, j as int));
            return Err(e);
        }
        assert(pairable(l.1@, r.1@));
        assert(dist.requires((&l.1, &r.1)));
        let d = dist(&l.1, &r.1);
        row.push((l.0.clone(), r.0.clone(), d));
    }
    Ok(row)
}

/// A position `p` below `k1 * k2` splits into row `p / k2` and column
/// `p % k2`.
proof fn lemma_row_major(p: int, k1: int, k2: int)
    requires
        0 <= k1,
        0 <= p < k1 * k2,
    ensures
        k2 > 0,
        0 <= p / k2 < k1,
        0 <= p % k2 < k2,
        p == (p / k2) * k2 + p % k2,
{
    if k2 <= 0 {
        assert(k1 * k2 <= 0) by (nonlinear_arith)
            requires
                0 <= k1,
                k2 <= 0,
                k1 * k2 > p,
                p >= 0,
        ;
    }
    lemma_fundamental_div_mod(p, k2);
    lemma_mod_pos_bound(p, k2);
    let q = p / k2;
    let r = p % k2;
    assert(0 <= q < k1) by (nonlinear_arith)
        requires
            p == k2 * q + r,
            0 <= r < k2,
            0 <= p < k1 * k2,
    ;
    assert(p == q * k2 + r) by (nonlinear_arith)
        requires
            p == k2 * q + r,
    ;
}

/// Every pair of a series of `left` with a series of `right` gets its
/// distance, collected in row-major order. Fails, naming the pair, at the
/// first pair in that order whose sequences cannot be aligned: exactly one of
/// the two is empty.
pub fn pairwise_distances<V, D, F: Fn(&Vec<V>, &Vec<V>) -> D>(
    left: &Vec<(String, Vec<V>)>,
    right: &Vec<(String, Vec<V>)>,
    dist: &F,
) -> (res: Result<Vec<(String, String, D)>, ComputationError>)
    requires
        forall|a: &Vec<V>, b: &Vec<V>| pairable(a@, b@) ==> dist.requires((a, b)),
        left@.len() * right@.len() <= usize::MAX,
    ensures
        res is Ok <==> all_pairable(left@, right@),
        res matches Ok(out) ==> is_cross_product(left@, right@, out@, *dist),
        res matches Err(e) ==> exists|i: int, j: int|
            first_unpairable(left@, right@, i, j) && names_pair(
                e,
                #[trigger] left@[i],
                #[trigger] right@[j],
            ),
{
    let ghost k2 = right@.len() as int;
    let mut out: Vec<(String, String, D)> = Vec::new();
    for i in 0..left.len()
        invariant
            forall|a: &Vec<V>, b: &Vec<V>| pairable(a@, b@) ==> dist.requires((a, b)),
            k2 == right@.len(),
            out@.len() == i * k2,
            forall|a: int| 0 <= a < i ==> row_pairable(#[trigger] left@[a], right@),
            forall|p: int|
                0 <= p < out@.len() ==> is_distance_entry(
                    left@[p / k2],
                    right@[p % k2],
                    #[trigger] out@[p],
                    *dist,
                ),
    {
        match distance_row(&left[i], right, dist) {
            Ok(row) => {
                let mut row = row;
                let ghost before = out@;
                let ghost added = row@;
                out.append(&mut row);
                proof {
                    assert(out@.len() == (i + 1) * k2) by (nonlinear_arith)
                        requires
                            out@.len() == i * k2 + k2,
                    ;
                    assert forall|p: int| 0 <= p < out@.len() implies is_distance_entry(
                        left@[p / k2],
                        right@[p % k2],
                        #[trigger] out@[p],
                        *dist,
                    ) by {
                        if p < before.len() {
                            assert(out@[p] == before[p]);
                        } else {
                            let j = p - i * k2;
                            lemma_fundamental_div_mod_converse(p, k2, i as int, j);
                            assert(out@[p] == added[j]);
                        }
                    }
                }
            },
            Err(e) => {
                return Err(e);
            },
        }
    }
    Ok(out)
}

/// Every pair of a left and a right series has a triple in a cross product.
proof fn lemma_cross_product_covers<V, D, F: Fn(&Vec<V>, &Vec<V>) -> D>(
    left: Seq<(String, Vec<V>)>,
    right: Seq<(String, Vec<V>)>,
    out: Seq<(String, String, D)>,
    dist: F,
    i: int,
    j: int,
) -> (p: int)
    requires
        is_cross_product(left, right, out, dist),
        0 <= i < left.len(),
        0 <= j < right.len(),
    ensures
        0 <= p < out.len(),
        p / right.len() as int == i,
        p % right.len() as int == j,
        out[p].0 == left[i].0,
        out[p].1 == right[j].0,
{
    let k1 = left.len() as int;
    let k2 = right.len() as int;
    let p = i * k2 + j;
    assert(0 <= p < k1 * k2) by (nonlinear_arith)
        requires
            0 <= i < k1,
            0 <= j < k2,
            p == i * k2 + j,
    ;
    lemma_fundamental_div_mod_converse(p, k2, i, j);
    assert(is_distance_entry(left[i], right[j], out[p], dist));
    p
}

/// Each triple of a cross product is for the pair that its position names.
proof fn lemma_cross_product_entry<V, D, F: Fn(&Vec<V>, &Vec<V>) -> D>(
    left: Seq<(String, Vec<V>)>,
    right: Seq<(String, Vec<V>)>,
    out: Seq<(String, String, D)>,
    dist: F,
    p: int,
)
    requires
        is_cross_product(left, right, out, dist),
        0 <= p < out.len(),
    ensures
        0 <= p / (right.len() as int) < left.len(),
        0 <= p % (right.len() as int) < right.len(),
        p == (p / right.len() as int) * right.len() + p % right.len() as int,
        out[p].0 == left[p / right.len() as int].0,
        out[p].1 == right[p % right.len() as int].0,
{
    lemma_row_major(p, left.len() as int, right.len() as int);
}

/// No two triples of a cross product name the same pair, when the
/// identifiers on each side are unique.
proof fn lemma_cross_product_distinct<V, D, F: Fn(&Vec<V>, &Vec<V>) -> D>(
    left: Seq<(String, Vec<V>)>,
    right: Seq<(String, Vec<V>)>,
    out: Seq<(String, String, D)>,
    dist: F,
    p: int,
    q: int,
)
    requires
        group_ids_unique(left),
        group_ids_unique(right),
        is_cross_product(left, right, out, dist),
        0 <= p < q < out.len(),
    ensures
        out[p].0@ != out[q].0@ || out[p].1@ != out[q].1@,
{
    let k2 = right.len() as int;
    lemma_cross_product_entry(left, right, out, dist, p);
    lemma_cross_product_entry(left, right, out, dist, q);
    let pi = p / k2;
    let qi = q / k2;
    let pj = p % k2;
    let qj = q % k2;
    if out[p].0@ == out[q].0@ && out[p].1@ == out[q].1@ {
        if pi != qi {
            if pi < qi {
                assert(left[pi].0@ != left[qi].0@);
            } else {
                assert(left[qi].0@ != left[pi].0@);
            }
        }
        if pj != qj {
            if pj < qj {
                assert(right[pj].0@ != right[qj].0@);
            } else {
                assert(right[qj].0@ != right[pj].0@);
            }
        }
    }
}

/// Some triple of `out` names the pair `(id_1, id_2)`.
pub open spec fn lists_pair<D>(out: Seq<(String, String, D)>, id_1: String, id_2: String) -> bool {
    exists|p: int| 0 <= p < out.len() && (#[trigger] out[p]).0 == id_1 && out[p].1 == id_2
}

/// The triple `t` names a left identifier and a right identifier.
pub open spec fn is_product_pair<V, D>(
    left: Seq<(String, Vec<V>)>,
    right: Seq<(String, Vec<V>)>,
    t: (String, String, D),
) -> bool {
    exists|i: int, j: int|
        0 <= i < left.len() && 0 <= j < right.len() && t.0 == (#[trigger] left[i]).0 && t.1 == (
        #[trigger] right[j]).0
}

/// Cross-product completeness: when the identifiers on each side are unique,
/// the triples of a cross product name every pair of a left identifier with
/// a right identifier exactly once, and no other pair.
pub proof fn lemma_cross_product_complete<V, D, F: Fn(&Vec<V>, &Vec<V>) -> D>(
    left: Seq<(String, Vec<V>)>,
    right: Seq<(String, Vec<V>)>,
    out: Seq<(String, String, D)>,
    dist: F,
)
    requires
        group_ids_unique(left),
        group_ids_unique(right),
        is_cross_product(left, right, out, dist),
    ensures
        out.len() == left.len() * right.len(),
        forall|i: int, j: int|
            0 <= i < left.len() && 0 <= j < right.len() ==> #[trigger] lists_pair(
                out,
                left[i].0,
                right[j].0,
            ),
        forall|p: int| 0 <= p < out.len() ==> is_product_pair(left, right, #[trigger] out[p]),
        forall|p: int, q: int|
            0 <= p < q < out.len() ==> (#[trigger] out[p]).0@ != (#[trigger] out[q]).0@
                || out[p].1@ != out[q].1@,
{
    assert forall|i: int, j: int|
        0 <= i < left.len() && 0 <= j < right.len() implies #[trigger] lists_pair(
            out,
            left[i].0,
            right[j].0,
        ) by {
        let p = lemma_cross_product_covers(left, right, out, dist, i, j);
        assert(out[p].0 == left[i].0);
    }
    assert forall|p: int| 0 <= p < out.len() implies is_product_pair(
        left,
        right,
        #[trigger] out[p],
    ) by {
        lemma_cross_product_entry(left, right, out, dist, p);
        let i = p / (right.len() as int);
        let j = p % (right.len() as int);
        assert(out[p].0 == left[i].0 && out[p].1 == right[j].0);
        assert(0 <= i < left.len() && 0 <= j < right.len());
    }
    assert forall|p: int, q: int| 0 <= p < q < out.len() implies (#[trigger] out[p]).0@ != (
    #[trigger] out[q]).0@ || out[p].1@ != out[q].1@ by {
        lemma_cross_product_distinct(left, right, out, dist, p, q);
    }
}

} // verus!
