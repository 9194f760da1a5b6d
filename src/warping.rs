use vstd::prelude::*;

verus! {

/// Cell `j` of `row` is what `cell` gives at index `(i, j)` from its three
/// predecessors: `above[j]`, `row[j - 1]` and `above[j - 1]`.
pub open spec fn cell_step<C, F: Fn(usize, usize, Option<C>, Option<C>, Option<C>) -> Option<C>>(
    cell: F,
    i: int,
    j: int,
    above: Seq<Option<C>>,
    row: Seq<Option<C>>,
) -> bool {
    cell.ensures((i as usize, j as usize, above[j], row[j - 1], above[j - 1]), row[j])
}

/// Row `i` of a warping grid with `m + 1` columns: the origin cell holds
/// `origin`, the other boundary cells are unreachable (`None`), and each inner
/// cell is what `cell` gives for its index and its three predecessors (the
/// cell above, the cell to the left, the cell diagonally above-left).
#[verifier::opaque]
pub open spec fn grid_row_ok<C, F: Fn(usize, usize, Option<C>, Option<C>, Option<C>) -> Option<C>>(
    g: Seq<Seq<Option<C>>>,
    i: int,
    m: int,
    origin: C,
    cell: F,
) -> bool {
    &&& g[i].len() == m + 1
    &&& if i == 0 {
        &&& g[i][0] == Some(origin)
        &&& forall|j: int| 1 <= j <= m ==> (#[trigger] g[i][j]) is None
    } else {
        &&& g[i][0] is None
        &&& forall|j: int| 1 <= j <= m ==> #[trigger] cell_step(cell, i, j, g[i - 1], g[i])
    }
}

/// `cell` yields a reachable cell whenever one of its predecessors is
/// reachable.
pub open spec fn keeps_reachable<C, F: Fn(usize, usize, Option<C>, Option<C>, Option<C>) -> Option<C>>(
    cell: F,
) -> bool {
    forall|i: usize, j: usize, up: Option<C>, left: Option<C>, diag: Option<C>, r: Option<C>|
        cell.ensures((i, j, up, left, diag), r) && (up is Some || left is Some || diag is Some)
            ==> r is Some
}

/// `g` is the full `(n + 1) x (m + 1)` warping grid for `origin` and `cell`.
pub open spec fn is_warping_grid<C, F: Fn(usize, usize, Option<C>, Option<C>, Option<C>) -> Option<C>>(
    g: Seq<Seq<Option<C>>>,
    n: int,
    m: int,
    origin: C,
    cell: F,
) -> bool {
    &&& g.len() == n + 1
    &&& forall|i: int| 0 <= i <= n ==> #[trigger] grid_row_ok(g, i, m, origin, cell)
}

/// The corner cell `D[n][m]` of the warping grid, computed row by row while
/// holding only the previous row and the current one.
///
/// `cell(i, j, up, left, diag)` gives `D[i][j]` for `1 <= i <= n` and
/// `1 <= j <= m` from `D[i-1][j]`, `D[i][j-1]` and `D[i-1][j-1]`; `None`
/// marks a cell that no alignment reaches. `D[0][0]` is `origin` and the other
/// cells of row 0 and column 0 are unreachable, so the corner is unreachable
/// when exactly one of `n` and `m` is zero.
pub fn warping_distance<C: Copy, F: Fn(usize, usize, Option<C>, Option<C>, Option<C>) -> Option<C>>(
    n: usize,
    m: usize,
    origin: C,
    cell: &F,
) -> (r: Option<C>)
    requires
        forall|i: usize, j: usize, up: Option<C>, left: Option<C>, diag: Option<C>|
            cell.requires((i, j, up, left, diag)),
        m < usize::MAX,
    ensures
        exists|g: Seq<Seq<Option<C>>>|
            is_warping_grid(g, n as int, m as int, origin, *cell) && r == #[trigger] g[n as int][m as int],
        n == 0 && m == 0 ==> r == Some(origin),
        (n == 0) != (m == 0) ==> r is None,
        n > 0 && m > 0 && keeps_reachable(*cell) ==> r is Some,
{
    let mut prev: Vec<Option<C>> = Vec::new();
    prev.push(Some(origin));
    for j in 0..m
        invariant
            prev@.len() == j + 1,
            prev@[0] == Some(origin),
            forall|b: int| 1 <= b <= j ==> (#[trigger] prev@[b]) is None,
    {
        prev.push(None);
    }
    let ghost mut g: Seq<Seq<Option<C>>> = seq![prev@];
    assert(grid_row_ok(g, 0, m as int, origin, *cell)) by {
        reveal(grid_row_ok);
    }
    for i in 0..n
        invariant
            forall|i: usize, j: usize, up: Option<C>, left: Option<C>, diag: Option<C>|
                cell.requires((i, j, up, left, diag)),
            m < usize::MAX,
            g.len() == i + 1,
            prev@ == g[i as int],
            prev@.len() == m + 1,
            prev@[0] is Some <==> i == 0,
            i > 0 && keeps_reachable(*cell) ==> forall|b: int| 1 <= b <= m ==> (#[trigger] prev@[b]) is Some,
            forall|a: int| 0 <= a <= i ==> #[trigger] grid_row_ok(g, a, m as int, origin, *cell),
    {
        let mut curr: Vec<Option<C>> = Vec::new();
        curr.push(None);
        for j in 0..m
            invariant
                i < n,
                prev@[0] is Some <==> i == 0,
                i > 0 && keeps_reachable(*cell) ==> forall|b: int| 1 <= b <= m ==> (#[trigger] prev@[b]) is Some,
                keeps_reachable(*cell) ==> forall|b: int| 1 <= b <= j ==> (#[trigger] curr@[b]) is Some,
                forall|i: usize, j: usize, up: Option<C>, left: Option<C>, diag: Option<C>|
                    cell.requires((i, j, up, left, diag)),
                prev@.len() == m + 1,
                curr@.len() == j + 1,
                curr@[0] is None,
                forall|b: int| 1 <= b <= j ==> #[trigger] cell_step(*cell, i + 1, b, prev@, curr@),
        {
            let c = cell(i + 1, j + 1, prev[j + 1], curr[j], prev[j]);
            let ghost before = curr@;
            proof {
                if keeps_reachable(*cell) {
                    if j == 0 {
                        if i == 0 {
                            assert(prev@[0] is Some);
                        } else {
                            assert(prev@[1] is Some);
                        }
                    } else {
                        assert(curr@[j as int] is Some);
                    }
                }
            }
            curr.push(c);
            assert forall|b: int| 1 <= b <= j + 1 implies #[trigger] cell_step(
                *cell,
                i + 1,
                b,
                prev@,
                curr@,
            ) by {
                if b <= j {
                    assert(cell_step(*cell, i + 1, b, prev@, before));
                }
            }
        }
        proof {
            let old_g = g;
            g = g.push(curr@);
            assert forall|a: int| 0 <= a <= i + 1 implies #[trigger] grid_row_ok(
                g,
                a,
                m as int,
                origin,
                *cell,
            ) by {
                reveal(grid_row_ok);
                if a <= i {
                    assert(g[a] == old_g[a]);
                    assert(grid_row_ok(old_g, a, m as int, origin, *cell));
                    if a > 0 {
                        assert(g[a - 1] == old_g[a - 1]);
                    }
                } else {
                    assert(g[a] == curr@);
                    assert(g[a - 1] == prev@);
                }
            }
        }
        prev = curr;
    }
    let r = prev[m];
    proof {
        assert(is_warping_grid(g, n as int, m as int, origin, *cell));
        assert(grid_row_ok(g, n as int, m as int, origin, *cell));
        reveal(grid_row_ok);
        if n == 0 && m > 0 {
            assert(g[0][m as int] is None);
        }
    }
    r
}

/// `cell_ba` at index `(j, i)`, with the cells above and to the left
/// exchanged, gives what `cell_ab` gives at `(i, j)`: the cell rule of the
/// swapped pair of sequences is the transpose of the first.
pub open spec fn transposes<
    C,
    F: Fn(usize, usize, Option<C>, Option<C>, Option<C>) -> Option<C>,
    G: Fn(usize, usize, Option<C>, Option<C>, Option<C>) -> Option<C>,
>(cell_ab: F, cell_ba: G) -> bool {
    forall|i: usize, j: usize, up: Option<C>, left: Option<C>, diag: Option<C>, r1: Option<C>, r2: Option<C>|
        #[trigger] cell_ab.ensures((i, j, up, left, diag), r1) && #[trigger] cell_ba.ensures(
            (j, i, left, up, diag),
            r2,
        ) ==> r1 == r2
}

/// Cell `(a, b)` of the first grid equals cell `(b, a)` of the second.
proof fn lemma_transposed_cell<
    C,
    F: Fn(usize, usize, Option<C>, Option<C>, Option<C>) -> Option<C>,
    G: Fn(usize, usize, Option<C>, Option<C>, Option<C>) -> Option<C>,
>(
    g: Seq<Seq<Option<C>>>,
    h: Seq<Seq<Option<C>>>,
    n: int,
    m: int,
    origin: C,
    cell_ab: F,
    cell_ba: G,
    a: int,
    b: int,
)
    requires
        is_warping_grid(g, n, m, origin, cell_ab),
        is_warping_grid(h, m, n, origin, cell_ba),
        transposes(cell_ab, cell_ba),
        0 <= a <= n,
        0 <= b <= m,
    ensures
        g[a][b] == h[b][a],
    decreases a + b,
{
    assert(grid_row_ok(g, a, m, origin, cell_ab));
    assert(grid_row_ok(h, b, n, origin, cell_ba));
    reveal(grid_row_ok);
    if a > 0 && b > 0 {
        lemma_transposed_cell(g, h, n, m, origin, cell_ab, cell_ba, a - 1, b);
        lemma_transposed_cell(g, h, n, m, origin, cell_ab, cell_ba, a, b - 1);
        lemma_transposed_cell(g, h, n, m, origin, cell_ab, cell_ba, a - 1, b - 1);
        assert(cell_step(cell_ab, a, b, g[a - 1], g[a]));
        assert(cell_step(cell_ba, b, a, h[b - 1], h[b]));
    } else if a > 0 {
        assert(h[0][a] is None);
    } else if b > 0 {
        assert(g[0][b] is None);
    }
}

/// Symmetry: when the cell rule for the swapped pair of sequences is the
/// transpose of the first, the corner of the `n x m` grid and the corner of
/// the `m x n` grid are equal, so the distance does not depend on the order
/// of the pair. `r_ab` and `r_ba` are the two corners, as `warping_distance`
/// states them.
pub proof fn lemma_warping_symmetric<
    C,
    F: Fn(usize, usize, Option<C>, Option<C>, Option<C>) -> Option<C>,
    G: Fn(usize, usize, Option<C>, Option<C>, Option<C>) -> Option<C>,
>(r_ab: Option<C>, r_ba: Option<C>, n: int, m: int, origin: C, cell_ab: F, cell_ba: G)
    requires
        0 <= n,
        0 <= m,
        exists|g: Seq<Seq<Option<C>>>|
            is_warping_grid(g, n, m, origin, cell_ab) && r_ab == #[trigger] g[n][m],
        exists|h: Seq<Seq<Option<C>>>|
            is_warping_grid(h, m, n, origin, cell_ba) && r_ba == #[trigger] h[m][n],
        transposes(cell_ab, cell_ba),
    ensures
        r_ab == r_ba,
{
    let g = choose|g: Seq<Seq<Option<C>>>|
        is_warping_grid(g, n, m, origin, cell_ab) && r_ab == #[trigger] g[n][m];
    let h = choose|h: Seq<Seq<Option<C>>>|
        is_warping_grid(h, m, n, origin, cell_ba) && r_ba == #[trigger] h[m][n];
    lemma_transposed_cell(g, h, n, m, origin, cell_ab, cell_ba, n, m);
}

/// `c` is unreachable or satisfies `q`.
pub open spec fn holds_if_reached<C>(c: Option<C>, q: spec_fn(C) -> bool) -> bool {
    c matches Some(x) ==> q(x)
}

/// `cell` yields a cell that satisfies `q`, when reached, whenever each of
/// its reached predecessors satisfies `q`.
pub open spec fn keeps_property<C, F: Fn(usize, usize, Option<C>, Option<C>, Option<C>) -> Option<C>>(
    cell: F,
    q: spec_fn(C) -> bool,
) -> bool {
    forall|i: usize, j: usize, up: Option<C>, left: Option<C>, diag: Option<C>, r: Option<C>|
        #[trigger] cell.ensures((i, j, up, left, diag), r) && holds_if_reached(up, q)
            && holds_if_reached(left, q) && holds_if_reached(diag, q) ==> holds_if_reached(r, q)
}

/// Every cell of a warping grid satisfies, when reached, a property that the
/// origin has and the cell rule keeps.
proof fn lemma_grid_cell_property<C, F: Fn(usize, usize, Option<C>, Option<C>, Option<C>) -> Option<C>>(
    g: Seq<Seq<Option<C>>>,
    n: int,
    m: int,
    origin: C,
    cell: F,
    q: spec_fn(C) -> bool,
    a: int,
    b: int,
)
    requires
        is_warping_grid(g, n, m, origin, cell),
        q(origin),
        keeps_property(cell, q),
        0 <= a <= n,
        0 <= b <= m,
    ensures
        holds_if_reached(g[a][b], q),
    decreases a + b,
{
    assert(grid_row_ok(g, a, m, origin, cell));
    reveal(grid_row_ok);
    if a > 0 && b > 0 {
        lemma_grid_cell_property(g, n, m, origin, cell, q, a - 1, b);
        lemma_grid_cell_property(g, n, m, origin, cell, q, a, b - 1);
        lemma_grid_cell_property(g, n, m, origin, cell, q, a - 1, b - 1);
        assert(cell_step(cell, a, b, g[a - 1], g[a]));
    }
}

/// Preserved bounds: a distance that the grid reaches satisfies every
/// property that the origin has and the cell rule keeps. With a zero origin
/// and a rule that adds a non-negative cost to the least reached
/// predecessor, the distance is never negative.
pub proof fn lemma_warping_keeps_property<
    C,
    F: Fn(usize, usize, Option<C>, Option<C>, Option<C>) -> Option<C>,
>(r: Option<C>, n: int, m: int, origin: C, cell: F, q: spec_fn(C) -> bool)
    requires
        0 <= n,
        0 <= m,
        exists|g: Seq<Seq<Option<C>>>|
            is_warping_grid(g, n, m, origin, cell) && r == #[trigger] g[n][m],
        q(origin),
        keeps_property(cell, q),
    ensures
        holds_if_reached(r, q),
{
    let g = choose|g: Seq<Seq<Option<C>>>|
        is_warping_grid(g, n, m, origin, cell) && r == #[trigger] g[n][m];
    lemma_grid_cell_property(g, n, m, origin, cell, q, n, m);
}

} // verus!
