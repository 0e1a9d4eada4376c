//! The incidence matrix and the contagion analyses read from it.

use vstd::prelude::*;
use crate::model::{ascending, same_component, Component, ComponentView, Matrix, Stressor};
use crate::text::{lemma_text_lt_irreflexive, text_lt};

verus! {

/// Whether a stressor acts on a component: it names the component's id.
pub open spec fn affects(s: Stressor, c: Component) -> bool {
    s.affected_components@.contains(c.id@)
}

/// The number of cells of a row that hold 1.
pub open spec fn ones(row: Seq<u32>) -> nat
    decreases row.len(),
{
    if row.len() == 0 {
        0
    } else {
        ones(row.drop_last()) + if row.last() == 1 {
            1nat
        } else {
            0nat
        }
    }
}

/// The number of rows that hold 1 in column `c`.
pub open spec fn column_ones(grid: Seq<Seq<u32>>, c: int) -> nat
    decreases grid.len(),
{
    if grid.len() == 0 {
        0
    } else {
        column_ones(grid.drop_last(), c) + if grid.last()[c] == 1 {
            1nat
        } else {
            0nat
        }
    }
}

/// The sum of a sequence of counts.
pub open spec fn total(s: Seq<int>) -> int
    decreases s.len(),
{
    if s.len() == 0 {
        0
    } else {
        total(s.drop_last()) + s.last()
    }
}

/// Whether the count at `p` is above the mean of all the counts.
pub open spec fn above_mean(s: Seq<int>, p: int) -> bool {
    s[p] * s.len() > total(s)
}

/// The number of 1s in each row of the matrix.
pub open spec fn row_counts(m: Matrix) -> Seq<int> {
    Seq::new(m.table@.len(), |r: int| ones(m.grid()[r]) as int)
}

/// The number of 1s in each component's column.
pub open spec fn column_counts(m: Matrix) -> Seq<int> {
    Seq::new(m.components@.len(), |c: int| column_ones(m.grid(), c) as int)
}

/// Whether the matrix is the incidence matrix of its stressors and
/// components: one row per stressor, one cell per component, holding 1
/// where the stressor acts on the component and 0 elsewhere.
pub open spec fn is_incidence_matrix(m: Matrix) -> bool {
    &&& m.is_well_formed()
    &&& forall|r: int, c: int|
        0 <= r < m.stressors@.len() && 0 <= c < m.components@.len() ==> #[trigger] m.grid()[r][c]
            == if affects(m.stressors@[r], m.components@[c]) {
            1u32
        } else {
            0u32
        }
}

/// Builds the incidence matrix: for each stressor a row holding, for each
/// component, 1 where the stressor acts on it and 0 elsewhere.
pub fn generate_incidence_matrix(stressors: Vec<Stressor>, components: Vec<Component>) -> (m:
    Matrix)
    ensures
        m.stressors == stressors,
        m.components == components,
        m.is_well_formed(),
        is_incidence_matrix(m),
        forall|r: int, c: int|
            0 <= r < stressors@.len() && 0 <= c < components@.len() ==> #[trigger] m.grid()[r][c]
                == if affects(stressors@[r], components@[c]) {
                1u32
            } else {
                0u32
            },
{
    let mut table: Vec<Vec<u32>> = Vec::new();
    let mut r: usize = 0;
    while r < stressors.len()
        invariant
            r <= stressors@.len(),
            table@.len() == r,
            forall|q: int| 0 <= q < r ==> (#[trigger] table@[q])@.len() == components@.len(),
            forall|q: int, c: int|
                0 <= q < r && 0 <= c < components@.len() ==> #[trigger] table@[q]@[c] == if affects(
                    stressors@[q],
                    components@[c],
                ) {
                    1u32
                } else {
                    0u32
                },
        decreases stressors@.len() - r,
    {
        let mut row: Vec<u32> = Vec::new();
        let mut c: usize = 0;
        while c < components.len()
            invariant
                r < stressors@.len(),
                c <= components@.len(),
                row@.len() == c,
                forall|k: int|
                    0 <= k < c ==> #[trigger] row@[k] == if affects(stressors@[r as int], components@[k]) {
                        1u32
                    } else {
                        0u32
                    },
            decreases components@.len() - c,
        {
            if stressors[r].affected_components.contains(&components[c].id) {
                row.push(1);
            } else {
                row.push(0);
            }
            c = c + 1;
        }
        table.push(row);
        r = r + 1;
    }
    let m = Matrix { table, stressors, components };
    assert forall|r: int, c: int|
        0 <= r < m.stressors@.len() && 0 <= c < m.components@.len() implies #[trigger] m.grid()[r][c]
        == if affects(m.stressors@[r], m.components@[c]) {
        1u32
    } else {
        0u32
    } by {
        assert(m.grid()[r] == m.table@[r]@);
    }
    m
}

/// For each component, the number of stressors whose row holds 1 in its column.
pub fn sum_cols(matrix: &Matrix) -> (sums: Vec<u32>)
    requires
        matrix.has_columns(),
        forall|c: int| 0 <= c < matrix.components@.len() ==> column_ones(matrix.grid(), c) <= u32::MAX,
    ensures
        sums@.len() == matrix.components@.len(),
        forall|c: int| 0 <= c < sums@.len() ==> sums@[c] == column_ones(matrix.grid(), c),
{
    let mut sums: Vec<u32> = Vec::new();
    let ghost grid = matrix.grid();
    let mut c: usize = 0;
    while c < matrix.components.len()
        invariant
            grid == matrix.grid(),
            matrix.has_columns(),
            forall|k: int| 0 <= k < matrix.components@.len() ==> column_ones(grid, k) <= u32::MAX,
            c <= matrix.components@.len(),
            sums@.len() == c,
            forall|k: int| 0 <= k < c ==> sums@[k] == column_ones(grid, k),
        decreases matrix.components@.len() - c,
    {
        let mut acc: u32 = 0;
        let mut r: usize = 0;
        while r < matrix.table.len()
            invariant
                grid == matrix.grid(),
                matrix.has_columns(),
                c < matrix.components@.len(),
                column_ones(grid, c as int) <= u32::MAX,
                r <= matrix.table@.len(),
                acc == column_ones(grid.take(r as int), c as int),
            decreases matrix.table@.len() - r,
        {
            proof {
                assert(grid.take(r + 1).drop_last() =~= grid.take(r as int));
                assert(grid[r as int] == matrix.table@[r as int]@);
                lemma_column_ones_prefix(grid, c as int, r + 1);
            }
            if matrix.table[r][c] == 1 {
                acc = acc + 1;
            }
            r = r + 1;
        }
        assert(grid.take(r as int) =~= grid);
        sums.push(acc);
        c = c + 1;
    }
    sums
}

/// A prefix of the rows holds no more 1s in a column than all of them.
pub proof fn lemma_column_ones_prefix(grid: Seq<Seq<u32>>, c: int, n: int)
    requires
        0 <= n <= grid.len(),
    ensures
        column_ones(grid.take(n), c) <= column_ones(grid, c),
    decreases grid.len() - n,
{
    if n < grid.len() {
        assert(grid.drop_last().take(n) =~= grid.take(n));
        lemma_column_ones_prefix(grid.drop_last(), c, n);
    } else {
        assert(grid.take(n) =~= grid);
    }
}

/// A prefix of a row holds no more 1s than the whole row.
pub proof fn lemma_ones_prefix(row: Seq<u32>, n: int)
    requires
        0 <= n <= row.len(),
    ensures
        ones(row.take(n)) <= ones(row),
    decreases row.len() - n,
{
    if n < row.len() {
        assert(row.drop_last().take(n) =~= row.take(n));
        lemma_ones_prefix(row.drop_last(), n);
    } else {
        assert(row.take(n) =~= row);
    }
}

/// For each stressor's row, the number of cells that hold 1.
pub fn sum_rows(matrix: &Matrix) -> (sums: Vec<u32>)
    requires
        forall|r: int| 0 <= r < matrix.table@.len() ==> ones(#[trigger] matrix.grid()[r]) <= u32::MAX,
    ensures
        sums@.len() == matrix.table@.len(),
        forall|r: int| 0 <= r < sums@.len() ==> sums@[r] == ones(matrix.grid()[r]),
{
    let mut sums: Vec<u32> = Vec::new();
    let mut i: usize = 0;
    while i < matrix.table.len()
        invariant
            forall|r: int| 0 <= r < matrix.table@.len() ==> ones(#[trigger] matrix.grid()[r]) <= u32::MAX,
            i <= matrix.table@.len(),
            sums@.len() == i,
            forall|r: int| 0 <= r < i ==> sums@[r] == ones(matrix.grid()[r]),
        decreases matrix.table@.len() - i,
    {
        let row = &matrix.table[i];
        let ghost cells = row@;
        assert(cells == matrix.grid()[i as int]);
        let mut acc: u32 = 0;
        let mut k: usize = 0;
        while k < row.len()
            invariant
                cells == row@,
                ones(cells) <= u32::MAX,
                k <= cells.len(),
                acc == ones(cells.take(k as int)),
            decreases cells.len() - k,
        {
            proof {
                assert(cells.take(k + 1).drop_last() =~= cells.take(k as int));
                lemma_ones_prefix(cells, k + 1);
            }
            if row[k] == 1 {
                acc = acc + 1;
            }
            k = k + 1;
        }
        assert(cells.take(k as int) =~= cells);
        sums.push(acc);
        i = i + 1;
    }
    sums
}

/// Whether position `p` comes before position `q` when ranking by count:
/// a higher count first, and of equal counts the earlier position first.
pub open spec fn ranks_before(w: Seq<int>, p: int, q: int) -> bool {
    w[p] > w[q] || (w[p] == w[q] && p < q)
}

/// Whether `order` lists, each once, exactly the positions below `n` that
/// `keep` selects, ranked by count: highest count first, and positions of
/// equal count in their own order (a stable sort by descending count).
pub open spec fn is_ranking_upto(order: Seq<usize>, w: Seq<int>, keep: Seq<bool>, n: int) -> bool {
    &&& forall|k: int| 0 <= k < order.len() ==> #[trigger] order[k] < n && keep[order[k] as int]
    &&& forall|p: int| 0 <= p < n && keep[p] ==> #[trigger] order.contains(p as usize)
    &&& forall|k: int, l: int|
        0 <= k < l < order.len() ==> ranks_before(w, #[trigger] order[k] as int, #[trigger] order[l] as int)
}

/// Whether `order` ranks all the positions that `keep` selects.
pub open spec fn is_ranking(order: Seq<usize>, w: Seq<int>, keep: Seq<bool>) -> bool {
    is_ranking_upto(order, w, keep, w.len() as int)
}

/// The selected positions, ranked by descending count, ties in position order.
pub(crate) fn rank_by_count(weights: &Vec<u32>, keep: &Vec<bool>) -> (order: Vec<usize>)
    requires
        keep@.len() == weights@.len(),
    ensures
        is_ranking(order@, weights@.map_values(|x: u32| x as int), keep@),
{
    let ghost w = weights@.map_values(|x: u32| x as int);
    let mut order: Vec<usize> = Vec::new();
    let mut p: usize = 0;
    while p < weights.len()
        invariant
            w == weights@.map_values(|x: u32| x as int),
            keep@.len() == weights@.len(),
            p <= weights@.len(),
            is_ranking_upto(order@, w, keep@, p as int),
        decreases weights@.len() - p,
    {
        if keep[p] {
            let mut k: usize = 0;
            while k < order.len() && weights[order[k]] >= weights[p]
                invariant
                    w == weights@.map_values(|x: u32| x as int),
                    keep@.len() == weights@.len(),
                    p < weights@.len(),
                    k <= order@.len(),
                    is_ranking_upto(order@, w, keep@, p as int),
                    forall|q: int| 0 <= q < k ==> w[#[trigger] order@[q] as int] >= w[p as int],
                decreases order@.len() - k,
            {
                k = k + 1;
            }
            let ghost before = order@;
            order.insert(k, p);
            proof {
                before.insert_ensures(k as int, p);
                assert(order@ == before.insert(k as int, p));
                assert forall|a: int, b: int|
                    0 <= a < b < order@.len() implies ranks_before(
                    w,
                    #[trigger] order@[a] as int,
                    #[trigger] order@[b] as int,
                ) by {
                    if b < k {
                        assert(order@[a] == before[a] && order@[b] == before[b]);
                    } else if b == k {
                        assert(order@[a] == before[a]);
                        assert(before[a] < p);
                    } else if a < k {
                        assert(order@[a] == before[a] && order@[b] == before[b - 1]);
                    } else if a == k {
                        assert(order@[b] == before[b - 1]);
                        assert(w[before[k as int] as int] < w[p as int]);
                        if b - 1 > k {
                            assert(ranks_before(w, before[k as int] as int, before[b - 1] as int));
                        }
                    } else {
                        assert(order@[a] == before[a - 1] && order@[b] == before[b - 1]);
                    }
                }
                assert forall|q: int| 0 <= q < p + 1 && keep@[q] implies #[trigger] order@.contains(
                    q as usize,
                ) by {
                    if q == p {
                        assert(order@[k as int] == p);
                    } else {
                        assert(before.contains(q as usize));
                        let i = choose|i: int| 0 <= i < before.len() && before[i] == q as usize;
                        if i < k {
                            assert(order@[i] == q as usize);
                        } else {
                            assert(order@[i + 1] == q as usize);
                        }
                    }
                }
                assert forall|a: int| 0 <= a < order@.len() implies #[trigger] order@[a] < p + 1
                    && keep@[order@[a] as int] by {
                    if a < k {
                        assert(order@[a] == before[a]);
                    } else if a > k {
                        assert(order@[a] == before[a - 1]);
                    }
                }
            }
        }
        p = p + 1;
    }
    order
}

/// Of nonnegative counts, each is at most their sum, and the sum is
/// nonnegative.
proof fn lemma_total_bounds(s: Seq<int>, p: int)
    requires
        0 <= p < s.len(),
        forall|i: int| 0 <= i < s.len() ==> s[i] >= 0,
    ensures
        s[p] <= total(s),
        total(s) >= 0,
    decreases s.len(),
{
    assert forall|i: int| 0 <= i < s.drop_last().len() implies s.drop_last()[i] >= 0 by {
        assert(s.drop_last()[i] == s[i]);
    }
    assert(s[s.len() - 1] >= 0);
    assert(total(s) == total(s.drop_last()) + s[s.len() - 1]);
    if p < s.len() - 1 {
        lemma_total_bounds(s.drop_last(), p);
        assert(s.drop_last()[p] == s[p]);
    } else if s.len() > 1 {
        lemma_total_bounds(s.drop_last(), 0);
    } else {
        assert(s.drop_last().len() == 0);
    }
}

/// Sums counts held in a vector.
fn sum_counts(counts: &Vec<u32>) -> (t: u32)
    requires
        total(counts@.map_values(|x: u32| x as int)) <= u32::MAX,
    ensures
        t == total(counts@.map_values(|x: u32| x as int)),
{
    let ghost w = counts@.map_values(|x: u32| x as int);
    let mut t: u32 = 0;
    let mut i: usize = 0;
    while i < counts.len()
        invariant
            w == counts@.map_values(|x: u32| x as int),
            total(w) <= u32::MAX,
            i <= w.len(),
            t == total(w.take(i as int)),
        decreases w.len() - i,
    {
        proof {
            assert(w.take(i + 1).drop_last() =~= w.take(i as int));
            lemma_total_prefix(w, i + 1);
        }
        t = t + counts[i];
        i = i + 1;
    }
    assert(w.take(i as int) =~= w);
    t
}

/// A prefix of nonnegative counts sums to no more than all of them.
proof fn lemma_total_prefix(s: Seq<int>, n: int)
    requires
        0 <= n <= s.len(),
        forall|i: int| 0 <= i < s.len() ==> s[i] >= 0,
    ensures
        total(s.take(n)) <= total(s),
    decreases s.len() - n,
{
    if n < s.len() {
        assert(s.drop_last().take(n) =~= s.take(n));
        lemma_total_prefix(s.drop_last(), n);
    } else {
        assert(s.take(n) =~= s);
    }
}

/// Marks the positions whose count is above the mean of all counts, among
/// the first `limit`.
fn above_mean_marks(counts: &Vec<u32>, t: u32, limit: usize) -> (keep: Vec<bool>)
    requires
        t == total(counts@.map_values(|x: u32| x as int)),
    ensures
        keep@.len() == counts@.len(),
        forall|p: int|
            0 <= p < keep@.len() ==> #[trigger] keep@[p] == (p < limit && above_mean(
                counts@.map_values(|x: u32| x as int),
                p,
            )),
{
    let ghost w = counts@.map_values(|x: u32| x as int);
    let n = counts.len();
    let mut keep: Vec<bool> = Vec::new();
    let mut p: usize = 0;
    while p < n
        invariant
            w == counts@.map_values(|x: u32| x as int),
            n == w.len(),
            t == total(w),
            p <= n,
            keep@.len() == p,
            forall|q: int| 0 <= q < p ==> #[trigger] keep@[q] == (q < limit && above_mean(w, q)),
        decreases n - p,
    {
        let c = counts[p] as u128;
        assert(c * (n as u128) <= 0xffff_ffff_ffff_ffff_ffff_ffff_ffff_ffffu128) by (nonlinear_arith)
            requires
                c <= u32::MAX,
                n <= usize::MAX,
                usize::MAX <= u64::MAX,
        ;
        let prod: u128 = c * (n as u128);
        assert(prod == w[p as int] * w.len()) by (nonlinear_arith)
            requires
                prod == c * (n as u128),
                c == w[p as int],
                n == w.len(),
                c <= u32::MAX,
                n <= usize::MAX,
        ;
        keep.push(p < limit && prod > t as u128);
        p = p + 1;
    }
    keep
}

/// The number of links in the matrix: the 1s of all its rows.
pub fn count_links(matrix: &Matrix) -> (links: u32)
    requires
        total(row_counts(*matrix)) <= u32::MAX,
    ensures
        links == total(row_counts(*matrix)),
{
    let ghost counts = row_counts(*matrix);
    proof {
        assert forall|r: int| 0 <= r < matrix.table@.len() implies ones(
            #[trigger] matrix.grid()[r],
        ) <= u32::MAX by {
            assert(counts[r] == ones(matrix.grid()[r]));
            lemma_total_bounds(counts, r);
        }
    }
    let sums = sum_rows(matrix);
    assert(sums@.map_values(|x: u32| x as int) =~= counts);
    sum_counts(&sums)
}

/// For each row, whether a stressor stands beside it and it holds more 1s
/// than the mean row.
pub open spec fn rows_above_mean(m: Matrix) -> Seq<bool> {
    Seq::new(
        m.table@.len(),
        |r: int| r < m.stressors@.len() && above_mean(row_counts(m), r),
    )
}

/// The stressors whose rows hold more 1s than the mean row, each with its
/// count: the highest count first, and stressors of equal count in their
/// own order. A row counts in the mean even where no stressor stands beside
/// it; a stressor without a row is not reported.
pub fn analyze_highest_row_totals(matrix: &Matrix) -> (top: Vec<(&Stressor, u32)>)
    requires
        total(row_counts(*matrix)) <= u32::MAX,
    ensures
        exists|order: Seq<usize>|
            {
                &&& #[trigger] is_ranking(order, row_counts(*matrix), rows_above_mean(*matrix))
                &&& top@.len() == order.len()
                &&& forall|k: int|
                    0 <= k < order.len() ==> (#[trigger] top@[k]).0 == matrix.stressors@[order[k] as int]
                        && top@[k].1 == row_counts(*matrix)[order[k] as int]
            },
{
    let ghost counts = row_counts(*matrix);
    proof {
        assert forall|r: int| 0 <= r < matrix.table@.len() implies ones(
            #[trigger] matrix.grid()[r],
        ) <= u32::MAX by {
            assert(counts[r] == ones(matrix.grid()[r]));
            lemma_total_bounds(counts, r);
        }
    }
    let sums = sum_rows(matrix);
    assert(sums@.map_values(|x: u32| x as int) =~= counts);
    let t = sum_counts(&sums);
    let keep = above_mean_marks(&sums, t, matrix.stressors.len());
    let ghost keep_spec = rows_above_mean(*matrix);
    assert(keep@ =~= keep_spec);
    let order = rank_by_count(&sums, &keep);
    let mut top: Vec<(&Stressor, u32)> = Vec::new();
    let mut k: usize = 0;
    while k < order.len()
        invariant
            is_ranking(order@, counts, keep@),
            keep@.len() == matrix.table@.len(),
            sums@.len() == matrix.table@.len(),
            sums@.map_values(|x: u32| x as int) == counts,
            forall|r: int| 0 <= r < keep@.len() ==> #[trigger] keep@[r] ==> r < matrix.stressors@.len(),
            k <= order@.len(),
            top@.len() == k,
            forall|q: int|
                0 <= q < k ==> (#[trigger] top@[q]).0 == matrix.stressors@[order@[q] as int]
                    && top@[q].1 == counts[order@[q] as int],
        decreases order@.len() - k,
    {
        let r = order[k];
        assert(keep@[r as int]);
        top.push((&matrix.stressors[r], sums[r]));
        k = k + 1;
    }
    assert(is_ranking(order@, row_counts(*matrix), keep_spec));
    top
}

/// For each component, whether its column holds more 1s than the mean column.
pub open spec fn columns_above_mean(m: Matrix) -> Seq<bool> {
    Seq::new(m.components@.len(), |c: int| above_mean(column_counts(m), c))
}

/// The components whose columns hold more 1s than the mean column, each
/// with its count: the highest count first, and components of equal count
/// in their own order.
pub fn analyze_highest_col_totals(matrix: &Matrix) -> (top: Vec<(&Component, u32)>)
    requires
        matrix.has_columns(),
        total(column_counts(*matrix)) <= u32::MAX,
    ensures
        exists|order: Seq<usize>|
            {
                &&& #[trigger] is_ranking(order, column_counts(*matrix), columns_above_mean(*matrix))
                &&& top@.len() == order.len()
                &&& forall|k: int|
                    0 <= k < order.len() ==> (#[trigger] top@[k]).0 == matrix.components@[order[k] as int]
                        && top@[k].1 == column_counts(*matrix)[order[k] as int]
            },
{
    let ghost counts = column_counts(*matrix);
    proof {
        assert forall|c: int| 0 <= c < matrix.components@.len() implies column_ones(matrix.grid(), c)
            <= u32::MAX by {
            assert(counts[c] == column_ones(matrix.grid(), c));
            lemma_total_bounds(counts, c);
        }
    }
    let sums = sum_cols(matrix);
    assert(sums@.map_values(|x: u32| x as int) =~= counts);
    let t = sum_counts(&sums);
    let keep = above_mean_marks(&sums, t, matrix.components.len());
    let ghost keep_spec = columns_above_mean(*matrix);
    assert(keep@ =~= keep_spec);
    let order = rank_by_count(&sums, &keep);
    let mut top: Vec<(&Component, u32)> = Vec::new();
    let mut k: usize = 0;
    while k < order.len()
        invariant
            is_ranking(order@, counts, keep@),
            keep@.len() == matrix.components@.len(),
            sums@.len() == matrix.components@.len(),
            sums@.map_values(|x: u32| x as int) == counts,
            k <= order@.len(),
            top@.len() == k,
            forall|q: int|
                0 <= q < k ==> (#[trigger] top@[q]).0 == matrix.components@[order@[q] as int]
                    && top@[q].1 == counts[order@[q] as int],
        decreases order@.len() - k,
    {
        let c = order[k];
        top.push((&matrix.components[c], sums[c]));
        k = k + 1;
    }
    top
}

/// The number of rows that hold 1 in both column `i` and column `j`.
pub open spec fn pair_ones(grid: Seq<Seq<u32>>, i: int, j: int) -> nat
    decreases grid.len(),
{
    if grid.len() == 0 {
        0
    } else {
        pair_ones(grid.drop_last(), i, j) + if grid.last()[i] == 1 && grid.last()[j] == 1 {
            1nat
        } else {
            0nat
        }
    }
}

/// The pairs `(i, j)`, `i < j < upto`, whose columns share a 1, by `j`.
pub open spec fn linked_with(grid: Seq<Seq<u32>>, i: int, upto: int) -> Seq<(int, int)>
    decreases upto - i,
{
    if upto <= i + 1 {
        Seq::empty()
    } else {
        let before = linked_with(grid, i, upto - 1);
        if pair_ones(grid, i, upto - 1) > 0 {
            before.push((i, upto - 1))
        } else {
            before
        }
    }
}

/// The pairs `(i, j)`, `i < upto`, `i < j < n`, whose columns share a 1,
/// by `i`, then by `j`.
pub open spec fn linked_pairs(grid: Seq<Seq<u32>>, upto: int, n: int) -> Seq<(int, int)>
    decreases upto,
{
    if upto <= 0 {
        Seq::empty()
    } else {
        linked_pairs(grid, upto - 1, n) + linked_with(grid, upto - 1, n)
    }
}

/// The pairs of components that some stressor acts on together, in the
/// order of the first component, then of the second.
pub open spec fn coupled_pairs(m: Matrix) -> Seq<(int, int)> {
    linked_pairs(m.grid(), m.components@.len() as int, m.components@.len() as int)
}

/// For each coupled pair, the number of stressors that act on both.
pub open spec fn coupling_counts(m: Matrix) -> Seq<int> {
    coupled_pairs(m).map_values(|p: (int, int)| pair_ones(m.grid(), p.0, p.1) as int)
}

/// For each coupled pair, whether its count reaches the mean count rounded down.
pub open spec fn strong_couplings(m: Matrix) -> Seq<bool> {
    let counts = coupling_counts(m);
    Seq::new(counts.len(), |k: int| counts[k] >= total(counts) / (counts.len() as int))
}

proof fn lemma_pair_ones_prefix(grid: Seq<Seq<u32>>, i: int, j: int, n: int)
    requires
        0 <= n <= grid.len(),
    ensures
        pair_ones(grid.take(n), i, j) <= pair_ones(grid, i, j),
    decreases grid.len() - n,
{
    if n < grid.len() {
        assert(grid.drop_last().take(n) =~= grid.take(n));
        lemma_pair_ones_prefix(grid.drop_last(), i, j, n);
    } else {
        assert(grid.take(n) =~= grid);
    }
}

/// The number of rows with 1 in both columns.
fn count_pair(matrix: &Matrix, i: usize, j: usize) -> (count: u32)
    requires
        matrix.has_columns(),
        i < matrix.components@.len(),
        j < matrix.components@.len(),
        pair_ones(matrix.grid(), i as int, j as int) <= u32::MAX,
    ensures
        count == pair_ones(matrix.grid(), i as int, j as int),
{
    let ghost grid = matrix.grid();
    let mut count: u32 = 0;
    let mut r: usize = 0;
    while r < matrix.table.len()
        invariant
            grid == matrix.grid(),
            matrix.has_columns(),
            i < matrix.components@.len(),
            j < matrix.components@.len(),
            pair_ones(grid, i as int, j as int) <= u32::MAX,
            r <= matrix.table@.len(),
            count == pair_ones(grid.take(r as int), i as int, j as int),
        decreases matrix.table@.len() - r,
    {
        proof {
            assert(grid.take(r + 1).drop_last() =~= grid.take(r as int));
            assert(grid[r as int] == matrix.table@[r as int]@);
            lemma_pair_ones_prefix(grid, i as int, j as int, r + 1);
        }
        if matrix.table[r][i] == 1 && matrix.table[r][j] == 1 {
            count = count + 1;
        }
        r = r + 1;
    }
    assert(grid.take(r as int) =~= grid);
    count
}

/// The pairs of components that stressors act on together, each with the
/// number of stressors that act on both: those pairs whose count reaches the
/// mean count of all coupled pairs, rounded down; the highest count first,
/// and pairs of equal count by first component, then second.
pub fn analyze_coupling(matrix: &Matrix) -> (top: Vec<(&Component, &Component, u32)>)
    requires
        matrix.components@.len() >= 2 ==> matrix.has_columns(),
        forall|i: int, j: int|
            0 <= i < j < matrix.components@.len() ==> #[trigger] pair_ones(matrix.grid(), i, j)
                <= u32::MAX,
        total(coupling_counts(*matrix)) <= u32::MAX,
    ensures
        exists|order: Seq<usize>|
            {
                &&& #[trigger] is_ranking(order, coupling_counts(*matrix), strong_couplings(*matrix))
                &&& top@.len() == order.len()
                &&& forall|k: int|
                    0 <= k < order.len() ==> (#[trigger] top@[k]).0 == matrix.components@[coupled_pairs(
                        *matrix,
                    )[order[k] as int].0] && top@[k].1 == matrix.components@[coupled_pairs(
                        *matrix,
                    )[order[k] as int].1] && top@[k].2 == coupling_counts(*matrix)[order[k] as int]
            },
{
    let ghost grid = matrix.grid();
    let n = matrix.components.len();
    let mut pairs: Vec<(usize, usize)> = Vec::new();
    let mut counts: Vec<u32> = Vec::new();
    let mut i: usize = 0;
    while i < n
        invariant
            grid == matrix.grid(),
            n == matrix.components@.len(),
            n >= 2 ==> matrix.has_columns(),
            forall|a: int, b: int|
                0 <= a < b < n ==> #[trigger] pair_ones(grid, a, b) <= u32::MAX,
            i <= n,
            pairs@.len() == counts@.len(),
            pairs@.map_values(|p: (usize, usize)| (p.0 as int, p.1 as int)) == linked_pairs(
                grid,
                i as int,
                n as int,
            ),
            forall|k: int|
                0 <= k < counts@.len() ==> #[trigger] counts@[k] == pair_ones(
                    grid,
                    pairs@[k].0 as int,
                    pairs@[k].1 as int,
                ),
            forall|k: int| 0 <= k < pairs@.len() ==> (#[trigger] pairs@[k]).0 < n && pairs@[k].1 < n,
        decreases n - i,
    {
        let ghost base = pairs@.map_values(|p: (usize, usize)| (p.0 as int, p.1 as int));
        let mut j: usize = i + 1;
        assert(linked_with(grid, i as int, j as int) =~= Seq::<(int, int)>::empty());
        while j < n
            invariant
                grid == matrix.grid(),
                n == matrix.components@.len(),
                n >= 2 ==> matrix.has_columns(),
                forall|a: int, b: int|
                    0 <= a < b < n ==> #[trigger] pair_ones(grid, a, b) <= u32::MAX,
                i < n,
                i + 1 <= j <= n,
                base == linked_pairs(grid, i as int, n as int),
                pairs@.len() == counts@.len(),
                pairs@.map_values(|p: (usize, usize)| (p.0 as int, p.1 as int)) == base
                    + linked_with(grid, i as int, j as int),
                forall|k: int|
                    0 <= k < counts@.len() ==> #[trigger] counts@[k] == pair_ones(
                        grid,
                        pairs@[k].0 as int,
                        pairs@[k].1 as int,
                    ),
                forall|k: int| 0 <= k < pairs@.len() ==> (#[trigger] pairs@[k]).0 < n && pairs@[k].1 < n,
            decreases n - j,
        {
            let count = count_pair(matrix, i, j);
            let ghost before = pairs@;
            if count > 0 {
                assert(linked_with(grid, i as int, j + 1) == linked_with(grid, i as int, j as int).push(
                    (i as int, j as int),
                ));
                pairs.push((i, j));
                counts.push(count);
                assert(pairs@.map_values(|p: (usize, usize)| (p.0 as int, p.1 as int)) =~= before.map_values(
                    |p: (usize, usize)| (p.0 as int, p.1 as int),
                ).push((i as int, j as int)));
                assert(pairs@.map_values(|p: (usize, usize)| (p.0 as int, p.1 as int)) =~= base
                    + linked_with(grid, i as int, j + 1));
            } else {
                assert(linked_with(grid, i as int, j + 1) == linked_with(grid, i as int, j as int));
            }
            j = j + 1;
        }
        i = i + 1;
    }
    let ghost coupled = coupled_pairs(*matrix);
    let ghost spec_counts = coupling_counts(*matrix);
    assert(counts@.map_values(|x: u32| x as int) =~= spec_counts);
    let t = sum_counts(&counts);
    let len = counts.len();
    let mut keep: Vec<bool> = Vec::new();
    let mut k: usize = 0;
    while k < len
        invariant
            len == counts@.len(),
            spec_counts == counts@.map_values(|x: u32| x as int),
            t == total(spec_counts),
            k <= len,
            keep@.len() == k,
            forall|q: int|
                0 <= q < k ==> #[trigger] keep@[q] == (spec_counts[q] >= total(spec_counts) / (
                len as int)),
        decreases len - k,
    {
        let threshold: u64 = (t as u64) / (len as u64);
        keep.push(counts[k] as u64 >= threshold);
        k = k + 1;
    }
    assert(keep@ =~= strong_couplings(*matrix));
    let order = rank_by_count(&counts, &keep);
    let mut top: Vec<(&Component, &Component, u32)> = Vec::new();
    let mut q: usize = 0;
    while q < order.len()
        invariant
            is_ranking(order@, spec_counts, keep@),
            keep@.len() == pairs@.len(),
            pairs@.len() == counts@.len(),
            pairs@.map_values(|p: (usize, usize)| (p.0 as int, p.1 as int)) == coupled,
            spec_counts == counts@.map_values(|x: u32| x as int),
            forall|k: int| 0 <= k < pairs@.len() ==> (#[trigger] pairs@[k]).0 < n && pairs@[k].1 < n,
            n == matrix.components@.len(),
            q <= order@.len(),
            top@.len() == q,
            forall|z: int|
                0 <= z < q ==> (#[trigger] top@[z]).0 == matrix.components@[coupled[order@[z] as int].0]
                    && top@[z].1 == matrix.components@[coupled[order@[z] as int].1] && top@[z].2
                    == spec_counts[order@[z] as int],
        decreases order@.len() - q,
    {
        let p = order[q];
        let (a, b) = pairs[p];
        assert(coupled[p as int] == (a as int, b as int));
        top.push((&matrix.components[a], &matrix.components[b], counts[p]));
        q = q + 1;
    }
    top
}

/// Whether every row holds 0 in column `c`.
pub open spec fn zero_column(grid: Seq<Seq<u32>>, c: int) -> bool {
    forall|r: int| 0 <= r < grid.len() ==> #[trigger] grid[r][c] == 0
}

/// Whether columns `c` and `d` hold the same cells in every row.
pub open spec fn same_column(grid: Seq<Seq<u32>>, c: int, d: int) -> bool {
    forall|r: int| 0 <= r < grid.len() ==> #[trigger] grid[r][c] == grid[r][d]
}

/// The columns `j`, `i < j < upto`, whose cells are those of column `i`.
pub open spec fn twin_columns(grid: Seq<Seq<u32>>, i: int, upto: int) -> Seq<int>
    decreases upto - i,
{
    if upto <= i + 1 {
        Seq::empty()
    } else {
        let before = twin_columns(grid, i, upto - 1);
        if same_column(grid, i, upto - 1) {
            before.push(upto - 1)
        } else {
            before
        }
    }
}

/// The components of the matrix as values.
pub open spec fn component_views(m: Matrix) -> Seq<ComponentView> {
    m.components@.map_values(|c: Component| c@)
}

/// Whether `v` equals a component whose column holds only 0s.
pub open spec fn equals_unstressed(m: Matrix, v: ComponentView) -> bool {
    exists|k: int|
        0 <= k < m.components@.len() && zero_column(m.grid(), k) && #[trigger] component_views(m)[k]
            == v
}

/// Whether `v` equals a member of one of the clusters.
pub open spec fn equals_clustered(m: Matrix, clusters: Seq<Seq<int>>, v: ComponentView) -> bool {
    exists|g: int, k: int|
        0 <= g < clusters.len() && 0 <= k < clusters[g].len() && component_views(m)[#[trigger] clusters[g][k]]
            == v
}

/// The clusters of components with identical columns found among the first
/// `upto` components, each as the positions of its members. A component
/// starts a cluster unless it equals a component with an all-0 column or a
/// member of an earlier cluster; the cluster holds it and the later
/// components whose columns equal its own, and is kept only where there is
/// at least one of those.
pub open spec fn merge_clusters(m: Matrix, upto: int) -> Seq<Seq<int>>
    decreases upto,
{
    if upto <= 0 {
        Seq::empty()
    } else {
        let before = merge_clusters(m, upto - 1);
        let i = upto - 1;
        let v = component_views(m)[i];
        if equals_unstressed(m, v) || equals_clustered(m, before, v) {
            before
        } else {
            let twins = twin_columns(m.grid(), i, m.components@.len() as int);
            if twins.len() == 0 {
                before
            } else {
                before.push(seq![i] + twins)
            }
        }
    }
}

/// Whether column `c` holds only 0s.
fn column_is_zero(matrix: &Matrix, c: usize) -> (r: bool)
    requires
        matrix.has_columns(),
        c < matrix.components@.len(),
    ensures
        r == zero_column(matrix.grid(), c as int),
{
    let mut k: usize = 0;
    while k < matrix.table.len()
        invariant
            matrix.has_columns(),
            c < matrix.components@.len(),
            k <= matrix.table@.len(),
            forall|q: int| 0 <= q < k ==> #[trigger] matrix.grid()[q][c as int] == 0,
        decreases matrix.table@.len() - k,
    {
        assert(matrix.grid()[k as int] == matrix.table@[k as int]@);
        if matrix.table[k][c] != 0 {
            return false;
        }
        k = k + 1;
    }
    true
}

/// Whether columns `c` and `d` hold the same cells.
fn columns_match(matrix: &Matrix, c: usize, d: usize) -> (r: bool)
    requires
        matrix.has_columns(),
        c < matrix.components@.len(),
        d < matrix.components@.len(),
    ensures
        r == same_column(matrix.grid(), c as int, d as int),
{
    let mut k: usize = 0;
    while k < matrix.table.len()
        invariant
            matrix.has_columns(),
            c < matrix.components@.len(),
            d < matrix.components@.len(),
            k <= matrix.table@.len(),
            forall|q: int|
                0 <= q < k ==> #[trigger] matrix.grid()[q][c as int] == matrix.grid()[q][d as int],
        decreases matrix.table@.len() - k,
    {
        assert(matrix.grid()[k as int] == matrix.table@[k as int]@);
        if matrix.table[k][c] != matrix.table[k][d] {
            return false;
        }
        k = k + 1;
    }
    true
}

/// The positions held in each cluster.
pub open spec fn cluster_positions(clusters: Seq<Vec<usize>>) -> Seq<Seq<int>> {
    clusters.map_values(|members: Vec<usize>| members@.map_values(|x: usize| x as int))
}

/// The columns after `i` whose cells are those of column `i`.
fn twin_list(matrix: &Matrix, i: usize) -> (twins: Vec<usize>)
    requires
        matrix.has_columns(),
        i < matrix.components@.len(),
    ensures
        twins@.map_values(|x: usize| x as int) == twin_columns(
            matrix.grid(),
            i as int,
            matrix.components@.len() as int,
        ),
        forall|k: int| 0 <= k < twins@.len() ==> i < #[trigger] twins@[k] < matrix.components@.len(),
{
    let n = matrix.components.len();
    let mut twins: Vec<usize> = Vec::new();
    let mut j: usize = i + 1;
    assert(twin_columns(matrix.grid(), i as int, j as int) =~= Seq::<int>::empty());
    while j < n
        invariant
            n == matrix.components@.len(),
            matrix.has_columns(),
            i < n,
            i + 1 <= j <= n,
            twins@.map_values(|x: usize| x as int) == twin_columns(matrix.grid(), i as int, j as int),
            forall|k: int| 0 <= k < twins@.len() ==> i < #[trigger] twins@[k] < j,
        decreases n - j,
    {
        if columns_match(matrix, i, j) {
            let ghost before = twins@;
            twins.push(j);
            assert(twins@.map_values(|x: usize| x as int) =~= before.map_values(|x: usize| x as int).push(
                j as int,
            ));
        }
        j = j + 1;
    }
    twins
}

/// The components at the given positions.
fn components_at<'a>(matrix: &'a Matrix, members: &Vec<usize>) -> (group: Vec<&'a Component>)
    requires
        forall|k: int| 0 <= k < members@.len() ==> #[trigger] members@[k] < matrix.components@.len(),
    ensures
        group@.len() == members@.len(),
        forall|k: int| 0 <= k < members@.len() ==> #[trigger] group@[k] == matrix.components@[members@[k] as int],
{
    let mut group: Vec<&Component> = Vec::new();
    let mut k: usize = 0;
    while k < members.len()
        invariant
            forall|q: int| 0 <= q < members@.len() ==> #[trigger] members@[q] < matrix.components@.len(),
            k <= members@.len(),
            group@.len() == k,
            forall|q: int| 0 <= q < k ==> #[trigger] group@[q] == matrix.components@[members@[q] as int],
        decreases members@.len() - k,
    {
        group.push(&matrix.components[members[k]]);
        k = k + 1;
    }
    group
}

/// Whether component `i` equals a component whose column holds only 0s.
fn equals_unstressed_at(matrix: &Matrix, zero: &Vec<bool>, i: usize) -> (r: bool)
    requires
        i < matrix.components@.len(),
        zero@.len() == matrix.components@.len(),
        forall|q: int| 0 <= q < zero@.len() ==> #[trigger] zero@[q] == zero_column(matrix.grid(), q),
    ensures
        r == equals_unstressed(*matrix, component_views(*matrix)[i as int]),
{
    let ghost views = component_views(*matrix);
    let n = matrix.components.len();
    let mut k: usize = 0;
    while k < n
        invariant
            n == matrix.components@.len(),
            views == component_views(*matrix),
            i < n,
            k <= n,
            zero@.len() == n,
            forall|q: int| 0 <= q < n ==> #[trigger] zero@[q] == zero_column(matrix.grid(), q),
            forall|q: int| 0 <= q < k && zero_column(matrix.grid(), q) ==> #[trigger] views[q] != views[i as int],
        decreases n - k,
    {
        if zero[k] && same_component(&matrix.components[k], &matrix.components[i]) {
            assert(views[k as int] == views[i as int]);
            return true;
        }
        k = k + 1;
    }
    false
}

/// Whether component `i` equals a member of one of the clusters.
fn equals_clustered_at(matrix: &Matrix, clusters: &Vec<Vec<usize>>, i: usize) -> (r: bool)
    requires
        i < matrix.components@.len(),
        forall|g: int, k: int|
            0 <= g < clusters@.len() && 0 <= k < clusters@[g]@.len() ==> #[trigger] clusters@[g]@[k]
                < matrix.components@.len(),
    ensures
        r == equals_clustered(*matrix, cluster_positions(clusters@), component_views(*matrix)[i as int]),
{
    let ghost views = component_views(*matrix);
    let ghost pos = cluster_positions(clusters@);
    let mut g: usize = 0;
    while g < clusters.len()
        invariant
            views == component_views(*matrix),
            pos == cluster_positions(clusters@),
            i < matrix.components@.len(),
            forall|g: int, k: int|
                0 <= g < clusters@.len() && 0 <= k < clusters@[g]@.len() ==> #[trigger] clusters@[g]@[k]
                    < matrix.components@.len(),
            g <= clusters@.len(),
            forall|h: int, k: int|
                0 <= h < g && 0 <= k < pos[h].len() ==> views[#[trigger] pos[h][k]] != views[i as int],
        decreases clusters@.len() - g,
    {
        let members = &clusters[g];
        let mut k: usize = 0;
        while k < members.len()
            invariant
                views == component_views(*matrix),
                pos == cluster_positions(clusters@),
                i < matrix.components@.len(),
                g < clusters@.len(),
                members == clusters@[g as int],
                forall|g: int, k: int|
                    0 <= g < clusters@.len() && 0 <= k < clusters@[g]@.len() ==> #[trigger] clusters@[g]@[k]
                        < matrix.components@.len(),
                k <= members@.len(),
                forall|q: int| 0 <= q < k ==> views[#[trigger] pos[g as int][q]] != views[i as int],
            decreases members@.len() - k,
        {
            let x = members[k];
            assert(pos[g as int][k as int] == x as int);
            if same_component(&matrix.components[x], &matrix.components[i]) {
                assert(views[pos[g as int][k as int]] == views[i as int]);
                return true;
            }
            k = k + 1;
        }
        g = g + 1;
    }
    false
}

/// The clusters of components whose columns are identical: components that
/// live and die together and so are candidates for a merge. Components
/// that no stressor touches form no cluster; each cluster is listed from its
/// first component, its members in their own order.
pub fn analyze_identical_responses_to_stress(matrix: &Matrix) -> (groups: Vec<Vec<&Component>>)
    requires
        matrix.has_columns(),
    ensures
        groups@.len() == merge_clusters(*matrix, matrix.components@.len() as int).len(),
        forall|g: int|
            0 <= g < groups@.len() ==> (#[trigger] groups@[g])@.len() == merge_clusters(
                *matrix,
                matrix.components@.len() as int,
            )[g].len(),
        forall|g: int, k: int|
            0 <= g < groups@.len() && 0 <= k < groups@[g]@.len() ==> #[trigger] groups@[g]@[k]
                == matrix.components@[merge_clusters(*matrix, matrix.components@.len() as int)[g][k]],
{
    let n = matrix.components.len();
    let mut zero: Vec<bool> = Vec::new();
    let mut c: usize = 0;
    while c < n
        invariant
            n == matrix.components@.len(),
            matrix.has_columns(),
            c <= n,
            zero@.len() == c,
            forall|q: int| 0 <= q < c ==> #[trigger] zero@[q] == zero_column(matrix.grid(), q),
        decreases n - c,
    {
        zero.push(column_is_zero(matrix, c));
        c = c + 1;
    }
    let mut clusters: Vec<Vec<usize>> = Vec::new();
    let mut groups: Vec<Vec<&Component>> = Vec::new();
    let mut i: usize = 0;
    while i < n
        invariant
            n == matrix.components@.len(),
            matrix.has_columns(),
            i <= n,
            zero@.len() == n,
            forall|q: int| 0 <= q < n ==> #[trigger] zero@[q] == zero_column(matrix.grid(), q),
            cluster_positions(clusters@) == merge_clusters(*matrix, i as int),
            forall|g: int, k: int|
                0 <= g < clusters@.len() && 0 <= k < clusters@[g]@.len() ==> #[trigger] clusters@[g]@[k]
                    < n,
            groups@.len() == clusters@.len(),
            forall|g: int| 0 <= g < groups@.len() ==> (#[trigger] groups@[g])@.len() == clusters@[g]@.len(),
            forall|g: int, k: int|
                0 <= g < groups@.len() && 0 <= k < groups@[g]@.len() ==> #[trigger] groups@[g]@[k]
                    == matrix.components@[clusters@[g]@[k] as int],
        decreases n - i,
    {
        let ghost before = merge_clusters(*matrix, i as int);
        let unstressed = equals_unstressed_at(matrix, &zero, i);
        let clustered = equals_clustered_at(matrix, &clusters, i);
        if !unstressed && !clustered {
            let twins = twin_list(matrix, i);
            if twins.len() > 0 {
                let ghost tw = twins@.map_values(|x: usize| x as int);
                let mut members = twins;
                members.insert(0, i);
                let ghost cluster = members@.map_values(|x: usize| x as int);
                assert(cluster =~= seq![i as int] + tw);
                assert forall|k: int| 0 <= k < members@.len() implies #[trigger] members@[k] < n by {
                    if k > 0 {
                        assert(members@[k] == twins@[k - 1]);
                    }
                }
                let group = components_at(matrix, &members);
                let ghost old_clusters = clusters@;
                clusters.push(members);
                groups.push(group);
                proof {
                    assert(merge_clusters(*matrix, i + 1) == before.push(cluster));
                    assert(cluster_positions(clusters@) =~= cluster_positions(old_clusters).push(cluster));
                }
            } else {
                assert(merge_clusters(*matrix, i + 1) == before);
            }
        } else {
            assert(merge_clusters(*matrix, i + 1) == before);
        }
        i = i + 1;
    }
    proof {
        let mc = merge_clusters(*matrix, n as int);
        assert forall|g: int, k: int|
            0 <= g < groups@.len() && 0 <= k < groups@[g]@.len() implies #[trigger] groups@[g]@[k]
            == matrix.components@[mc[g][k]] by {
            assert(mc[g] == cluster_positions(clusters@)[g]);
            assert(mc[g][k] == clusters@[g]@[k] as int);
        }
        assert forall|g: int| 0 <= g < groups@.len() implies (#[trigger] groups@[g])@.len() == mc[g].len() by {
            assert(mc[g] == cluster_positions(clusters@)[g]);
        }
    }
    groups
}

/// Whether some stressor acts on the component.
pub open spec fn stressed(stressors: Seq<Stressor>, c: Component) -> bool {
    exists|s: int| 0 <= s < stressors.len() && affects(#[trigger] stressors[s], c)
}

/// Among the first `upto` components, the positions of those that no
/// stressor acts on, in their order, each value once (where it first occurs).
pub open spec fn unstressed_upto(m: Matrix, upto: int) -> Seq<int>
    decreases upto,
{
    if upto <= 0 {
        Seq::empty()
    } else {
        let before = unstressed_upto(m, upto - 1);
        let i = upto - 1;
        if !stressed(m.stressors@, m.components@[i]) && !(exists|q: int|
            0 <= q < before.len() && component_views(m)[#[trigger] before[q]] == component_views(m)[i]) {
            before.push(i)
        } else {
            before
        }
    }
}

/// Whether some stressor names the component among those it acts on.
fn is_stressed(stressors: &Vec<Stressor>, c: &Component) -> (r: bool)
    ensures
        r == stressed(stressors@, *c),
{
    let mut k: usize = 0;
    while k < stressors.len()
        invariant
            k <= stressors@.len(),
            forall|q: int| 0 <= q < k ==> !affects(#[trigger] stressors@[q], *c),
        decreases stressors@.len() - k,
    {
        if stressors[k].affected_components.contains(&c.id) {
            assert(affects(stressors@[k as int], *c));
            return true;
        }
        k = k + 1;
    }
    false
}

/// The components that no stressor acts on, in their order, each value once.
pub fn analyze_unstressed_components(matrix: &Matrix) -> (untouched: Vec<&Component>)
    ensures
        untouched@.len() == unstressed_upto(*matrix, matrix.components@.len() as int).len(),
        forall|k: int|
            0 <= k < untouched@.len() ==> #[trigger] untouched@[k] == matrix.components@[unstressed_upto(
                *matrix,
                matrix.components@.len() as int,
            )[k]],
{
    let ghost views = component_views(*matrix);
    let n = matrix.components.len();
    let mut untouched: Vec<&Component> = Vec::new();
    let mut positions: Vec<usize> = Vec::new();
    let mut i: usize = 0;
    while i < n
        invariant
            n == matrix.components@.len(),
            views == component_views(*matrix),
            i <= n,
            positions@.map_values(|x: usize| x as int) == unstressed_upto(*matrix, i as int),
            untouched@.len() == positions@.len(),
            forall|k: int| 0 <= k < positions@.len() ==> #[trigger] positions@[k] < n,
            forall|k: int|
                0 <= k < untouched@.len() ==> #[trigger] untouched@[k] == matrix.components@[positions@[k] as int],
        decreases n - i,
    {
        let ghost before = unstressed_upto(*matrix, i as int);
        let c = &matrix.components[i];
        if !is_stressed(&matrix.stressors, c) {
            let mut seen = false;
            let mut k: usize = 0;
            while k < untouched.len()
                invariant
                    n == matrix.components@.len(),
                    views == component_views(*matrix),
                    i < n,
                    c == matrix.components@[i as int],
                    before == positions@.map_values(|x: usize| x as int),
                    untouched@.len() == positions@.len(),
                    forall|k: int| 0 <= k < positions@.len() ==> #[trigger] positions@[k] < n,
                    forall|k: int|
                        0 <= k < untouched@.len() ==> #[trigger] untouched@[k] == matrix.components@[positions@[k] as int],
                    k <= untouched@.len(),
                    seen == exists|q: int| 0 <= q < k && views[#[trigger] before[q]] == views[i as int],
                decreases untouched@.len() - k,
            {
                if same_component(untouched[k], c) {
                    assert(views[before[k as int]] == views[i as int]);
                    seen = true;
                }
                k = k + 1;
            }
            if !seen {
                let ghost old_positions = positions@;
                untouched.push(c);
                positions.push(i);
                assert(positions@.map_values(|x: usize| x as int) =~= old_positions.map_values(
                    |x: usize| x as int,
                ).push(i as int));
            } else {
                assert(unstressed_upto(*matrix, i + 1) == before);
            }
        } else {
            assert(unstressed_upto(*matrix, i + 1) == before);
        }
        i = i + 1;
    }
    untouched
}

proof fn lemma_ranked_unique(a: Seq<usize>, b: Seq<usize>, w: Seq<int>)
    requires
        forall|k: int, l: int| 0 <= k < l < a.len() ==> ranks_before(w, #[trigger] a[k] as int, #[trigger] a[l] as int),
        forall|k: int, l: int| 0 <= k < l < b.len() ==> ranks_before(w, #[trigger] b[k] as int, #[trigger] b[l] as int),
        a.to_set() == b.to_set(),
    ensures
        a == b,
    decreases a.len() + b.len(),
{
    if a.len() == 0 || b.len() == 0 {
        if a.len() > 0 {
            assert(a.to_set().contains(a[0]));
        }
        if b.len() > 0 {
            assert(b.to_set().contains(b[0]));
        }
        assert(a =~= b);
    } else {
        assert(a.to_set().contains(a[0]));
        assert(b.to_set().contains(b[0]));
        let j = choose|j: int| 0 <= j < b.len() && b[j] == a[0];
        let i = choose|i: int| 0 <= i < a.len() && a[i] == b[0];
        if j > 0 {
            assert(ranks_before(w, b[0] as int, b[j] as int));
            if i > 0 {
                assert(ranks_before(w, a[0] as int, a[i] as int));
            }
        }
        assert(a[0] == b[0]);
        let a2 = a.drop_first();
        let b2 = b.drop_first();
        assert forall|x: usize| a2.to_set().contains(x) <==> b2.to_set().contains(x) by {
            if a2.to_set().contains(x) {
                let p = choose|p: int| 0 <= p < a2.len() && a2[p] == x;
                assert(a[p + 1] == x);
                assert(ranks_before(w, a[0] as int, a[p + 1] as int));
                assert(b.to_set().contains(x));
                let q = choose|q: int| 0 <= q < b.len() && b[q] == x;
                if q > 0 {
                    assert(b2[q - 1] == x);
                }
            }
            if b2.to_set().contains(x) {
                let p = choose|p: int| 0 <= p < b2.len() && b2[p] == x;
                assert(b[p + 1] == x);
                assert(ranks_before(w, b[0] as int, b[p + 1] as int));
                assert(a.to_set().contains(x));
                let q = choose|q: int| 0 <= q < a.len() && a[q] == x;
                if q > 0 {
                    assert(a2[q - 1] == x);
                }
            }
        }
        assert(a2.to_set() =~= b2.to_set());
        assert forall|k: int, l: int| 0 <= k < l < a2.len() implies ranks_before(w, #[trigger] a2[k] as int, #[trigger] a2[l] as int) by {
            assert(a2[k] == a[k + 1] && a2[l] == a[l + 1]);
        }
        assert forall|k: int, l: int| 0 <= k < l < b2.len() implies ranks_before(w, #[trigger] b2[k] as int, #[trigger] b2[l] as int) by {
            assert(b2[k] == b[k + 1] && b2[l] == b[l + 1]);
        }
        lemma_ranked_unique(a2, b2, w);
        assert(a =~= seq![a[0]] + a2);
        assert(b =~= seq![b[0]] + b2);
    }
}

/// There is one ranking of the selected positions: the ranking that the
/// analyses report is determined by the counts and the selection.
pub proof fn lemma_ranking_unique(a: Seq<usize>, b: Seq<usize>, w: Seq<int>, keep: Seq<bool>)
    requires
        keep.len() == w.len(),
        is_ranking(a, w, keep),
        is_ranking(b, w, keep),
    ensures
        a == b,
{
    assert forall|x: usize| a.to_set().contains(x) <==> b.to_set().contains(x) by {
        if a.to_set().contains(x) {
            let k = choose|k: int| 0 <= k < a.len() && a[k] == x;
            assert(a[k] < w.len() && keep[a[k] as int]);
            assert(b.contains(x as int as usize));
        }
        if b.to_set().contains(x) {
            let k = choose|k: int| 0 <= k < b.len() && b[k] == x;
            assert(b[k] < w.len() && keep[b[k] as int]);
            assert(a.contains(x as int as usize));
        }
    }
    assert(a.to_set() =~= b.to_set());
    lemma_ranked_unique(a, b, w);
}

/// The untouched components among the first `upto`: each listed position
/// is a component that no stressor lists among the ids it affects; every
/// component that no stressor lists is listed, itself or an equal component
/// before it; the positions ascend and no two listed components are equal.
pub proof fn lemma_untouched_are_the_unlisted_components(m: Matrix, upto: int)
    requires
        0 <= upto <= m.components@.len(),
    ensures
        forall|k: int| 0 <= k < unstressed_upto(m, upto).len() ==> {
            let i = #[trigger] unstressed_upto(m, upto)[k];
            &&& 0 <= i < upto
            &&& forall|s: int|
                0 <= s < m.stressors@.len() ==> !(#[trigger] m.stressors@[s]).affected_components@.contains(
                    m.components@[i].id@,
                )
        },
        forall|i: int|
            #![trigger m.components@[i]]
            0 <= i < upto && (forall|s: int|
                0 <= s < m.stressors@.len() ==> !(#[trigger] m.stressors@[s]).affected_components@.contains(
                    m.components@[i].id@,
                )) ==> exists|k: int|
                0 <= k < unstressed_upto(m, upto).len() && m.components@[#[trigger] unstressed_upto(m, upto)[k]]@
                    == m.components@[i]@,
        forall|k: int, l: int|
            0 <= k < l < unstressed_upto(m, upto).len() ==> #[trigger] unstressed_upto(m, upto)[k]
                < #[trigger] unstressed_upto(m, upto)[l] && m.components@[unstressed_upto(m, upto)[k]]@
                != m.components@[unstressed_upto(m, upto)[l]]@,
    decreases upto,
{
    if upto > 0 {
        lemma_untouched_are_the_unlisted_components(m, upto - 1);
        let before = unstressed_upto(m, upto - 1);
        let u = unstressed_upto(m, upto);
        let i0 = upto - 1;
        let views = component_views(m);
        assert forall|q: int| 0 <= q < before.len() implies views[#[trigger] before[q]] == m.components@[before[q]]@ by {
        }
        assert(views[i0] == m.components@[i0]@);
        if !stressed(m.stressors@, m.components@[i0]) && !(exists|q: int|
            0 <= q < before.len() && views[#[trigger] before[q]] == views[i0]) {
            assert(u == before.push(i0));
            assert forall|k: int| 0 <= k < u.len() implies {
                let i = #[trigger] u[k];
                &&& 0 <= i < upto
                &&& forall|s: int|
                    0 <= s < m.stressors@.len() ==> !(#[trigger] m.stressors@[s]).affected_components@.contains(
                        m.components@[i].id@,
                    )
            } by {
                if k < before.len() {
                    assert(u[k] == before[k]);
                } else {
                    assert(u[k] == i0);
                    assert forall|s: int| 0 <= s < m.stressors@.len() implies !(
                    #[trigger] m.stressors@[s]).affected_components@.contains(m.components@[i0].id@) by {
                        assert(!affects(m.stressors@[s], m.components@[i0]));
                    }
                }
            }
            assert forall|i: int|
                #![trigger m.components@[i]]
                0 <= i < upto && (forall|s: int|
                    0 <= s < m.stressors@.len() ==> !(#[trigger] m.stressors@[s]).affected_components@.contains(
                        m.components@[i].id@,
                    )) implies exists|k: int|
                0 <= k < u.len() && m.components@[#[trigger] u[k]]@ == m.components@[i]@ by {
                if i < i0 {
                    let k = choose|k: int|
                        0 <= k < before.len() && m.components@[#[trigger] before[k]]@ == m.components@[i]@;
                    assert(u[k] == before[k]);
                } else {
                    assert(u[before.len() as int] == i0);
                }
            }
            assert forall|k: int, l: int|
                0 <= k < l < u.len() implies #[trigger] u[k] < #[trigger] u[l] && m.components@[u[k]]@
                != m.components@[u[l]]@ by {
                assert(u[k] == before[k]);
                if l < before.len() {
                    assert(u[l] == before[l]);
                } else {
                    assert(u[l] == i0);
                    assert(views[before[k]] != views[i0]);
                }
            }
        } else {
            assert(u == before);
            assert forall|i: int|
                #![trigger m.components@[i]]
                0 <= i < upto && (forall|s: int|
                    0 <= s < m.stressors@.len() ==> !(#[trigger] m.stressors@[s]).affected_components@.contains(
                        m.components@[i].id@,
                    )) implies exists|k: int|
                0 <= k < u.len() && m.components@[#[trigger] u[k]]@ == m.components@[i]@ by {
                if i == i0 {
                    if stressed(m.stressors@, m.components@[i0]) {
                        let s = choose|s: int|
                            0 <= s < m.stressors@.len() && affects(#[trigger] m.stressors@[s], m.components@[i0]);
                        assert(!m.stressors@[s].affected_components@.contains(m.components@[i0].id@));
                    }
                    let q = choose|q: int| 0 <= q < before.len() && views[#[trigger] before[q]] == views[i0];
                    assert(u[q] == before[q]);
                }
            }
        }
    }
}

proof fn lemma_column_ones_zero(grid: Seq<Seq<u32>>, c: int)
    ensures
        column_ones(grid, c) == 0 <==> forall|r: int| 0 <= r < grid.len() ==> #[trigger] grid[r][c] != 1,
    decreases grid.len(),
{
    if grid.len() > 0 {
        let init = grid.drop_last();
        lemma_column_ones_zero(init, c);
        assert(grid.last() == grid[grid.len() - 1]);
        if column_ones(grid, c) == 0 {
            assert forall|r: int| 0 <= r < grid.len() implies #[trigger] grid[r][c] != 1 by {
                if r < grid.len() - 1 {
                    assert(init[r] == grid[r]);
                    assert(init[r][c] != 1);
                }
            }
        }
        if forall|r: int| 0 <= r < grid.len() ==> #[trigger] grid[r][c] != 1 {
            assert forall|r: int| 0 <= r < init.len() implies #[trigger] init[r][c] != 1 by {
                assert(init[r] == grid[r]);
                assert(grid[r][c] != 1);
            }
            assert(grid[grid.len() - 1][c] != 1);
        }
    }
}

/// In an incidence matrix, the components that no stressor acts on are
/// exactly those whose column holds only 0s, that is whose column total is 0.
pub proof fn lemma_unstressed_iff_empty_column(m: Matrix, c: int)
    requires
        is_incidence_matrix(m),
        0 <= c < m.components@.len(),
    ensures
        !stressed(m.stressors@, m.components@[c]) <==> zero_column(m.grid(), c),
        zero_column(m.grid(), c) <==> column_ones(m.grid(), c) == 0,
{
    let grid = m.grid();
    lemma_column_ones_zero(grid, c);
    assert forall|r: int| 0 <= r < grid.len() implies (#[trigger] grid[r][c] == 0) <==> !affects(
        m.stressors@[r],
        m.components@[c],
    ) by {
        assert(grid[r] == m.table@[r]@);
    }
    if stressed(m.stressors@, m.components@[c]) {
        let s = choose|s: int| 0 <= s < m.stressors@.len() && affects(#[trigger] m.stressors@[s], m.components@[c]);
        assert(grid[s][c] == 1);
    }
    if !zero_column(grid, c) {
        let r = choose|r: int| 0 <= r < grid.len() && #[trigger] grid[r][c] != 0;
        assert(affects(m.stressors@[r], m.components@[c]));
    }
}

/// The sum of `f` over `0..n`.
pub open spec fn sum_to(n: int, f: spec_fn(int) -> int) -> int
    decreases n,
{
    if n <= 0 {
        0
    } else {
        sum_to(n - 1, f) + f(n - 1)
    }
}

proof fn lemma_total_is_sum(n: int, f: spec_fn(int) -> int)
    requires
        n >= 0,
    ensures
        total(Seq::new(n as nat, f)) == sum_to(n, f),
    decreases n,
{
    if n > 0 {
        assert(Seq::new(n as nat, f).drop_last() =~= Seq::new((n - 1) as nat, f));
        lemma_total_is_sum(n - 1, f);
    }
}

proof fn lemma_sum_split(n: int, f: spec_fn(int) -> int, g: spec_fn(int) -> int, h: spec_fn(int) -> int)
    requires
        forall|c: int| 0 <= c < n ==> #[trigger] f(c) == g(c) + h(c),
    ensures
        sum_to(n, f) == sum_to(n, g) + sum_to(n, h),
    decreases n,
{
    if n > 0 {
        lemma_sum_split(n - 1, f, g, h);
    }
}

proof fn lemma_ones_as_sum(row: Seq<u32>)
    ensures
        ones(row) == sum_to(row.len() as int, |c: int| if row[c] == 1 { 1int } else { 0int }),
    decreases row.len(),
{
    if row.len() > 0 {
        let init = row.drop_last();
        lemma_ones_as_sum(init);
        let f = |c: int| if row[c] == 1 { 1int } else { 0int };
        let g = |c: int| if init[c] == 1 { 1int } else { 0int };
        lemma_sum_ext(init.len() as int, f, g);
        assert(row.last() == row[row.len() - 1]);
    }
}

proof fn lemma_sum_ext(n: int, f: spec_fn(int) -> int, g: spec_fn(int) -> int)
    requires
        forall|c: int| 0 <= c < n ==> #[trigger] f(c) == g(c),
    ensures
        sum_to(n, f) == sum_to(n, g),
    decreases n,
{
    if n > 0 {
        lemma_sum_ext(n - 1, f, g);
    }
}

proof fn lemma_rows_columns_total(grid: Seq<Seq<u32>>, n: int)
    requires
        n >= 0,
        forall|r: int| 0 <= r < grid.len() ==> (#[trigger] grid[r]).len() == n,
    ensures
        sum_to(grid.len() as int, |r: int| ones(grid[r]) as int) == sum_to(
            n,
            |c: int| column_ones(grid, c) as int,
        ),
    decreases grid.len(),
{
    if grid.len() == 0 {
        lemma_sum_ext(n, |c: int| column_ones(grid, c) as int, |c: int| 0int);
        lemma_sum_zero(n);
    } else {
        let init = grid.drop_last();
        let last = grid[grid.len() - 1];
        assert forall|r: int| 0 <= r < init.len() implies (#[trigger] init[r]).len() == n by {
            assert(init[r] == grid[r]);
        }
        lemma_rows_columns_total(init, n);
        lemma_sum_ext(
            init.len() as int,
            |r: int| ones(grid[r]) as int,
            |r: int| ones(init[r]) as int,
        );
        lemma_sum_split(
            n,
            |c: int| column_ones(grid, c) as int,
            |c: int| column_ones(init, c) as int,
            |c: int| if last[c] == 1 { 1int } else { 0int },
        );
        lemma_ones_as_sum(last);
    }
}

proof fn lemma_sum_zero(n: int)
    ensures
        sum_to(n, |c: int| 0int) == 0,
    decreases n,
{
    if n > 0 {
        lemma_sum_zero(n - 1);
    }
}

/// Every link of a well-formed matrix is counted once by the row totals and
/// once by the column totals: both sum to the number of links.
pub proof fn lemma_row_and_column_totals_agree(m: Matrix)
    requires
        forall|r: int| 0 <= r < m.table@.len() ==> (#[trigger] m.table@[r])@.len() == m.components@.len(),
    ensures
        total(row_counts(m)) == total(column_counts(m)),
{
    let grid = m.grid();
    let n = m.components@.len() as int;
    assert forall|r: int| 0 <= r < grid.len() implies (#[trigger] grid[r]).len() == n by {
        assert(grid[r] == m.table@[r]@);
    }
    lemma_rows_columns_total(grid, n);
    assert(row_counts(m) =~= Seq::new(grid.len(), |r: int| ones(grid[r]) as int));
    assert(column_counts(m) =~= Seq::new(n as nat, |c: int| column_ones(grid, c) as int));
    lemma_total_is_sum(grid.len() as int, |r: int| ones(grid[r]) as int);
    lemma_total_is_sum(n, |c: int| column_ones(grid, c) as int);
}

/// Whether some component has the id.
pub open spec fn names_component(components: Seq<Component>, id: Seq<char>) -> bool {
    exists|c: int| 0 <= c < components.len() && #[trigger] components[c].id@ == id
}

/// The number of ids of a list that name a component.
pub open spec fn named_count(ids: Seq<Seq<char>>, components: Seq<Component>) -> nat
    decreases ids.len(),
{
    if ids.len() == 0 {
        0
    } else {
        named_count(ids.drop_last(), components) + if names_component(components, ids.last()) {
            1nat
        } else {
            0nat
        }
    }
}

/// Whether no two components share an id.
pub open spec fn distinct_component_ids(components: Seq<Component>) -> bool {
    forall|i: int, j: int|
        0 <= i < components.len() && 0 <= j < components.len() && i != j ==> #[trigger] components[i].id@
            != #[trigger] components[j].id@
}

proof fn lemma_id_indicator_sum(components: Seq<Component>, x: Seq<char>, k: int)
    requires
        distinct_component_ids(components),
        0 <= k <= components.len(),
    ensures
        sum_to(k, |c: int| if components[c].id@ == x { 1int } else { 0int }) == if exists|c: int|
            0 <= c < k && #[trigger] components[c].id@ == x {
            1int
        } else {
            0int
        },
    decreases k,
{
    if k > 0 {
        lemma_id_indicator_sum(components, x, k - 1);
        if components[k - 1].id@ == x {
            assert forall|c: int| 0 <= c < k - 1 implies #[trigger] components[c].id@ != x by {
                assert(components[c].id@ != components[k - 1].id@);
            }
        } else {
            if exists|c: int| 0 <= c < k && #[trigger] components[c].id@ == x {
                let c = choose|c: int| 0 <= c < k && #[trigger] components[c].id@ == x;
                assert(0 <= c < k - 1 && components[c].id@ == x);
            }
        }
    }
}

proof fn lemma_named_sum(ids: Seq<Seq<char>>, components: Seq<Component>)
    requires
        ascending(ids),
        distinct_component_ids(components),
    ensures
        sum_to(
            components.len() as int,
            |c: int| if ids.contains(components[c].id@) { 1int } else { 0int },
        ) == named_count(ids, components),
    decreases ids.len(),
{
    let n = components.len() as int;
    let f = |c: int| if ids.contains(components[c].id@) { 1int } else { 0int };
    if ids.len() == 0 {
        lemma_sum_ext(n, f, |c: int| 0int);
        lemma_sum_zero(n);
    } else {
        let init = ids.drop_last();
        let x = ids.last();
        assert forall|i: int, j: int| 0 <= i < j < init.len() implies text_lt(
            #[trigger] init[i],
            #[trigger] init[j],
        ) by {
            assert(init[i] == ids[i] && init[j] == ids[j]);
        }
        lemma_named_sum(init, components);
        let g = |c: int| if init.contains(components[c].id@) { 1int } else { 0int };
        let h = |c: int| if components[c].id@ == x { 1int } else { 0int };
        assert forall|c: int| 0 <= c < n implies #[trigger] f(c) == g(c) + h(c) by {
            let y = components[c].id@;
            if init.contains(y) {
                let i = choose|i: int| 0 <= i < init.len() && init[i] == y;
                assert(ids[i] == y);
                assert(text_lt(ids[i], ids[ids.len() - 1]));
                lemma_text_lt_irreflexive(y);
                assert(ids.contains(y));
            }
            if y == x {
                assert(ids[ids.len() - 1] == y);
                assert(ids.contains(y));
            }
            if ids.contains(y) {
                let i = choose|i: int| 0 <= i < ids.len() && ids[i] == y;
                if i < ids.len() - 1 {
                    assert(init[i] == y);
                }
            }
        }
        lemma_sum_split(n, f, g, h);
        lemma_id_indicator_sum(components, x, n);
    }
}

/// In an incidence matrix whose components have distinct ids, the total of
/// a stressor's row is the number of ids the stressor lists that name a
/// component: an id that names no component is not counted.
pub proof fn lemma_row_total_counts_named_ids(m: Matrix, r: int)
    requires
        is_incidence_matrix(m),
        distinct_component_ids(m.components@),
        0 <= r < m.stressors@.len(),
        ascending(m.stressors@[r].affected_components@),
    ensures
        ones(m.grid()[r]) == named_count(m.stressors@[r].affected_components@, m.components@),
{
    let row = m.grid()[r];
    let ids = m.stressors@[r].affected_components@;
    let comps = m.components@;
    let n = comps.len() as int;
    assert(row == m.table@[r]@);
    lemma_ones_as_sum(row);
    let f = |c: int| if row[c] == 1 { 1int } else { 0int };
    let g = |c: int| if ids.contains(comps[c].id@) { 1int } else { 0int };
    assert forall|c: int| 0 <= c < n implies #[trigger] f(c) == g(c) by {
        assert(m.grid()[r][c] == if affects(m.stressors@[r], comps[c]) {
            1u32
        } else {
            0u32
        });
    }
    lemma_sum_ext(n, f, g);
    lemma_named_sum(ids, comps);
}

proof fn lemma_twin_columns(grid: Seq<Seq<u32>>, i: int, upto: int)
    ensures
        forall|k: int| 0 <= k < twin_columns(grid, i, upto).len() ==> i < #[trigger] twin_columns(grid, i, upto)[k] < upto
            && same_column(grid, i, twin_columns(grid, i, upto)[k]),
        forall|k: int, l: int|
            0 <= k < l < twin_columns(grid, i, upto).len() ==> #[trigger] twin_columns(grid, i, upto)[k]
                < #[trigger] twin_columns(grid, i, upto)[l],
        forall|j: int| i < j < upto && same_column(grid, i, j) ==> #[trigger] twin_columns(grid, i, upto).contains(j),
    decreases upto - i,
{
    if upto > i + 1 {
        lemma_twin_columns(grid, i, upto - 1);
        let before = twin_columns(grid, i, upto - 1);
        if same_column(grid, i, upto - 1) {
            assert(twin_columns(grid, i, upto) == before.push(upto - 1));
            assert forall|j: int| i < j < upto && same_column(grid, i, j) implies #[trigger] twin_columns(grid, i, upto).contains(j) by {
                if j == upto - 1 {
                    assert(before.push(upto - 1)[before.len() as int] == j);
                } else {
                    assert(before.contains(j));
                    let k = choose|k: int| 0 <= k < before.len() && before[k] == j;
                    assert(before.push(upto - 1)[k] == j);
                }
            }
        }
    }
}

/// The properties that each step of the clustering keeps.
pub open spec fn clusters_sound(m: Matrix, clusters: Seq<Seq<int>>, upto: int) -> bool {
    let grid = m.grid();
    let n = m.components@.len() as int;
    &&& forall|g: int|
        0 <= g < clusters.len() ==> {
            let cl = #[trigger] clusters[g];
            &&& cl.len() >= 2
            &&& 0 <= cl[0] < upto
            &&& cl == seq![cl[0]] + twin_columns(grid, cl[0], n)
            &&& !zero_column(grid, cl[0])
        }
    &&& forall|g: int, h: int, a: int, b: int|
        0 <= g < clusters.len() && 0 <= h < clusters.len() && g != h && 0 <= a < clusters[g].len()
            && 0 <= b < clusters[h].len() ==> #[trigger] clusters[g][a] != #[trigger] clusters[h][b]
}

proof fn lemma_merge_clusters_sound(m: Matrix, upto: int)
    requires
        0 <= upto <= m.components@.len(),
    ensures
        clusters_sound(m, merge_clusters(m, upto), upto),
    decreases upto,
{
    if upto > 0 {
        let grid = m.grid();
        let n = m.components@.len() as int;
        let before = merge_clusters(m, upto - 1);
        lemma_merge_clusters_sound(m, upto - 1);
        let i = upto - 1;
        let v = component_views(m)[i];
        if !(equals_unstressed(m, v) || equals_clustered(m, before, v)) {
            let twins = twin_columns(grid, i, n);
            if twins.len() > 0 {
                lemma_twin_columns(grid, i, n);
                let cl = seq![i] + twins;
                let after = before.push(cl);
                assert(merge_clusters(m, upto) == after);
                if zero_column(grid, i) {
                    assert(component_views(m)[i] == v);
                    assert(equals_unstressed(m, v));
                }
                assert(cl[0] == i);
                assert(cl =~= seq![cl[0]] + twin_columns(grid, cl[0], n));
                // No earlier cluster holds a member of the new one.
                assert forall|h: int, b: int| 0 <= h < before.len() && 0 <= b < before[h].len() implies !cl.contains(
                    #[trigger] before[h][b],
                ) by {
                    let x = before[h][b];
                    let s = before[h][0];
                    let old_twins = twin_columns(grid, s, n);
                    lemma_twin_columns(grid, s, n);
                    if x == i {
                        assert(component_views(m)[before[h][b]] == v);
                        assert(equals_clustered(m, before, v));
                    } else if cl.contains(x) {
                        let k = choose|k: int| 0 <= k < cl.len() && cl[k] == x;
                        assert(twins[k - 1] == x);
                        assert(same_column(grid, i, x));
                        if b == 0 {
                            assert(x == s);
                            assert(s < i);
                        } else {
                            assert(before[h][b] == old_twins[b - 1]);
                            assert(same_column(grid, s, x));
                        }
                        assert(same_column(grid, s, x));
                        assert(s < i);
                        assert forall|r: int| 0 <= r < grid.len() implies #[trigger] grid[r][s] == grid[r][i] by {
                            assert(grid[r][s] == grid[r][x]);
                            assert(grid[r][i] == grid[r][x]);
                        }
                        assert(same_column(grid, s, i));
                        assert(old_twins.contains(i));
                        let q = choose|q: int| 0 <= q < old_twins.len() && old_twins[q] == i;
                        assert(before[h][q + 1] == i);
                        assert(component_views(m)[before[h][q + 1]] == v);
                        assert(equals_clustered(m, before, v));
                    }
                }
                assert forall|g: int, h: int, a: int, b: int|
                    0 <= g < after.len() && 0 <= h < after.len() && g != h && 0 <= a < after[g].len() && 0
                        <= b < after[h].len() implies #[trigger] after[g][a] != #[trigger] after[h][b] by {
                    if g == before.len() as int {
                        assert(after[g] == cl);
                        assert(after[h] == before[h]);
                        assert(!cl.contains(before[h][b]));
                    } else if h == before.len() as int {
                        assert(after[h] == cl);
                        assert(after[g] == before[g]);
                        assert(!cl.contains(before[g][a]));
                    } else {
                        assert(after[g] == before[g] && after[h] == before[h]);
                    }
                }
                assert forall|g: int| 0 <= g < after.len() implies {
                    let c2 = #[trigger] after[g];
                    &&& c2.len() >= 2
                    &&& 0 <= c2[0] < upto
                    &&& c2 == seq![c2[0]] + twin_columns(grid, c2[0], n)
                    &&& !zero_column(grid, c2[0])
                } by {
                    if g < before.len() {
                        assert(after[g] == before[g]);
                    }
                }
            }
        }
    }
}

/// The merge candidates are sound: each cluster has at least two members,
/// listed in ascending order; every member's column equals that of the
/// first member and holds a 1 somewhere (no cluster is made of untouched
/// components); and no component lies in two clusters.
pub proof fn lemma_merge_candidates_sound(m: Matrix)
    ensures
        forall|g: int|
            0 <= g < merge_clusters(m, m.components@.len() as int).len() ==> {
                let cl = #[trigger] merge_clusters(m, m.components@.len() as int)[g];
                &&& cl.len() >= 2
                &&& forall|k: int, l: int| 0 <= k < l < cl.len() ==> 0 <= #[trigger] cl[k] < #[trigger] cl[l] < m.components@.len()
                &&& forall|k: int| 0 <= k < cl.len() ==> same_column(m.grid(), cl[0], #[trigger] cl[k])
                    && !zero_column(m.grid(), cl[k])
            },
        forall|g: int, h: int, a: int, b: int|
            0 <= g < merge_clusters(m, m.components@.len() as int).len() && 0 <= h < merge_clusters(
                m,
                m.components@.len() as int,
            ).len() && g != h && 0 <= a < merge_clusters(m, m.components@.len() as int)[g].len() && 0
                <= b < merge_clusters(m, m.components@.len() as int)[h].len() ==> #[trigger] merge_clusters(
                m,
                m.components@.len() as int,
            )[g][a] != #[trigger] merge_clusters(m, m.components@.len() as int)[h][b],
{
    let n = m.components@.len() as int;
    let grid = m.grid();
    let mc = merge_clusters(m, n);
    lemma_merge_clusters_sound(m, n);
    assert forall|g: int| 0 <= g < mc.len() implies {
        let cl = #[trigger] mc[g];
        &&& cl.len() >= 2
        &&& forall|k: int, l: int| 0 <= k < l < cl.len() ==> 0 <= #[trigger] cl[k] < #[trigger] cl[l] < n
        &&& forall|k: int| 0 <= k < cl.len() ==> same_column(grid, cl[0], #[trigger] cl[k]) && !zero_column(grid, cl[k])
    } by {
        let cl = mc[g];
        let s = cl[0];
        let tw = twin_columns(grid, s, n);
        lemma_twin_columns(grid, s, n);
        assert(cl == seq![s] + tw);
        assert forall|k: int, l: int| 0 <= k < l < cl.len() implies 0 <= #[trigger] cl[k] < #[trigger] cl[l] < n by {
            if k > 0 {
                assert(cl[k] == tw[k - 1] && cl[l] == tw[l - 1]);
            } else {
                assert(cl[l] == tw[l - 1]);
            }
        }
        assert forall|k: int| 0 <= k < cl.len() implies same_column(grid, s, #[trigger] cl[k]) && !zero_column(grid, cl[k]) by {
            if k > 0 {
                assert(cl[k] == tw[k - 1]);
            }
            if zero_column(grid, cl[k]) {
                assert forall|r: int| 0 <= r < grid.len() implies #[trigger] grid[r][s] == 0 by {
                    assert(grid[r][s] == grid[r][cl[k]]);
                }
            }
        }
    }
}

/// Whether pair `p` comes before pair `q`: by first component, then second.
pub open spec fn pair_before(p: (int, int), q: (int, int)) -> bool {
    p.0 < q.0 || (p.0 == q.0 && p.1 < q.1)
}

/// Whether `pairs` lists, in order and each once, exactly the pairs
/// `(i, j)` with `i < upto`, `i < j < n` whose columns share a 1.
pub open spec fn lists_linked_pairs(grid: Seq<Seq<u32>>, pairs: Seq<(int, int)>, upto: int, n: int) -> bool {
    &&& forall|k: int| 0 <= k < pairs.len() ==> {
        let p = #[trigger] pairs[k];
        &&& 0 <= p.0 < upto
        &&& p.0 < p.1 < n
        &&& pair_ones(grid, p.0, p.1) > 0
    }
    &&& forall|k: int, l: int| 0 <= k < l < pairs.len() ==> pair_before(#[trigger] pairs[k], #[trigger] pairs[l])
    &&& forall|i: int, j: int|
        0 <= i < upto && i < j < n && pair_ones(grid, i, j) > 0 ==> #[trigger] pairs.contains((i, j))
}

proof fn lemma_linked_with(grid: Seq<Seq<u32>>, i: int, upto: int)
    requires
        0 <= i,
    ensures
        forall|k: int| 0 <= k < linked_with(grid, i, upto).len() ==> {
            let p = #[trigger] linked_with(grid, i, upto)[k];
            &&& p.0 == i
            &&& i < p.1 < upto
            &&& pair_ones(grid, p.0, p.1) > 0
        },
        forall|k: int, l: int|
            0 <= k < l < linked_with(grid, i, upto).len() ==> (#[trigger] linked_with(grid, i, upto)[k]).1
                < (#[trigger] linked_with(grid, i, upto)[l]).1,
        forall|j: int| i < j < upto && pair_ones(grid, i, j) > 0 ==> #[trigger] linked_with(grid, i, upto).contains((i, j)),
    decreases upto - i,
{
    if upto > i + 1 {
        lemma_linked_with(grid, i, upto - 1);
        let before = linked_with(grid, i, upto - 1);
        if pair_ones(grid, i, upto - 1) > 0 {
            let after = before.push((i, upto - 1));
            assert(linked_with(grid, i, upto) == after);
            assert forall|j: int| i < j < upto && pair_ones(grid, i, j) > 0 implies #[trigger] after.contains((i, j)) by {
                if j == upto - 1 {
                    assert(after[before.len() as int] == (i, j));
                } else {
                    assert(before.contains((i, j)));
                    let k = choose|k: int| 0 <= k < before.len() && before[k] == (i, j);
                    assert(after[k] == (i, j));
                }
            }
        }
    }
}

proof fn lemma_linked_pairs(grid: Seq<Seq<u32>>, upto: int, n: int)
    requires
        0 <= upto,
    ensures
        lists_linked_pairs(grid, linked_pairs(grid, upto, n), upto, n),
    decreases upto,
{
    if upto > 0 {
        lemma_linked_pairs(grid, upto - 1, n);
        lemma_linked_with(grid, upto - 1, n);
        let a = linked_pairs(grid, upto - 1, n);
        let b = linked_with(grid, upto - 1, n);
        let all = a + b;
        assert(linked_pairs(grid, upto, n) == all);
        assert forall|k: int| 0 <= k < all.len() implies {
            let p = #[trigger] all[k];
            &&& 0 <= p.0 < upto
            &&& p.0 < p.1 < n
            &&& pair_ones(grid, p.0, p.1) > 0
        } by {
            if k < a.len() {
                assert(all[k] == a[k]);
            } else {
                assert(all[k] == b[k - a.len()]);
            }
        }
        assert forall|k: int, l: int| 0 <= k < l < all.len() implies pair_before(#[trigger] all[k], #[trigger] all[l]) by {
            if l < a.len() {
                assert(all[k] == a[k] && all[l] == a[l]);
            } else if k < a.len() {
                assert(all[k] == a[k] && all[l] == b[l - a.len()]);
            } else {
                assert(all[k] == b[k - a.len()] && all[l] == b[l - a.len()]);
            }
        }
        assert forall|i: int, j: int| 0 <= i < upto && i < j < n && pair_ones(grid, i, j) > 0 implies #[trigger] all.contains((i, j)) by {
            if i < upto - 1 {
                assert(a.contains((i, j)));
                let k = choose|k: int| 0 <= k < a.len() && a[k] == (i, j);
                assert(all[k] == (i, j));
            } else {
                assert(b.contains((i, j)));
                let k = choose|k: int| 0 <= k < b.len() && b[k] == (i, j);
                assert(all[a.len() + k] == (i, j));
            }
        }
    }
}

/// The coupled pairs are exactly the pairs of components `(i, j)`, `i < j`,
/// that at least one row marks with 1 in both columns, each listed once, by
/// first component and then second.
pub proof fn lemma_coupled_pairs_are_shared(m: Matrix)
    ensures
        lists_linked_pairs(m.grid(), coupled_pairs(m), m.components@.len() as int, m.components@.len() as int),
{
    lemma_linked_pairs(m.grid(), m.components@.len() as int, m.components@.len() as int);
}

/// The number of stressors that act on both components.
pub open spec fn shared_stressors(stressors: Seq<Stressor>, a: Component, b: Component) -> nat
    decreases stressors.len(),
{
    if stressors.len() == 0 {
        0
    } else {
        shared_stressors(stressors.drop_last(), a, b) + if affects(stressors.last(), a) && affects(
            stressors.last(),
            b,
        ) {
            1nat
        } else {
            0nat
        }
    }
}

proof fn lemma_pair_ones_shared(m: Matrix, i: int, j: int, upto: int)
    requires
        is_incidence_matrix(m),
        0 <= i < m.components@.len(),
        0 <= j < m.components@.len(),
        0 <= upto <= m.stressors@.len(),
    ensures
        pair_ones(m.grid().take(upto), i, j) == shared_stressors(
            m.stressors@.take(upto),
            m.components@[i],
            m.components@[j],
        ),
    decreases upto,
{
    if upto > 0 {
        lemma_pair_ones_shared(m, i, j, upto - 1);
        assert(m.grid().take(upto).drop_last() =~= m.grid().take(upto - 1));
        assert(m.stressors@.take(upto).drop_last() =~= m.stressors@.take(upto - 1));
        assert(m.grid().take(upto).last() == m.grid()[upto - 1]);
        assert(m.grid()[upto - 1][i] == if affects(m.stressors@[upto - 1], m.components@[i]) {
            1u32
        } else {
            0u32
        });
        assert(m.grid()[upto - 1][j] == if affects(m.stressors@[upto - 1], m.components@[j]) {
            1u32
        } else {
            0u32
        });
    } else {
        assert(m.grid().take(0) =~= Seq::<Seq<u32>>::empty());
        assert(m.stressors@.take(0) =~= Seq::<Stressor>::empty());
    }
}

/// In an incidence matrix, the coupling count of two components is the
/// number of stressors that act on both.
pub proof fn lemma_coupling_counts_shared_stressors(m: Matrix, i: int, j: int)
    requires
        is_incidence_matrix(m),
        0 <= i < m.components@.len(),
        0 <= j < m.components@.len(),
    ensures
        pair_ones(m.grid(), i, j) == shared_stressors(m.stressors@, m.components@[i], m.components@[j]),
{
    lemma_pair_ones_shared(m, i, j, m.stressors@.len() as int);
    assert(m.grid().take(m.stressors@.len() as int) =~= m.grid());
    assert(m.stressors@.take(m.stressors@.len() as int) =~= m.stressors@);
}

proof fn lemma_merge_clusters_prefix(m: Matrix, a: int, b: int)
    requires
        0 <= a <= b,
    ensures
        merge_clusters(m, a).len() <= merge_clusters(m, b).len(),
        forall|g: int| 0 <= g < merge_clusters(m, a).len() ==> #[trigger] merge_clusters(m, b)[g] == merge_clusters(m, a)[g],
    decreases b - a,
{
    if a < b {
        lemma_merge_clusters_prefix(m, a, b - 1);
    }
}

/// Where the components are distinct values, the merge candidates are
/// complete: any two components whose columns are equal and hold a 1
/// somewhere stand in one cluster.
pub proof fn lemma_merge_candidates_complete(m: Matrix, i: int, j: int)
    requires
        component_views(m).no_duplicates(),
        0 <= i < j < m.components@.len(),
        same_column(m.grid(), i, j),
        !zero_column(m.grid(), i),
    ensures
        exists|g: int|
            0 <= g < merge_clusters(m, m.components@.len() as int).len() && #[trigger] merge_clusters(
                m,
                m.components@.len() as int,
            )[g].contains(i) && merge_clusters(m, m.components@.len() as int)[g].contains(j),
{
    let grid = m.grid();
    let n = m.components@.len() as int;
    let views = component_views(m);
    // The first component whose column equals that of `i`.
    lemma_first_same_column(grid, i, 0);
    let s = choose|s: int|
        0 <= s <= i && #[trigger] same_column(grid, s, i) && forall|t: int| 0 <= t < s ==> !same_column(grid, t, i);
    let before = merge_clusters(m, s);
    lemma_merge_clusters_sound(m, s);
    let v = views[s];
    // `s` equals no component with an all-0 column: only itself could, and its column has a 1.
    if equals_unstressed(m, v) {
        let k = choose|k: int| 0 <= k < n && zero_column(grid, k) && #[trigger] views[k] == v;
        assert(k == s);
        assert forall|r: int| 0 <= r < grid.len() implies #[trigger] grid[r][i] == 0 by {
            assert(grid[r][s] == grid[r][i]);
        }
    }
    // `s` lies in no earlier cluster: that cluster's first member would have its column.
    if equals_clustered(m, before, v) {
        let (g, k) = choose|g: int, k: int|
            0 <= g < before.len() && 0 <= k < before[g].len() && views[#[trigger] before[g][k]] == v;
        let x = before[g][k];
        let f = before[g][0];
        let tw = twin_columns(grid, f, n);
        lemma_twin_columns(grid, f, n);
        assert(before[g] == seq![f] + tw);
        if k > 0 {
            assert(before[g][k] == tw[k - 1]);
        }
        assert(0 <= x < n);
        assert(views[x] == views[s]);
        assert(x == s);
        assert(f < s);
        assert(k > 0) by {
            if k == 0 {
                assert(f == s);
            }
        }
        assert(before[g][k] == tw[k - 1]);
        assert(same_column(grid, f, s));
        assert forall|r: int| 0 <= r < grid.len() implies #[trigger] grid[r][f] == grid[r][i] by {
            assert(grid[r][f] == grid[r][s]);
            assert(grid[r][s] == grid[r][i]);
        }
        assert(same_column(grid, f, i));
    }
    let tw = twin_columns(grid, s, n);
    lemma_twin_columns(grid, s, n);
    assert forall|r: int| 0 <= r < grid.len() implies #[trigger] grid[r][s] == grid[r][j] by {
        assert(grid[r][s] == grid[r][i]);
        assert(grid[r][i] == grid[r][j]);
    }
    assert(tw.contains(j));
    let cl = seq![s] + tw;
    assert(merge_clusters(m, s + 1) == before.push(cl));
    lemma_merge_clusters_prefix(m, s + 1, n);
    let g = before.len() as int;
    assert(merge_clusters(m, n)[g] == cl);
    let q = choose|q: int| 0 <= q < tw.len() && tw[q] == j;
    assert(cl[q + 1] == j);
    if i == s {
        assert(cl[0] == i);
    } else {
        assert(same_column(grid, s, i));
        assert(tw.contains(i));
        let p = choose|p: int| 0 <= p < tw.len() && tw[p] == i;
        assert(cl[p + 1] == i);
    }
    assert(merge_clusters(m, n)[g].contains(i) && merge_clusters(m, n)[g].contains(j));
    assert(0 <= g < merge_clusters(m, n).len());
}

proof fn lemma_first_same_column(grid: Seq<Seq<u32>>, i: int, k: int)
    requires
        0 <= k <= i,
        forall|t: int| 0 <= t < k ==> !same_column(grid, t, i),
    ensures
        exists|s: int|
            0 <= s <= i && #[trigger] same_column(grid, s, i) && forall|t: int| 0 <= t < s ==> !same_column(grid, t, i),
    decreases i - k,
{
    if same_column(grid, k, i) {
        assert(0 <= k <= i && same_column(grid, k, i) && forall|t: int| 0 <= t < k ==> !same_column(grid, t, i));
    } else {
        assert(same_column(grid, i, i));
        assert forall|t: int| 0 <= t < k + 1 implies !same_column(grid, t, i) by {}
        lemma_first_same_column(grid, i, k + 1);
    }
}

/// Without stressors every column holds only 0s: no component is coupled
/// to another and none is a merge candidate.
pub proof fn lemma_no_stressors_no_findings(m: Matrix)
    requires
        m.table@.len() == 0,
    ensures
        forall|c: int| 0 <= c < m.components@.len() ==> #[trigger] zero_column(m.grid(), c),
        coupled_pairs(m).len() == 0,
        merge_clusters(m, m.components@.len() as int).len() == 0,
{
    let grid = m.grid();
    let n = m.components@.len() as int;
    assert(grid.len() == 0);
    lemma_coupled_pairs_are_shared(m);
    if coupled_pairs(m).len() > 0 {
        assert(pair_ones(grid, coupled_pairs(m)[0].0, coupled_pairs(m)[0].1) > 0);
    }
    lemma_merge_clusters_sound(m, n);
    if merge_clusters(m, n).len() > 0 {
        assert(!zero_column(grid, merge_clusters(m, n)[0][0]));
    }
}

/// A count, or one past `u32::MAX` where it exceeds it.
pub open spec fn capped(x: int) -> int {
    if x <= u32::MAX {
        x
    } else {
        u32::MAX + 1
    }
}

/// The number of 1s of a row, capped one past `u32::MAX`.
fn row_ones_capped(row: &Vec<u32>) -> (count: u64)
    ensures
        count == capped(ones(row@) as int),
{
    let ghost cells = row@;
    let mut count: u64 = 0;
    let mut k: usize = 0;
    while k < row.len()
        invariant
            cells == row@,
            k <= cells.len(),
            count == capped(ones(cells.take(k as int)) as int),
        decreases cells.len() - k,
    {
        assert(cells.take(k + 1).drop_last() =~= cells.take(k as int));
        if row[k] == 1 && count <= 0xffff_ffff {
            count = count + 1;
        }
        k = k + 1;
    }
    assert(cells.take(k as int) =~= cells);
    count
}

/// The number of 1s of column `c`, capped one past `u32::MAX`.
fn column_ones_capped(matrix: &Matrix, c: usize) -> (count: u64)
    requires
        matrix.has_columns(),
        c < matrix.components@.len(),
    ensures
        count == capped(column_ones(matrix.grid(), c as int) as int),
{
    let ghost grid = matrix.grid();
    let mut count: u64 = 0;
    let mut r: usize = 0;
    while r < matrix.table.len()
        invariant
            grid == matrix.grid(),
            matrix.has_columns(),
            c < matrix.components@.len(),
            r <= matrix.table@.len(),
            count == capped(column_ones(grid.take(r as int), c as int) as int),
        decreases matrix.table@.len() - r,
    {
        assert(grid.take(r + 1).drop_last() =~= grid.take(r as int));
        assert(grid[r as int] == matrix.table@[r as int]@);
        if matrix.table[r][c] == 1 && count <= 0xffff_ffff {
            count = count + 1;
        }
        r = r + 1;
    }
    assert(grid.take(r as int) =~= grid);
    count
}

/// The number of rows with 1 in both columns, capped one past `u32::MAX`.
fn pair_ones_capped(matrix: &Matrix, i: usize, j: usize) -> (count: u64)
    requires
        matrix.has_columns(),
        i < matrix.components@.len(),
        j < matrix.components@.len(),
    ensures
        count == capped(pair_ones(matrix.grid(), i as int, j as int) as int),
{
    let ghost grid = matrix.grid();
    let mut count: u64 = 0;
    let mut r: usize = 0;
    while r < matrix.table.len()
        invariant
            grid == matrix.grid(),
            matrix.has_columns(),
            i < matrix.components@.len(),
            j < matrix.components@.len(),
            r <= matrix.table@.len(),
            count == capped(pair_ones(grid.take(r as int), i as int, j as int) as int),
        decreases matrix.table@.len() - r,
    {
        assert(grid.take(r + 1).drop_last() =~= grid.take(r as int));
        assert(grid[r as int] == matrix.table@[r as int]@);
        if matrix.table[r][i] == 1 && matrix.table[r][j] == 1 && count <= 0xffff_ffff {
            count = count + 1;
        }
        r = r + 1;
    }
    assert(grid.take(r as int) =~= grid);
    count
}

/// Whether the links of the matrix number at most `u32::MAX`, so that the
/// row totals, and in a well-formed matrix the column totals, can be summed
/// in a `u32`.
pub fn links_fit_u32(matrix: &Matrix) -> (r: bool)
    ensures
        r == (total(row_counts(*matrix)) <= u32::MAX),
        r ==> forall|k: int| 0 <= k < matrix.table@.len() ==> ones(#[trigger] matrix.grid()[k]) <= u32::MAX,
        r && matrix.is_well_formed() ==> total(column_counts(*matrix)) <= u32::MAX,
        r && matrix.is_well_formed() ==> forall|c: int|
            0 <= c < matrix.components@.len() ==> #[trigger] column_ones(matrix.grid(), c) <= u32::MAX,
{
    let ghost counts = row_counts(*matrix);
    let mut acc: u64 = 0;
    let mut i: usize = 0;
    while i < matrix.table.len()
        invariant
            counts == row_counts(*matrix),
            i <= counts.len(),
            acc == capped(total(counts.take(i as int))),
            total(counts.take(i as int)) >= 0,
        decreases counts.len() - i,
    {
        assert(counts.take(i + 1).drop_last() =~= counts.take(i as int));
        assert(counts[i as int] == ones(matrix.grid()[i as int]));
        assert(matrix.grid()[i as int] == matrix.table@[i as int]@);
        let row_count = row_ones_capped(&matrix.table[i]);
        acc = acc + row_count;
        if acc > 0xffff_ffff {
            acc = 0x1_0000_0000;
        }
        i = i + 1;
    }
    assert(counts.take(i as int) =~= counts);
    let r = acc <= 0xffff_ffff;
    proof {
        assert forall|k: int| 0 <= k < counts.len() implies counts[k] >= 0 by {}
        if r {
            assert forall|k: int| 0 <= k < matrix.table@.len() implies ones(
                #[trigger] matrix.grid()[k],
            ) <= u32::MAX by {
                assert(counts[k] == ones(matrix.grid()[k]));
                lemma_total_bounds(counts, k);
            }
            if matrix.is_well_formed() {
                lemma_row_and_column_totals_agree(*matrix);
                let cols = column_counts(*matrix);
                assert forall|c: int| 0 <= c < matrix.components@.len() implies #[trigger] column_ones(
                    matrix.grid(),
                    c,
                ) <= u32::MAX by {
                    assert forall|k: int| 0 <= k < cols.len() implies cols[k] >= 0 by {}
                    assert(cols[c] == column_ones(matrix.grid(), c));
                    lemma_total_bounds(cols, c);
                }
            }
        }
    }
    r
}

/// Whether the coupling counts of the matrix sum to at most `u32::MAX`,
/// so that each of them, and their sum, fit in a `u32`.
pub fn coupling_fits_u32(matrix: &Matrix) -> (r: bool)
    requires
        matrix.components@.len() >= 2 ==> matrix.has_columns(),
    ensures
        r == (total(coupling_counts(*matrix)) <= u32::MAX),
        r ==> forall|i: int, j: int|
            0 <= i < j < matrix.components@.len() ==> #[trigger] pair_ones(matrix.grid(), i, j)
                <= u32::MAX,
{
    let ghost grid = matrix.grid();
    let ghost f = |p: (int, int)| pair_ones(grid, p.0, p.1) as int;
    let n = matrix.components.len();
    let ghost mut done: Seq<(int, int)> = Seq::empty();
    let mut acc: u64 = 0;
    let mut i: usize = 0;
    assert(linked_pairs(grid, 0, n as int) =~= Seq::<(int, int)>::empty());
    while i < n
        invariant
            grid == matrix.grid(),
            f == (|p: (int, int)| pair_ones(grid, p.0, p.1) as int),
            n == matrix.components@.len(),
            n >= 2 ==> matrix.has_columns(),
            i <= n,
            done == linked_pairs(grid, i as int, n as int),
            acc == capped(total(done.map_values(f))),
            total(done.map_values(f)) >= 0,
        decreases n - i,
    {
        let ghost base = done;
        let mut j: usize = i + 1;
        assert(linked_with(grid, i as int, j as int) =~= Seq::<(int, int)>::empty());
        assert(base + linked_with(grid, i as int, j as int) =~= base);
        while j < n
            invariant
                grid == matrix.grid(),
                f == (|p: (int, int)| pair_ones(grid, p.0, p.1) as int),
                n == matrix.components@.len(),
                n >= 2 ==> matrix.has_columns(),
                i < n,
                i + 1 <= j <= n,
                base == linked_pairs(grid, i as int, n as int),
                done == base + linked_with(grid, i as int, j as int),
                acc == capped(total(done.map_values(f))),
                total(done.map_values(f)) >= 0,
            decreases n - j,
        {
            let count = pair_ones_capped(matrix, i, j);
            if count > 0 {
                let ghost before = done;
                proof {
                    done = done.push((i as int, j as int));
                    assert(done.map_values(f) =~= before.map_values(f).push(f((i as int, j as int))));
                    assert(done.map_values(f).drop_last() =~= before.map_values(f));
                    assert(linked_with(grid, i as int, j + 1) == linked_with(
                        grid,
                        i as int,
                        j as int,
                    ).push((i as int, j as int)));
                    assert(done =~= base + linked_with(grid, i as int, j + 1));
                }
                acc = acc + count;
                if acc > 0xffff_ffff {
                    acc = 0x1_0000_0000;
                }
            } else {
                assert(linked_with(grid, i as int, j + 1) == linked_with(grid, i as int, j as int));
            }
            j = j + 1;
        }
        assert(linked_pairs(grid, i + 1, n as int) == base + linked_with(grid, i as int, n as int));
        i = i + 1;
    }
    assert(done.map_values(f) =~= coupling_counts(*matrix));
    let r = acc <= 0xffff_ffff;
    proof {
        if r {
            let counts = coupling_counts(*matrix);
            let coupled = coupled_pairs(*matrix);
            lemma_coupled_pairs_are_shared(*matrix);
            assert forall|i: int, j: int|
                0 <= i < j < matrix.components@.len() implies #[trigger] pair_ones(matrix.grid(), i, j)
                <= u32::MAX by {
                if pair_ones(grid, i, j) > 0 {
                    assert(coupled.contains((i, j)));
                    let k = choose|k: int| 0 <= k < coupled.len() && coupled[k] == (i, j);
                    assert forall|q: int| 0 <= q < counts.len() implies counts[q] >= 0 by {}
                    assert(counts[k] == pair_ones(grid, i, j));
                    lemma_total_bounds(counts, k);
                }
            }
        }
    }
    r
}

/// Whether every row total and every column total of the matrix is at most
/// `u32::MAX`.
pub fn sums_fit_u32(matrix: &Matrix) -> (r: bool)
    requires
        matrix.has_columns(),
    ensures
        r == ((forall|k: int| 0 <= k < matrix.table@.len() ==> ones(#[trigger] matrix.grid()[k]) <= u32::MAX)
            && (forall|c: int|
            0 <= c < matrix.components@.len() ==> #[trigger] column_ones(matrix.grid(), c) <= u32::MAX)),
{
    let mut i: usize = 0;
    while i < matrix.table.len()
        invariant
            i <= matrix.table@.len(),
            forall|k: int| 0 <= k < i ==> ones(#[trigger] matrix.grid()[k]) <= u32::MAX,
        decreases matrix.table@.len() - i,
    {
        assert(matrix.grid()[i as int] == matrix.table@[i as int]@);
        if row_ones_capped(&matrix.table[i]) > 0xffff_ffff {
            return false;
        }
        i = i + 1;
    }
    let mut c: usize = 0;
    while c < matrix.components.len()
        invariant
            matrix.has_columns(),
            c <= matrix.components@.len(),
            forall|k: int| 0 <= k < matrix.table@.len() ==> ones(#[trigger] matrix.grid()[k]) <= u32::MAX,
            forall|d: int| 0 <= d < c ==> #[trigger] column_ones(matrix.grid(), d) <= u32::MAX,
        decreases matrix.components@.len() - c,
    {
        if column_ones_capped(matrix, c) > 0xffff_ffff {
            return false;
        }
        c = c + 1;
    }
    true
}

} // verus!
