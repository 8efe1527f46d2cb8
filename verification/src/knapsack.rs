//! A 0/1 knapsack solver with reconstruction of the chosen subset.
//!
//! The solver processes items in their given order with a bottom-up dynamic
//! program over one capacity row per item. Ties between "keep the previous
//! best" and "add the current item" are always resolved in favour of the
//! previous best, so the reported index set is a deterministic function of the
//! input; this tie-break is part of the contract, stated through the spec
//! functions [`dp_val`] and [`dp_sel`].

use vstd::prelude::*;

verus! {

/// One knapsack item: a `weight` that counts against the capacity and a
/// `value` that the solver maximises.
#[derive(Debug, Clone, Copy, PartialEq, Eq, Structural)]
pub struct KnapsackItem {
    pub weight: usize,
    pub value: usize,
}

/// The solver's answer: the chosen item indices in ascending order (`None`
/// when the best achievable value is 0, in which case nothing is chosen) and
/// the total value of the chosen items.
#[derive(Debug, PartialEq, Eq)]
pub struct KnapsackSolution {
    pub indices_to_include: Option<Vec<usize>>,
    pub value: usize,
}

/// Best value achievable from the first `i` items within capacity `c`,
/// under the solver's tie-break (an item is added only when that is a strict
/// improvement, and a row's capacity-0 cell always stays empty).
pub open spec fn dp_val(items: Seq<KnapsackItem>, i: int, c: int) -> int
    decreases i,
{
    if i <= 0 || c <= 0 {
        0
    } else {
        let w = items[i - 1].weight as int;
        let v = items[i - 1].value as int;
        if w > c {
            dp_val(items, i - 1, c)
        } else {
            let with_item = dp_val(items, i - 1, c - w) + v;
            let without = dp_val(items, i - 1, c);
            if with_item > without {
                with_item
            } else {
                without
            }
        }
    }
}

/// The index set behind [`dp_val`]: the ascending list of item indices the
/// dynamic program chooses for the first `i` items within capacity `c`.
pub open spec fn dp_sel(items: Seq<KnapsackItem>, i: int, c: int) -> Seq<int>
    decreases i,
{
    if i <= 0 || c <= 0 {
        Seq::empty()
    } else {
        let w = items[i - 1].weight as int;
        let v = items[i - 1].value as int;
        if w > c {
            dp_sel(items, i - 1, c)
        } else {
            let with_item = dp_val(items, i - 1, c - w) + v;
            let without = dp_val(items, i - 1, c);
            if with_item > without {
                dp_sel(items, i - 1, c - w).push(i - 1)
            } else {
                dp_sel(items, i - 1, c)
            }
        }
    }
}

/// `sel` is a strictly ascending list of item indices below `bound`.
pub open spec fn is_selection(bound: int, sel: Seq<int>) -> bool {
    &&& forall|k: int| 0 <= k < sel.len() ==> 0 <= #[trigger] sel[k] < bound
    &&& forall|k1: int, k2: int| 0 <= k1 < k2 < sel.len() ==> sel[k1] < sel[k2]
}

/// Summed weight of the items at the indices in `sel`.
pub open spec fn sel_weight(items: Seq<KnapsackItem>, sel: Seq<int>) -> int
    decreases sel.len(),
{
    if sel.len() == 0 {
        0
    } else {
        sel_weight(items, sel.drop_last()) + items[sel.last()].weight as int
    }
}

/// Summed value of the items at the indices in `sel`.
pub open spec fn sel_value(items: Seq<KnapsackItem>, sel: Seq<int>) -> int
    decreases sel.len(),
{
    if sel.len() == 0 {
        0
    } else {
        sel_value(items, sel.drop_last()) + items[sel.last()].value as int
    }
}

/// Summed value of the first `i` items.
pub open spec fn prefix_value(items: Seq<KnapsackItem>, i: int) -> int
    decreases i,
{
    if i <= 0 {
        0
    } else {
        prefix_value(items, i - 1) + items[i - 1].value as int
    }
}

/// Summed value of all items; bounds every reachable dynamic-program cell.
pub open spec fn total_value(items: Seq<KnapsackItem>) -> int {
    prefix_value(items, items.len() as int)
}

/// The index list a [`KnapsackSolution`] stands for: empty when `None`.
pub open spec fn solution_sel(solution: KnapsackSolution) -> Seq<int> {
    match solution.indices_to_include {
        Option::None => Seq::empty(),
        Option::Some(v) => v@.map_values(|x: usize| x as int),
    }
}

/// What [`solve_knapsack_problem`] returns for `items` and `max_weight`:
/// exactly the value and index list of the dynamic program, with `None`
/// standing for an empty index list.
pub open spec fn solution_matches(
    items: Seq<KnapsackItem>,
    max_weight: int,
    solution: KnapsackSolution,
) -> bool {
    &&& solution.value as int == dp_val(items, items.len() as int, max_weight)
    &&& match solution.indices_to_include {
        Option::None => dp_sel(items, items.len() as int, max_weight).len() == 0,
        Option::Some(v) => {
            &&& v@.len() > 0
            &&& v@.map_values(|x: usize| x as int) == dp_sel(items, items.len() as int, max_weight)
        },
    }
}

/// No item offers value for free: zero-weight items carry zero value.
/// The solver's frozen capacity-0 cell makes this the exact condition under
/// which its answer is optimal.
pub open spec fn no_free_value(items: Seq<KnapsackItem>) -> bool {
    forall|k: int|
        0 <= k < items.len() ==> ((#[trigger] items[k]).weight == 0 ==> items[k].value == 0)
}

proof fn lemma_prefix_value_nonneg(items: Seq<KnapsackItem>, i: int)
    ensures
        prefix_value(items, i) >= 0,
    decreases i,
{
    if i > 0 {
        lemma_prefix_value_nonneg(items, i - 1);
    }
}

proof fn lemma_prefix_value_monotone(items: Seq<KnapsackItem>, a: int, b: int)
    requires
        a <= b,
    ensures
        prefix_value(items, a) <= prefix_value(items, b),
    decreases b - a,
{
    if a < b {
        lemma_prefix_value_monotone(items, a, b - 1);
    }
}

proof fn lemma_dp_le_prefix(items: Seq<KnapsackItem>, i: int, c: int)
    ensures
        0 <= dp_val(items, i, c),
        dp_val(items, i, c) <= prefix_value(items, i),
    decreases i,
{
    if i <= 0 || c <= 0 {
        lemma_prefix_value_nonneg(items, i);
    } else {
        let w = items[i - 1].weight as int;
        if w > c {
            lemma_dp_le_prefix(items, i - 1, c);
        } else {
            lemma_dp_le_prefix(items, i - 1, c - w);
            lemma_dp_le_prefix(items, i - 1, c);
        }
    }
}

proof fn lemma_sel_sums_nonneg(items: Seq<KnapsackItem>, sel: Seq<int>)
    ensures
        sel_weight(items, sel) >= 0,
        sel_value(items, sel) >= 0,
    decreases sel.len(),
{
    if sel.len() > 0 {
        lemma_sel_sums_nonneg(items, sel.drop_last());
    }
}

proof fn lemma_dp_sel_props(items: Seq<KnapsackItem>, i: int, c: int)
    requires
        0 <= i <= items.len(),
    ensures
        is_selection(i, dp_sel(items, i, c)),
        c >= 0 ==> sel_weight(items, dp_sel(items, i, c)) <= c,
        sel_value(items, dp_sel(items, i, c)) == dp_val(items, i, c),
    decreases i,
{
    if i <= 0 || c <= 0 {
    } else {
        let w = items[i - 1].weight as int;
        let v = items[i - 1].value as int;
        if w > c {
            lemma_dp_sel_props(items, i - 1, c);
        } else {
            let with_item = dp_val(items, i - 1, c - w) + v;
            let without = dp_val(items, i - 1, c);
            if with_item > without {
                lemma_dp_sel_props(items, i - 1, c - w);
                let prev = dp_sel(items, i - 1, c - w);
                let sel = prev.push(i - 1);
                assert(sel.drop_last() =~= prev);
                assert(sel.last() == i - 1);
                assert forall|k: int| 0 <= k < sel.len() implies 0 <= #[trigger] sel[k] < i by {
                    if k < sel.len() - 1 {
                        assert(sel[k] == prev[k]);
                    }
                }
                assert forall|k1: int, k2: int| 0 <= k1 < k2 < sel.len() implies sel[k1]
                    < sel[k2] by {
                    if k2 < sel.len() - 1 {
                        assert(sel[k1] == prev[k1] && sel[k2] == prev[k2]);
                    } else {
                        assert(sel[k1] == prev[k1] && prev[k1] < i - 1);
                    }
                }
            } else {
                lemma_dp_sel_props(items, i - 1, c);
            }
        }
    }
}

proof fn lemma_zero_weight_sel_value(items: Seq<KnapsackItem>, bound: int, sel: Seq<int>)
    requires
        no_free_value(items),
        bound <= items.len(),
        is_selection(bound, sel),
        sel_weight(items, sel) == 0,
    ensures
        sel_value(items, sel) == 0,
    decreases sel.len(),
{
    if sel.len() > 0 {
        let prev = sel.drop_last();
        lemma_sel_sums_nonneg(items, prev);
        assert(items[sel.last()].weight == 0);
        lemma_zero_weight_sel_value(items, bound, prev);
    }
}

proof fn lemma_dp_optimal(items: Seq<KnapsackItem>, i: int, c: int, sel: Seq<int>)
    requires
        no_free_value(items),
        0 <= i <= items.len(),
        is_selection(i, sel),
        sel_weight(items, sel) <= c,
    ensures
        sel_value(items, sel) <= dp_val(items, i, c),
    decreases i,
{
    lemma_sel_sums_nonneg(items, sel);
    lemma_dp_le_prefix(items, i, c);
    if i <= 0 {
        assert(sel.len() == 0) by {
            if sel.len() > 0 {
                assert(0 <= sel[0] < i);
            }
        }
    } else if c <= 0 {
        lemma_zero_weight_sel_value(items, i, sel);
    } else if sel.len() == 0 {
    } else if sel.last() == i - 1 {
        let prev = sel.drop_last();
        let w = items[i - 1].weight as int;
        let v = items[i - 1].value as int;
        lemma_sel_sums_nonneg(items, prev);
        assert(w <= c);
        assert(is_selection(i - 1, prev)) by {
            assert forall|k: int| 0 <= k < prev.len() implies 0 <= #[trigger] prev[k] < i - 1 by {
                assert(prev[k] == sel[k]);
                assert(sel[k] < sel[sel.len() - 1]);
            }
            assert(forall|k1: int, k2: int|
                0 <= k1 < k2 < prev.len() ==> prev[k1] == sel[k1] && prev[k2] == sel[k2]);
        }
        lemma_dp_optimal(items, i - 1, c - w, prev);
        assert(sel_value(items, sel) <= dp_val(items, i - 1, c - w) + v);
    } else {
        assert(is_selection(i - 1, sel)) by {
            assert forall|k: int| 0 <= k < sel.len() implies 0 <= #[trigger] sel[k] < i - 1 by {
                if k < sel.len() - 1 {
                    assert(sel[k] < sel[sel.len() - 1]);
                }
            }
        }
        lemma_dp_optimal(items, i - 1, c, sel);
    }
}

/// Law (optimality): when no item has positive value at zero weight, no
/// selection of distinct item indices whose summed weight fits the capacity
/// can beat the solver's value. Zero-weight items of positive value are the
/// one family of inputs the frozen capacity-0 row mishandles, and they are
/// excluded here.
pub proof fn lemma_knapsack_optimality(items: Seq<KnapsackItem>, capacity: int, sel: Seq<int>)
    requires
        no_free_value(items),
        is_selection(items.len() as int, sel),
        sel_weight(items, sel) <= capacity,
    ensures
        sel_value(items, sel) <= dp_val(items, items.len() as int, capacity),
{
    lemma_dp_optimal(items, items.len() as int, capacity, sel);
}

/// Law (feasibility): the index list the solver reports is strictly
/// ascending, stays below the item count, keeps its summed weight within the
/// capacity, and its summed value is exactly the reported value.
pub proof fn lemma_knapsack_solution_feasible(items: Seq<KnapsackItem>, capacity: int)
    requires
        capacity >= 0,
    ensures
        is_selection(items.len() as int, dp_sel(items, items.len() as int, capacity)),
        sel_weight(items, dp_sel(items, items.len() as int, capacity)) <= capacity,
        sel_value(items, dp_sel(items, items.len() as int, capacity)) == dp_val(
            items,
            items.len() as int,
            capacity,
        ),
{
    lemma_dp_sel_props(items, items.len() as int, capacity);
}

/// Law (determinism): any two solutions that meet the solver's contract for
/// the same items and capacity carry the same value and the same index list.
pub proof fn lemma_knapsack_deterministic(
    items: Seq<KnapsackItem>,
    max_weight: int,
    s1: KnapsackSolution,
    s2: KnapsackSolution,
)
    requires
        solution_matches(items, max_weight, s1),
        solution_matches(items, max_weight, s2),
    ensures
        s1.value == s2.value,
        solution_sel(s1) == solution_sel(s2),
        s1.indices_to_include is Some <==> s2.indices_to_include is Some,
{
    let sel = dp_sel(items, items.len() as int, max_weight);
    if sel.len() == 0 {
        assert(sel =~= Seq::<int>::empty());
    }
    assert(solution_sel(s1) == sel);
    assert(solution_sel(s2) == sel);
}

/// Sums all item values, or reports that the sum does not fit `usize`;
/// the guard for [`solve_knapsack_problem`]'s arithmetic bound.
pub fn checked_total_value(items: &Vec<KnapsackItem>) -> (r: Option<usize>)
    ensures
        match r {
            Option::Some(v) => v as int == total_value(items@),
            Option::None => total_value(items@) > usize::MAX as int,
        },
{
    let n: usize = items.len();
    let mut sum: usize = 0;
    let mut i: usize = 0;
    while i < n
        invariant
            i <= n,
            n == items@.len(),
            sum as int == prefix_value(items@, i as int),
        decreases n - i,
    {
        let v: usize = items[i].value;
        if sum > usize::MAX - v {
            proof {
                lemma_prefix_value_monotone(items@, i as int + 1, n as int);
            }
            return None;
        }
        sum = sum + v;
        i += 1;
    }
    Some(sum)
}

/// Law (tie-break fixture): with exactly two items of equal positive value,
/// where either fits the capacity alone but both together do not, the solver
/// keeps the earlier-indexed item, whatever the two weights are.
pub proof fn lemma_tie_prefers_earlier_item(items: Seq<KnapsackItem>, c: int)
    requires
        items.len() == 2,
        items[0].value == items[1].value,
        items[0].value > 0,
        items[0].weight <= c,
        items[1].weight <= c,
        items[0].weight + items[1].weight > c,
    ensures
        dp_sel(items, 2, c) =~= seq![0int],
        dp_val(items, 2, c) == items[0].value,
{
    let v = items[0].value as int;
    let w0 = items[0].weight as int;
    let w1 = items[1].weight as int;
    assert(w0 > 0 && w1 > 0 && c > 0);
    assert(dp_val(items, 0, c) == 0);
    assert(dp_val(items, 0, c - w0) == 0);
    assert(dp_val(items, 0, c - w1) == 0);
    assert(dp_sel(items, 0, c - w0) =~= Seq::<int>::empty());
    assert(dp_val(items, 1, c) == v);
    assert(dp_sel(items, 1, c) =~= seq![0int]);
    assert(dp_val(items, 1, c - w1) == 0);
    assert(dp_val(items, 2, c) == v);
}

/// One cell of the dynamic program: the best value for some prefix of the
/// items at one capacity, and the item indices that achieve it.
struct Cell {
    value: usize,
    indices: Vec<usize>,
}

/// `cell` holds the dynamic program's answer for the first `i` items at
/// capacity `c`.
spec fn cell_inv(items: Seq<KnapsackItem>, i: int, c: int, cell: Cell) -> bool {
    &&& cell.value as int == dp_val(items, i, c)
    &&& cell.indices@.map_values(|x: usize| x as int) == dp_sel(items, i, c)
}

fn copy_cell(cell: &Cell) -> (r: Cell)
    ensures
        r.value == cell.value,
        r.indices@ == cell.indices@,
{
    let mut indices: Vec<usize> = Vec::new();
    let mut k: usize = 0;
    while k < cell.indices.len()
        invariant
            k <= cell.indices.len(),
            indices.len() == k,
            forall|m: int| 0 <= m < k ==> indices@[m] == cell.indices@[m],
        decreases cell.indices.len() - k,
    {
        indices.push(cell.indices[k]);
        k += 1;
    }
    proof {
        assert(indices@ =~= cell.indices@);
    }
    Cell { value: cell.value, indices }
}

/// 0/1 knapsack: the best value achievable by any subset of `items` whose
/// summed weight stays within `max_weight`, together with the ascending list
/// of chosen indices. Ties keep the solution built from earlier items. The
/// result is pinned exactly by [`solution_matches`]; feasibility of the
/// reported index list is restated here, and optimality is
/// [`lemma_knapsack_optimality`].
pub fn solve_knapsack_problem(items: &Vec<KnapsackItem>, max_weight: usize) -> (solution:
    KnapsackSolution)
    requires
        total_value(items@) <= usize::MAX as int,
        max_weight < usize::MAX,
    ensures
        solution_matches(items@, max_weight as int, solution),
        is_selection(items@.len() as int, solution_sel(solution)),
        sel_weight(items@, solution_sel(solution)) <= max_weight as int,
        sel_value(items@, solution_sel(solution)) == solution.value as int,
{
    let n: usize = items.len();
    let mut prev_row: Vec<Cell> = Vec::new();
    while prev_row.len() <= max_weight
        invariant
            prev_row.len() <= max_weight + 1,
            max_weight < usize::MAX,
            forall|j: int| 0 <= j < prev_row.len() ==> cell_inv(items@, 0, j, #[trigger] prev_row@[j]),
        decreases max_weight + 1 - prev_row.len(),
    {
        let cell = Cell { value: 0, indices: Vec::new() };
        proof {
            assert(cell.indices@.map_values(|x: usize| x as int) =~= Seq::<int>::empty());
        }
        prev_row.push(cell);
    }
    let mut i: usize = 0;
    while i < n
        invariant
            i <= n,
            n == items@.len(),
            prev_row.len() == max_weight + 1,
            max_weight < usize::MAX,
            total_value(items@) <= usize::MAX as int,
            forall|j: int|
                0 <= j < prev_row.len() ==> cell_inv(items@, i as int, j, #[trigger] prev_row@[j]),
        decreases n - i,
    {
        let mut cur_row: Vec<Cell> = Vec::new();
        let zero_cell = Cell { value: 0, indices: Vec::new() };
        proof {
            assert(zero_cell.indices@.map_values(|x: usize| x as int) =~= Seq::<int>::empty());
        }
        cur_row.push(zero_cell);
        let w: usize = items[i].weight;
        let v: usize = items[i].value;
        let mut j: usize = 1;
        while j <= max_weight
            invariant
                1 <= j <= max_weight + 1,
                cur_row.len() == j,
                i < n,
                n == items@.len(),
                prev_row.len() == max_weight + 1,
                max_weight < usize::MAX,
                total_value(items@) <= usize::MAX as int,
                w == items@[i as int].weight,
                v == items@[i as int].value,
                forall|jj: int|
                    0 <= jj < prev_row.len() ==> cell_inv(
                        items@,
                        i as int,
                        jj,
                        #[trigger] prev_row@[jj],
                    ),
                forall|jj: int|
                    0 <= jj < cur_row.len() ==> cell_inv(
                        items@,
                        i as int + 1,
                        jj,
                        #[trigger] cur_row@[jj],
                    ),
            decreases max_weight + 1 - j,
        {
            let cell: Cell;
            if w > j {
                cell = copy_cell(&prev_row[j]);
                proof {
                    assert(cell_inv(items@, i as int + 1, j as int, cell));
                }
            } else {
                let base: usize = prev_row[j - w].value;
                proof {
                    lemma_dp_le_prefix(items@, i as int, j as int - w as int);
                    lemma_prefix_value_monotone(items@, i as int + 1, n as int);
                    assert(base as int + v as int <= prefix_value(items@, i as int + 1));
                }
                let value_with: usize = base + v;
                let without_val: usize = prev_row[j].value;
                if value_with > without_val {
                    let tmp = copy_cell(&prev_row[j - w]);
                    let mut new_indices = tmp.indices;
                    new_indices.push(i);
                    cell = Cell { value: value_with, indices: new_indices };
                    proof {
                        let f = |x: usize| x as int;
                        assert(cell.indices@.map_values(f) =~= prev_row@[j as int - w as int].indices@.map_values(
                            f,
                        ).push(i as int));
                        assert(cell_inv(items@, i as int + 1, j as int, cell));
                    }
                } else {
                    cell = copy_cell(&prev_row[j]);
                    proof {
                        assert(cell_inv(items@, i as int + 1, j as int, cell));
                    }
                }
            }
            cur_row.push(cell);
            j += 1;
        }
        prev_row = cur_row;
        i += 1;
    }
    let final_cell = copy_cell(&prev_row[max_weight]);
    let value: usize = final_cell.value;
    let idxs = final_cell.indices;
    proof {
        lemma_dp_sel_props(items@, n as int, max_weight as int);
        assert(idxs@.map_values(|x: usize| x as int) == dp_sel(
            items@,
            n as int,
            max_weight as int,
        ));
    }
    if idxs.len() == 0 {
        proof {
            assert(dp_sel(items@, n as int, max_weight as int) =~= Seq::<int>::empty());
        }
        KnapsackSolution { indices_to_include: None, value }
    } else {
        KnapsackSolution { indices_to_include: Some(idxs), value }
    }
}

} // verus!

