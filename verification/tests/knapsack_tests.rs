use min_votes_to_change_result::KnapsackItem;
use min_votes_to_change_result::solve_knapsack_problem;

#[test]
fn test_knapsack_only_one_fits() {
    let items = vec![
        KnapsackItem { weight: 10, value: 20 },
        KnapsackItem { weight: 4, value: 2 },
        KnapsackItem { weight: 30, value: 100 },
    ];
    let solution = solve_knapsack_problem(&items, 9);
    assert_eq!(Some(vec![1]), solution.indices_to_include);
    assert_eq!(2, solution.value);
}

#[test]
fn test_knapsack_only_one_fits_and_its_first() {
    let items = vec![
        KnapsackItem { weight: 4, value: 2 },
        KnapsackItem { weight: 10, value: 20 },
        KnapsackItem { weight: 30, value: 100 },
    ];
    let solution = solve_knapsack_problem(&items, 9);
    assert_eq!(Some(vec![0]), solution.indices_to_include);
    assert_eq!(2, solution.value);
}

#[test]
fn test_knapsack_only_one_fits_and_its_last() {
    let items = vec![
        KnapsackItem { weight: 10, value: 20 },
        KnapsackItem { weight: 30, value: 100 },
        KnapsackItem { weight: 4, value: 2 },
    ];
    let solution = solve_knapsack_problem(&items, 9);
    assert_eq!(Some(vec![2]), solution.indices_to_include);
    assert_eq!(2, solution.value);
}

#[test]
fn test_knapsack_two_fit() {
    let items = vec![
        KnapsackItem { weight: 10, value: 20 },
        KnapsackItem { weight: 10, value: 30 },
        KnapsackItem { weight: 30, value: 100 },
        KnapsackItem { weight: 4, value: 2 },
    ];
    let solution = solve_knapsack_problem(&items, 18);
    assert_eq!(Some(vec![1, 3]), solution.indices_to_include);
    assert_eq!(32, solution.value);
}

#[test]
fn test_knapsack_one_big_one_is_the_best() {
    let items = vec![
        KnapsackItem { weight: 10, value: 20 },
        KnapsackItem { weight: 10, value: 30 },
        KnapsackItem { weight: 30, value: 200 },
        KnapsackItem { weight: 10, value: 50 },
    ];
    let solution = solve_knapsack_problem(&items, 30);
    assert_eq!(Some(vec![2]), solution.indices_to_include);
    assert_eq!(200, solution.value);
}

#[test]
fn test_knapsack_all_fit() {
    let items = vec![
        KnapsackItem { weight: 10, value: 20 },
        KnapsackItem { weight: 10, value: 30 },
        KnapsackItem { weight: 30, value: 200 },
        KnapsackItem { weight: 10, value: 50 },
    ];
    let solution = solve_knapsack_problem(&items, 100);
    assert_eq!(Some(vec![0, 1, 2, 3]), solution.indices_to_include);
    assert_eq!(300, solution.value);
}

#[test]
fn test_knapsack_none_fit() {
    let items = vec![
        KnapsackItem { weight: 10, value: 20 },
        KnapsackItem { weight: 10, value: 30 },
        KnapsackItem { weight: 30, value: 200 },
        KnapsackItem { weight: 10, value: 50 },
    ];
    let solution = solve_knapsack_problem(&items, 9);
    assert_eq!(None, solution.indices_to_include);
    assert_eq!(0, solution.value);
}

#[test]
fn test_knapsack_matches_brute_force() {
    let items = vec![
        KnapsackItem { weight: 7, value: 13 },
        KnapsackItem { weight: 3, value: 9 },
        KnapsackItem { weight: 11, value: 20 },
        KnapsackItem { weight: 5, value: 9 },
        KnapsackItem { weight: 2, value: 1 },
        KnapsackItem { weight: 9, value: 17 },
    ];
    for capacity in 0..=40usize {
        let solution = solve_knapsack_problem(&items, capacity);
        let mut best: usize = 0;
        for mask in 0u32..(1 << items.len()) {
            let mut w: usize = 0;
            let mut v: usize = 0;
            for (i, item) in items.iter().enumerate() {
                if mask & (1 << i) != 0 {
                    w += item.weight;
                    v += item.value;
                }
            }
            if w <= capacity && v > best {
                best = v;
            }
        }
        assert_eq!(best, solution.value);
        match solution.indices_to_include {
            Some(sel) => {
                let w: usize = sel.iter().map(|&i| items[i].weight).sum();
                let v: usize = sel.iter().map(|&i| items[i].value).sum();
                assert!(w <= capacity);
                assert_eq!(v, solution.value);
                for k in 1..sel.len() {
                    assert!(sel[k - 1] < sel[k]);
                }
            }
            None => assert_eq!(0, solution.value),
        }
    }
}

#[test]
fn test_knapsack_rerun_is_identical() {
    let items = vec![
        KnapsackItem { weight: 10, value: 20 },
        KnapsackItem { weight: 10, value: 30 },
        KnapsackItem { weight: 30, value: 200 },
        KnapsackItem { weight: 10, value: 50 },
    ];
    let first = solve_knapsack_problem(&items, 30);
    let second = solve_knapsack_problem(&items, 30);
    assert_eq!(first, second);
}

#[test]
fn test_knapsack_tie_prefers_earlier_index() {
    // two items of equal value, either fits alone, both together do not
    let items = vec![
        KnapsackItem { weight: 6, value: 5 },
        KnapsackItem { weight: 4, value: 5 },
    ];
    let solution = solve_knapsack_problem(&items, 7);
    assert_eq!(Some(vec![0]), solution.indices_to_include);
    assert_eq!(5, solution.value);
}

#[test]
fn test_knapsack_empty_items() {
    let items: Vec<KnapsackItem> = Vec::new();
    let solution = solve_knapsack_problem(&items, 12);
    assert_eq!(None, solution.indices_to_include);
    assert_eq!(0, solution.value);
}

#[test]
fn test_knapsack_zero_capacity() {
    let items = vec![
        KnapsackItem { weight: 1, value: 4 },
        KnapsackItem { weight: 2, value: 5 },
    ];
    let solution = solve_knapsack_problem(&items, 0);
    assert_eq!(None, solution.indices_to_include);
    assert_eq!(0, solution.value);
}
