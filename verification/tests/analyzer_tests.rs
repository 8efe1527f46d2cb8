use min_votes_to_change_result::AnalyzerError;
use min_votes_to_change_result::ElectionDistrictResultMargin;
use min_votes_to_change_result::ElectionStateResultMargin;
use min_votes_to_change_result::ElectoralVoteMap;
use min_votes_to_change_result::KnapsackItem;
use min_votes_to_change_result::Outcome;
use min_votes_to_change_result::capacity_for_outcome;
use min_votes_to_change_result::checked_total_value;
use min_votes_to_change_result::create_knapsack_inputs;
use min_votes_to_change_result::determine_winner;
use min_votes_to_change_result::items_of_inputs;
use min_votes_to_change_result::solve_for_outcome;

fn state(code: &str, margin: i32) -> ElectionStateResultMargin {
    ElectionStateResultMargin {
        state_code: code.to_string(),
        d_margin: margin,
        districts: None,
    }
}

fn district(code: &str, margin: i32) -> ElectionDistrictResultMargin {
    ElectionDistrictResultMargin { state_code: code.to_string(), d_margin: margin }
}

#[test]
fn test_capacity_arithmetic() {
    // even total: 270 votes are necessary to win, so 268 may be kept
    assert_eq!(268, capacity_for_outcome(538, Outcome::Win));
    // odd total: 269 are necessary, again 268 may be kept
    assert_eq!(268, capacity_for_outcome(537, Outcome::Win));
    assert_eq!(269, capacity_for_outcome(538, Outcome::Tie));
}

#[test]
fn test_tie_capacity_exceeds_win_capacity_by_one() {
    let win = capacity_for_outcome(50, Outcome::Win);
    let tie = capacity_for_outcome(50, Outcome::Tie);
    assert_eq!(24, win);
    assert_eq!(25, tie);
    assert_eq!(win + 1, tie);
}

#[test]
fn test_scenario_no_subdivision() {
    // capacity 19 - (19/2 + 1) = 9: only the middle item fits; the flip set
    // is the complement
    let inputs = vec![
        (KnapsackItem { weight: 10, value: 21 }, state("AA", 20)),
        (KnapsackItem { weight: 4, value: 3 }, state("BB", 2)),
        (KnapsackItem { weight: 30, value: 101 }, state("CC", 100)),
    ];
    let flips = solve_for_outcome(&inputs, 19, Outcome::Win);
    assert_eq!(vec!["AA".to_string(), "CC".to_string()], flips);
}

#[test]
fn test_determine_winner_by_side_sums() {
    let mut map = ElectoralVoteMap::new();
    map.insert("AA".to_string(), 5);
    map.insert("BB".to_string(), 3);
    // side A carries the heavier unit despite the thinner margin
    let units = vec![state("AA", 1), state("BB", -1000)];
    assert_eq!(Ok(true), determine_winner(&units, &map).map_err(|_| ()));
    // reversed margins: side B wins
    let units = vec![state("AA", -1), state("BB", 1000)];
    assert_eq!(Ok(false), determine_winner(&units, &map).map_err(|_| ()));
}

#[test]
fn test_tied_contest_is_an_error() {
    let mut map = ElectoralVoteMap::new();
    map.insert("AA".to_string(), 3);
    map.insert("BB".to_string(), 3);
    let units = vec![state("AA", 5), state("BB", -5)];
    let result = create_knapsack_inputs(&units, &map);
    assert!(matches!(result, Err(AnalyzerError::TiedElection)));
}

#[test]
fn test_missing_weight_entry_is_an_error() {
    let mut map = ElectoralVoteMap::new();
    map.insert("AA".to_string(), 3);
    let units = vec![state("AA", 5), state("ZZ", -5)];
    match create_knapsack_inputs(&units, &map) {
        Err(AnalyzerError::MissingElectoralVotes(code)) => assert_eq!("ZZ", code),
        other => panic!("expected a missing-code error, got {:?}", other),
    }
}

#[test]
fn test_district_subdivision_items() {
    let mut map = ElectoralVoteMap::new();
    map.insert("AA".to_string(), 10);
    map.insert("ME".to_string(), 4);
    map.insert("XX".to_string(), 4);
    let units = vec![
        state("AA", 100),
        ElectionStateResultMargin {
            state_code: "ME".to_string(),
            d_margin: 10,
            districts: Some(vec![district("ME1", 3), district("ME2", -4)]),
        },
        ElectionStateResultMargin {
            state_code: "XX".to_string(),
            d_margin: -50,
            districts: Some(vec![district("XX1", 2), district("XX2", -7)]),
        },
    ];
    let inputs = create_knapsack_inputs(&units, &map).unwrap();
    let got: Vec<(usize, usize, String)> = inputs
        .iter()
        .map(|(item, record)| (item.weight, item.value, record.state_code.clone()))
        .collect();
    // the winner-side subdivided unit yields its weight-2 bonus and its
    // winner-favouring district; the loser-side unit yields only its
    // winner-favouring district
    assert_eq!(
        vec![
            (10, 101, "AA".to_string()),
            (2, 11, "ME".to_string()),
            (1, 4, "ME1".to_string()),
            (1, 3, "XX1".to_string()),
        ],
        got
    );
    assert!(inputs.iter().all(|(_, record)| record.districts.is_none()));
}

#[test]
fn test_win_and_tie_flip_sets_for_even_total() {
    let mut map = ElectoralVoteMap::new();
    map.insert("AA".to_string(), 2);
    map.insert("BB".to_string(), 5);
    map.insert("CC".to_string(), 3);
    let units = vec![state("AA", 2), state("BB", 99), state("CC", -50)];
    let inputs = create_knapsack_inputs(&units, &map).unwrap();
    let total = map.total_votes();
    assert_eq!(10, total);
    // win capacity 4: the weight-5 unit cannot be kept; tie capacity 5: it can
    let win = solve_for_outcome(&inputs, total, Outcome::Win);
    let tie = solve_for_outcome(&inputs, total, Outcome::Tie);
    assert_eq!(vec!["BB".to_string()], win);
    assert_eq!(vec!["AA".to_string()], tie);
}

#[test]
fn test_checked_total_value() {
    let inputs = vec![
        (KnapsackItem { weight: 10, value: 21 }, state("AA", 20)),
        (KnapsackItem { weight: 4, value: 3 }, state("BB", 2)),
    ];
    let items = items_of_inputs(&inputs);
    assert_eq!(2, items.len());
    assert_eq!(Some(24), checked_total_value(&items));
    let huge = vec![
        KnapsackItem { weight: 1, value: usize::MAX },
        KnapsackItem { weight: 1, value: usize::MAX },
    ];
    assert_eq!(None, checked_total_value(&huge));
}

#[test]
fn test_flip_set_empty_when_everything_can_be_kept() {
    // the winner keeps every unit: the flip set for a win is empty only when
    // the coalition's whole weight fits the capacity, which cannot happen for
    // a true winner; a loser-side district item can be kept for free though
    let mut map = ElectoralVoteMap::new();
    map.insert("AA".to_string(), 7);
    map.insert("BB".to_string(), 3);
    let units = vec![state("AA", 9), state("BB", -9)];
    let inputs = create_knapsack_inputs(&units, &map).unwrap();
    // total 10, win capacity 4: the single weight-7 item cannot be kept
    let win = solve_for_outcome(&inputs, 10, Outcome::Win);
    assert_eq!(vec!["AA".to_string()], win);
}
