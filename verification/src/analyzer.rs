//! The election-domain layer on top of the knapsack solver.
//!
//! For one election year this module determines the winner from per-unit
//! margins and weights, turns the winning coalition (and winner-favouring
//! districts of subdivided units) into knapsack items, derives the capacity
//! for the desired outcome, and complements the solver's optimal subset to
//! report the units that must flip.

use vstd::prelude::*;
use vstd::set_lib::set_int_range;
use crate::knapsack::KnapsackItem;
use crate::knapsack::dp_sel;
use crate::knapsack::is_selection;
use crate::knapsack::solution_sel;
use crate::knapsack::solve_knapsack_problem;
use crate::knapsack::total_value;
use crate::weights::ElectoralVoteMap;

verus! {

/// Margin of one district inside a subdivided unit; a district always
/// carries one electoral vote.
#[derive(Debug, Clone)]
pub struct ElectionDistrictResultMargin {
    pub state_code: String,
    pub d_margin: i32,
}

/// Margin of one electoral unit: positive favours side A ("d"), negative
/// favours side B ("r"). A unit that splits its electoral votes carries its
/// district margins; its own margin then decides only the statewide bonus.
#[derive(Debug, Clone)]
pub struct ElectionStateResultMargin {
    pub state_code: String,
    pub d_margin: i32,
    pub districts: Option<Vec<ElectionDistrictResultMargin>>,
}

/// Mathematical image of a district margin record.
pub struct DistrictMarginView {
    pub state_code: Seq<char>,
    pub d_margin: int,
}

/// Mathematical image of a unit margin record.
pub struct StateMarginView {
    pub state_code: Seq<char>,
    pub d_margin: int,
    pub districts: Option<Seq<DistrictMarginView>>,
}

impl View for ElectionDistrictResultMargin {
    type V = DistrictMarginView;

    open spec fn view(&self) -> DistrictMarginView {
        DistrictMarginView { state_code: self.state_code@, d_margin: self.d_margin as int }
    }
}

/// The views of a sequence of district records.
pub open spec fn districts_view(districts: Seq<ElectionDistrictResultMargin>) -> Seq<
    DistrictMarginView,
> {
    districts.map_values(|d: ElectionDistrictResultMargin| d@)
}

impl View for ElectionStateResultMargin {
    type V = StateMarginView;

    open spec fn view(&self) -> StateMarginView {
        StateMarginView {
            state_code: self.state_code@,
            d_margin: self.d_margin as int,
            districts: match self.districts {
                Option::None => Option::None,
                Option::Some(ds) => Option::Some(districts_view(ds@)),
            },
        }
    }
}

/// The views of a sequence of unit records.
pub open spec fn units_view(units: Seq<ElectionStateResultMargin>) -> Seq<StateMarginView> {
    units.map_values(|u: ElectionStateResultMargin| u@)
}

/// The views of the item/record pairs handed to the solver.
pub open spec fn pairs_view(pairs: Seq<(KnapsackItem, ElectionStateResultMargin)>) -> Seq<
    (KnapsackItem, StateMarginView),
> {
    pairs.map_values(|p: (KnapsackItem, ElectionStateResultMargin)| (p.0, p.1@))
}

/// Fatal input errors of the analysis of one year.
#[derive(Debug)]
pub enum AnalyzerError {
    /// The two sides' electoral-vote sums are exactly equal; no winner exists
    /// to deprive of victory.
    TiedElection,
    /// A margin record names a unit code absent from the applicable weight
    /// table; the code is carried along.
    MissingElectoralVotes(String),
}

/// Whether a margin falls on the winning side, for the side-A-won flag
/// `d_won`. Used for whole units (whose margins are nonzero) and for
/// districts (where a zero margin counts for side B, as a sign test).
pub open spec fn for_winner(margin: int, d_won: bool) -> bool {
    (margin > 0) == d_won
}

/// Popular votes needed to flip a margin: its magnitude plus one.
pub open spec fn flip_value(margin: int) -> int {
    if margin >= 0 {
        margin + 1
    } else {
        1 - margin
    }
}

/// The knapsack item for a flippable margin of the given weight.
pub open spec fn knapsack_item(weight: int, margin: int) -> KnapsackItem {
    KnapsackItem { weight: weight as usize, value: flip_value(margin) as usize }
}

/// The undivided record attached to an item for traceability.
pub open spec fn state_entry(code: Seq<char>, margin: int) -> StateMarginView {
    StateMarginView { state_code: code, d_margin: margin, districts: Option::None }
}

/// Items for the winner-favouring districts of one subdivided unit, one item
/// of weight 1 per district, in district order.
pub open spec fn winner_district_items(districts: Seq<DistrictMarginView>, d_won: bool) -> Seq<
    (KnapsackItem, StateMarginView),
>
    decreases districts.len(),
{
    if districts.len() == 0 {
        Seq::empty()
    } else {
        let d = districts.last();
        let rest = winner_district_items(districts.drop_last(), d_won);
        if for_winner(d.d_margin, d_won) {
            rest.push((knapsack_item(1, d.d_margin), state_entry(d.state_code, d.d_margin)))
        } else {
            rest
        }
    }
}

/// Items of one winner-favouring unit: its full weight when undivided;
/// otherwise a statewide bonus of weight 2 plus its winner-favouring
/// districts.
pub open spec fn winner_state_items(u: StateMarginView, ev: u8, d_won: bool) -> Seq<
    (KnapsackItem, StateMarginView),
> {
    match u.districts {
        Option::None => seq![
            (knapsack_item(ev as int, u.d_margin), state_entry(u.state_code, u.d_margin)),
        ],
        Option::Some(ds) => seq![
            (knapsack_item(2, u.d_margin), state_entry(u.state_code, u.d_margin)),
        ] + winner_district_items(ds, d_won),
    }
}

/// First pass of item construction: the winner-favouring units in order.
pub open spec fn winner_pass(
    units: Seq<StateMarginView>,
    weights: Map<Seq<char>, u8>,
    d_won: bool,
) -> Seq<(KnapsackItem, StateMarginView)>
    decreases units.len(),
{
    if units.len() == 0 {
        Seq::empty()
    } else {
        let u = units.last();
        let rest = winner_pass(units.drop_last(), weights, d_won);
        if for_winner(u.d_margin, d_won) {
            rest + winner_state_items(u, weights[u.state_code], d_won)
        } else {
            rest
        }
    }
}

/// Second pass: winner-favouring districts inside loser-favouring units.
pub open spec fn loser_pass(units: Seq<StateMarginView>, d_won: bool) -> Seq<
    (KnapsackItem, StateMarginView),
>
    decreases units.len(),
{
    if units.len() == 0 {
        Seq::empty()
    } else {
        let u = units.last();
        let rest = loser_pass(units.drop_last(), d_won);
        if !for_winner(u.d_margin, d_won) {
            match u.districts {
                Option::Some(ds) => rest + winner_district_items(ds, d_won),
                Option::None => rest,
            }
        } else {
            rest
        }
    }
}

/// All knapsack inputs for one year, in the order the analysis emits them.
pub open spec fn knapsack_inputs_spec(
    units: Seq<StateMarginView>,
    weights: Map<Seq<char>, u8>,
    d_won: bool,
) -> Seq<(KnapsackItem, StateMarginView)> {
    winner_pass(units, weights, d_won) + loser_pass(units, d_won)
}

/// Summed electoral-vote weight of the units whose margin sign matches
/// `d_side` (zero margins count against side A, as in the sign test).
pub open spec fn side_weight(
    units: Seq<StateMarginView>,
    weights: Map<Seq<char>, u8>,
    d_side: bool,
) -> int
    decreases units.len(),
{
    if units.len() == 0 {
        0
    } else {
        side_weight(units.drop_last(), weights, d_side) + (if (units.last().d_margin > 0)
            == d_side {
            weights[units.last().state_code] as int
        } else {
            0
        })
    }
}

/// The first `upto` unit codes all appear in the weight table.
pub open spec fn codes_present_upto(
    units: Seq<StateMarginView>,
    weights: Map<Seq<char>, u8>,
    upto: int,
) -> bool {
    forall|j: int| 0 <= j < upto ==> weights.contains_key((#[trigger] units[j]).state_code)
}

/// Every unit code appears in the weight table.
pub open spec fn all_codes_present(
    units: Seq<StateMarginView>,
    weights: Map<Seq<char>, u8>,
) -> bool {
    codes_present_upto(units, weights, units.len() as int)
}

/// The outcome an alternate result is computed for: making the recorded
/// winner lose outright, or forcing an exact tie (even totals only).
#[derive(Debug, Clone, Copy, PartialEq, Eq, Structural)]
pub enum Outcome {
    Win,
    Tie,
}

/// Electoral votes the alternate side needs: a strict majority for a win,
/// exactly half for a tie.
pub open spec fn necessary_votes(total: int, outcome: Outcome) -> int {
    match outcome {
        Outcome::Win => total / 2 + 1,
        Outcome::Tie => total / 2,
    }
}

/// The knapsack capacity for an outcome: the electoral votes the recorded
/// winner can keep while the alternate side still reaches its target.
pub open spec fn capacity_spec(total: int, outcome: Outcome) -> int {
    total - necessary_votes(total, outcome)
}

/// Computes the capacity for an outcome; a tie is only defined for even
/// totals.
pub fn capacity_for_outcome(total_electoral_votes: usize, outcome: Outcome) -> (r: usize)
    requires
        total_electoral_votes >= 1,
        outcome == Outcome::Tie ==> total_electoral_votes % 2 == 0,
    ensures
        r as int == capacity_spec(total_electoral_votes as int, outcome),
        r < total_electoral_votes,
{
    match outcome {
        Outcome::Win => total_electoral_votes - (total_electoral_votes / 2 + 1),
        Outcome::Tie => {
            proof {
                assert(total_electoral_votes / 2 >= 1);
            }
            total_electoral_votes - total_electoral_votes / 2
        },
    }
}

/// Computes the popular votes needed to flip a margin: its magnitude plus
/// one.
fn flip_votes(margin: i32) -> (r: usize)
    ensures
        r as int == flip_value(margin as int),
{
    if margin >= 0 {
        (margin as usize) + 1
    } else {
        let mag: i64 = -(margin as i64);
        (mag as usize) + 1
    }
}

proof fn lemma_pairs_view_push(
    pairs: Seq<(KnapsackItem, ElectionStateResultMargin)>,
    p: (KnapsackItem, ElectionStateResultMargin),
)
    ensures
        pairs_view(pairs.push(p)) == pairs_view(pairs).push((p.0, p.1@)),
{
    assert(pairs_view(pairs.push(p)) =~= pairs_view(pairs).push((p.0, p.1@)));
}

proof fn lemma_side_weight_take_le(
    units: Seq<StateMarginView>,
    weights: Map<Seq<char>, u8>,
    d_side: bool,
    a: int,
)
    requires
        0 <= a <= units.len(),
    ensures
        side_weight(units.take(a), weights, d_side) <= side_weight(units, weights, d_side),
    decreases units.len() - a,
{
    if a == units.len() {
        assert(units.take(a) =~= units);
    } else {
        assert(units.take(a + 1).drop_last() =~= units.take(a));
        assert(units.take(a + 1).last() == units[a]);
        lemma_side_weight_take_le(units, weights, d_side, a + 1);
    }
}

/// Appends one weight-1 item per winner-favouring district, in district
/// order.
fn push_winner_districts(
    out: &mut Vec<(KnapsackItem, ElectionStateResultMargin)>,
    districts: &Vec<ElectionDistrictResultMargin>,
    d_won: bool,
)
    ensures
        pairs_view(final(out)@) == pairs_view(old(out)@) + winner_district_items(
            districts_view(districts@),
            d_won,
        ),
{
    let ghost base = pairs_view(old(out)@);
    let ghost ds = districts_view(districts@);
    let dn: usize = districts.len();
    let mut k: usize = 0;
    while k < dn
        invariant
            k <= dn,
            dn == districts@.len(),
            ds == districts_view(districts@),
            pairs_view(out@) == base + winner_district_items(ds.take(k as int), d_won),
        decreases dn - k,
    {
        proof {
            assert(ds.take(k as int + 1).drop_last() =~= ds.take(k as int));
            assert(ds.take(k as int + 1).last() == ds[k as int]);
            assert(ds[k as int] == districts@[k as int]@);
        }
        let d = &districts[k];
        if (d.d_margin > 0) == d_won {
            let item = KnapsackItem { weight: 1, value: flip_votes(d.d_margin) };
            let record = ElectionStateResultMargin {
                state_code: d.state_code.clone(),
                d_margin: d.d_margin,
                districts: None,
            };
            proof {
                assert(item == knapsack_item(1, ds[k as int].d_margin));
                assert(record@ == state_entry(ds[k as int].state_code, ds[k as int].d_margin));
            }
            let ghost prev = out@;
            out.push((item, record));
            proof {
                lemma_pairs_view_push(prev, (item, record));
                assert(base + winner_district_items(ds.take(k as int), d_won).push(
                    (item, record@),
                ) =~= (base + winner_district_items(ds.take(k as int), d_won)).push(
                    (item, record@),
                ));
            }
        }
        k += 1;
    }
    proof {
        assert(ds.take(dn as int) =~= ds);
    }
}

/// Looks every unit's weight up, failing on the first missing code, and sums
/// the electoral votes of each side.
fn lookup_and_sum_sides(
    election_result: &Vec<ElectionStateResultMargin>,
    electoral_votes: &ElectoralVoteMap,
) -> (r: Result<(Vec<u8>, usize, usize), AnalyzerError>)
    requires
        side_weight(units_view(election_result@), electoral_votes@, true) <= usize::MAX as int,
        side_weight(units_view(election_result@), electoral_votes@, false) <= usize::MAX as int,
    ensures
        ({
            let units = units_view(election_result@);
            let weights = electoral_votes@;
            match r {
                Result::Ok(t) => {
                    &&& all_codes_present(units, weights)
                    &&& t.0@.len() == units.len()
                    &&& forall|m: int|
                        0 <= m < units.len() ==> (#[trigger] t.0@[m]) == weights[units[m].state_code]
                    &&& t.1 as int == side_weight(units, weights, true)
                    &&& t.2 as int == side_weight(units, weights, false)
                },
                Result::Err(AnalyzerError::MissingElectoralVotes(code)) => exists|i: int|
                    {
                        &&& 0 <= i < units.len()
                        &&& !weights.contains_key((#[trigger] units[i]).state_code)
                        &&& codes_present_upto(units, weights, i)
                        &&& code@ == units[i].state_code
                    },
                Result::Err(AnalyzerError::TiedElection) => false,
            }
        }),
{
    let ghost units = units_view(election_result@);
    let ghost weights = electoral_votes@;
    let n: usize = election_result.len();
    let mut evs: Vec<u8> = Vec::new();
    let mut d_votes: usize = 0;
    let mut r_votes: usize = 0;
    let mut i: usize = 0;
    while i < n
        invariant
            i <= n,
            n == election_result@.len(),
            units == units_view(election_result@),
            weights == electoral_votes@,
            side_weight(units, weights, true) <= usize::MAX as int,
            side_weight(units, weights, false) <= usize::MAX as int,
            evs@.len() == i,
            codes_present_upto(units, weights, i as int),
            forall|m: int| 0 <= m < i ==> (#[trigger] evs@[m]) == weights[units[m].state_code],
            d_votes as int == side_weight(units.take(i as int), weights, true),
            r_votes as int == side_weight(units.take(i as int), weights, false),
        decreases n - i,
    {
        let u = &election_result[i];
        proof {
            assert(u@ == units[i as int]);
        }
        match electoral_votes.get(&u.state_code) {
            Option::None => {
                proof {
                    assert(!weights.contains_key(units[i as int].state_code));
                }
                return Result::Err(AnalyzerError::MissingElectoralVotes(u.state_code.clone()));
            },
            Option::Some(ev) => {
                proof {
                    assert(units.take(i as int + 1).drop_last() =~= units.take(i as int));
                    assert(units.take(i as int + 1).last() == units[i as int]);
                    lemma_side_weight_take_le(units, weights, true, i as int + 1);
                    lemma_side_weight_take_le(units, weights, false, i as int + 1);
                }
                if u.d_margin > 0 {
                    d_votes = d_votes + ev as usize;
                } else {
                    r_votes = r_votes + ev as usize;
                }
                evs.push(ev);
                i += 1;
            },
        }
    }
    proof {
        assert(units.take(n as int) =~= units);
    }
    Result::Ok((evs, d_votes, r_votes))
}

/// Sums the electoral-vote weights of the units favouring each side and
/// names the winner: `true` when side A ("d") carries the larger sum. Fails
/// with [`AnalyzerError::MissingElectoralVotes`] on the first unit code
/// absent from the weight table, and with [`AnalyzerError::TiedElection`]
/// when the side sums are exactly equal.
pub fn determine_winner(
    election_result: &Vec<ElectionStateResultMargin>,
    electoral_votes: &ElectoralVoteMap,
) -> (r: Result<bool, AnalyzerError>)
    requires
        forall|i: int|
            0 <= i < election_result@.len() ==> (#[trigger] election_result@[i]).d_margin != 0,
        side_weight(units_view(election_result@), electoral_votes@, true) <= usize::MAX as int,
        side_weight(units_view(election_result@), electoral_votes@, false) <= usize::MAX as int,
    ensures
        ({
            let units = units_view(election_result@);
            let weights = electoral_votes@;
            match r {
                Result::Ok(d_won) => {
                    &&& all_codes_present(units, weights)
                    &&& side_weight(units, weights, true) != side_weight(units, weights, false)
                    &&& d_won == (side_weight(units, weights, true) > side_weight(
                        units,
                        weights,
                        false,
                    ))
                },
                Result::Err(AnalyzerError::TiedElection) => {
                    &&& all_codes_present(units, weights)
                    &&& side_weight(units, weights, true) == side_weight(units, weights, false)
                },
                Result::Err(AnalyzerError::MissingElectoralVotes(code)) => exists|i: int|
                    {
                        &&& 0 <= i < units.len()
                        &&& !weights.contains_key((#[trigger] units[i]).state_code)
                        &&& codes_present_upto(units, weights, i)
                        &&& code@ == units[i].state_code
                    },
            }
        }),
{
    match lookup_and_sum_sides(election_result, electoral_votes) {
        Result::Ok((_evs, d_votes, r_votes)) => {
            if d_votes == r_votes {
                Result::Err(AnalyzerError::TiedElection)
            } else {
                Result::Ok(d_votes > r_votes)
            }
        },
        Result::Err(e) => Result::Err(e),
    }
}

/// Determines the winner from the margins and weights, then builds the
/// knapsack items of the winning coalition: each winner-favouring undivided
/// unit at its full weight, each subdivided winner-favouring unit as a
/// weight-2 statewide bonus plus its winner-favouring districts at weight 1,
/// and the winner-favouring districts of loser-favouring units at weight 1.
/// Every item's value is the unit's or district's margin magnitude plus one,
/// and each item carries the undivided record it came from. Fails with
/// [`AnalyzerError::MissingElectoralVotes`] on the first unit code absent
/// from the weight table, and with [`AnalyzerError::TiedElection`] when the
/// two sides' electoral-vote sums are exactly equal.
pub fn create_knapsack_inputs(
    election_result: &Vec<ElectionStateResultMargin>,
    electoral_votes: &ElectoralVoteMap,
) -> (r: Result<Vec<(KnapsackItem, ElectionStateResultMargin)>, AnalyzerError>)
    requires
        forall|i: int|
            0 <= i < election_result@.len() ==> (#[trigger] election_result@[i]).d_margin != 0,
        side_weight(units_view(election_result@), electoral_votes@, true) <= usize::MAX as int,
        side_weight(units_view(election_result@), electoral_votes@, false) <= usize::MAX as int,
    ensures
        ({
            let units = units_view(election_result@);
            let weights = electoral_votes@;
            match r {
                Result::Ok(pairs) => {
                    &&& all_codes_present(units, weights)
                    &&& side_weight(units, weights, true) != side_weight(units, weights, false)
                    &&& pairs_view(pairs@) == knapsack_inputs_spec(
                        units,
                        weights,
                        side_weight(units, weights, true) > side_weight(units, weights, false),
                    )
                },
                Result::Err(AnalyzerError::TiedElection) => {
                    &&& all_codes_present(units, weights)
                    &&& side_weight(units, weights, true) == side_weight(units, weights, false)
                },
                Result::Err(AnalyzerError::MissingElectoralVotes(code)) => exists|i: int|
                    {
                        &&& 0 <= i < units.len()
                        &&& !weights.contains_key((#[trigger] units[i]).state_code)
                        &&& codes_present_upto(units, weights, i)
                        &&& code@ == units[i].state_code
                    },
            }
        }),
{
    let ghost units = units_view(election_result@);
    let ghost weights = electoral_votes@;
    let n: usize = election_result.len();

    // First pass: look every unit's weight up and sum the two sides.
    let (evs, d_votes, r_votes) = match lookup_and_sum_sides(election_result, electoral_votes) {
        Result::Ok(t) => t,
        Result::Err(e) => {
            return Result::Err(e);
        },
    };
    if d_votes == r_votes {
        return Result::Err(AnalyzerError::TiedElection);
    }
    let d_won: bool = d_votes > r_votes;

    let mut knapsack_items: Vec<(KnapsackItem, ElectionStateResultMargin)> = Vec::new();

    // Second pass: items of the winner-favouring units.
    let mut i: usize = 0;
    while i < n
        invariant
            i <= n,
            n == election_result@.len(),
            units == units_view(election_result@),
            weights == electoral_votes@,
            evs@.len() == n,
            forall|m: int| 0 <= m < n ==> (#[trigger] evs@[m]) == weights[units[m].state_code],
            pairs_view(knapsack_items@) == winner_pass(units.take(i as int), weights, d_won),
        decreases n - i,
    {
        let u = &election_result[i];
        proof {
            assert(u@ == units[i as int]);
            assert(units.take(i as int + 1).drop_last() =~= units.take(i as int));
            assert(units.take(i as int + 1).last() == units[i as int]);
        }
        if (u.d_margin > 0) == d_won {
            match &u.districts {
                Option::None => {
                    let item = KnapsackItem {
                        weight: evs[i] as usize,
                        value: flip_votes(u.d_margin),
                    };
                    let record = ElectionStateResultMargin {
                        state_code: u.state_code.clone(),
                        d_margin: u.d_margin,
                        districts: None,
                    };
                    proof {
                        assert(item == knapsack_item(
                            weights[units[i as int].state_code] as int,
                            units[i as int].d_margin,
                        ));
                        assert(record@ == state_entry(
                            units[i as int].state_code,
                            units[i as int].d_margin,
                        ));
                    }
                    let ghost prev = knapsack_items@;
                    knapsack_items.push((item, record));
                    proof {
                        lemma_pairs_view_push(prev, (item, record));
                        assert(pairs_view(knapsack_items@) =~= winner_pass(
                            units.take(i as int + 1),
                            weights,
                            d_won,
                        ));
                    }
                },
                Option::Some(districts) => {
                    let item = KnapsackItem { weight: 2, value: flip_votes(u.d_margin) };
                    let record = ElectionStateResultMargin {
                        state_code: u.state_code.clone(),
                        d_margin: u.d_margin,
                        districts: None,
                    };
                    proof {
                        assert(item == knapsack_item(2, units[i as int].d_margin));
                        assert(record@ == state_entry(
                            units[i as int].state_code,
                            units[i as int].d_margin,
                        ));
                    }
                    let ghost prev = knapsack_items@;
                    knapsack_items.push((item, record));
                    proof {
                        lemma_pairs_view_push(prev, (item, record));
                    }
                    push_winner_districts(&mut knapsack_items, districts, d_won);
                    proof {
                        let ds = districts_view(districts@);
                        assert(units[i as int].districts == Option::Some(ds));
                        assert(winner_state_items(
                            units[i as int],
                            weights[units[i as int].state_code],
                            d_won,
                        ) =~= seq![(item, record@)] + winner_district_items(ds, d_won));
                        assert(winner_pass(units.take(i as int), weights, d_won).push(
                            (item, record@),
                        ) + winner_district_items(ds, d_won) =~= winner_pass(
                            units.take(i as int),
                            weights,
                            d_won,
                        ) + winner_state_items(
                            units[i as int],
                            weights[units[i as int].state_code],
                            d_won,
                        ));
                        assert(pairs_view(knapsack_items@) == winner_pass(
                            units.take(i as int + 1),
                            weights,
                            d_won,
                        ));
                    }
                },
            }
        }
        i += 1;
    }
    proof {
        assert(units.take(n as int) =~= units);
    }

    // Third pass: winner-favouring districts inside loser-favouring units.
    let ghost whole_winner_pass = winner_pass(units, weights, d_won);
    let mut i: usize = 0;
    while i < n
        invariant
            i <= n,
            n == election_result@.len(),
            units == units_view(election_result@),
            weights == electoral_votes@,
            forall|m: int|
                0 <= m < election_result@.len() ==> (#[trigger] election_result@[m]).d_margin != 0,
            whole_winner_pass == winner_pass(units, weights, d_won),
            pairs_view(knapsack_items@) == whole_winner_pass + loser_pass(
                units.take(i as int),
                d_won,
            ),
        decreases n - i,
    {
        let u = &election_result[i];
        proof {
            assert(u@ == units[i as int]);
            assert(units[i as int].d_margin != 0);
            assert(units.take(i as int + 1).drop_last() =~= units.take(i as int));
            assert(units.take(i as int + 1).last() == units[i as int]);
        }
        if (u.d_margin < 0) == d_won {
            if let Option::Some(districts) = &u.districts {
                push_winner_districts(&mut knapsack_items, districts, d_won);
                proof {
                    let ds = districts_view(districts@);
                    assert(units[i as int].districts == Option::Some(ds));
                    assert(whole_winner_pass + loser_pass(units.take(i as int), d_won)
                        + winner_district_items(ds, d_won) =~= whole_winner_pass + (loser_pass(
                        units.take(i as int),
                        d_won,
                    ) + winner_district_items(ds, d_won)));
                }
            }
        }
        i += 1;
    }
    proof {
        assert(units.take(n as int) =~= units);
    }
    Result::Ok(knapsack_items)
}

/// Law: for an even total, the tie capacity is exactly one vote larger than
/// the win capacity.
pub proof fn lemma_tie_win_capacity_gap(total: int)
    requires
        total >= 1,
        total % 2 == 0,
    ensures
        capacity_spec(total, Outcome::Tie) == capacity_spec(total, Outcome::Win) + 1,
{
}

/// The indices in `0..n` that are not in `sel`, in ascending order. Applied
/// to the solver's chosen indices this yields the minimal flip set: the
/// items the winner cannot afford to keep.
pub open spec fn complement_of(n: int, sel: Seq<int>) -> Seq<int>
    decreases n,
{
    if n <= 0 {
        Seq::empty()
    } else {
        let rest = complement_of(n - 1, sel);
        if sel.contains(n - 1) {
            rest
        } else {
            rest.push(n - 1)
        }
    }
}

proof fn lemma_complement_contains(n: int, sel: Seq<int>, x: int)
    ensures
        complement_of(n, sel).contains(x) <==> (0 <= x < n && !sel.contains(x)),
    decreases n,
{
    if n > 0 {
        lemma_complement_contains(n - 1, sel, x);
        let rest = complement_of(n - 1, sel);
        let comp = complement_of(n, sel);
        if !sel.contains(n - 1) {
            assert(comp == rest.push(n - 1));
            assert(comp.contains(x) <==> (rest.contains(x) || x == n - 1)) by {
                if comp.contains(x) {
                    let idx = choose|idx: int| 0 <= idx < comp.len() && comp[idx] == x;
                    if idx < rest.len() {
                        assert(rest[idx] == x);
                    }
                }
                if rest.contains(x) {
                    let idx = choose|idx: int| 0 <= idx < rest.len() && rest[idx] == x;
                    assert(comp[idx] == x);
                }
                if x == n - 1 {
                    assert(comp[rest.len() as int] == x);
                }
            }
        }
    }
}

/// Law: the solver's chosen indices and their complement partition the full
/// item range: together they cover `0..n` and they share no index.
pub proof fn lemma_complement_partition(n: int, sel: Seq<int>)
    requires
        is_selection(n, sel),
    ensures
        sel.to_set().union(complement_of(n, sel).to_set()) == set_int_range(0, n),
        sel.to_set().disjoint(complement_of(n, sel).to_set()),
{
    let comp = complement_of(n, sel);
    assert forall|x: int| #[trigger] sel.to_set().union(comp.to_set()).contains(x) implies
        set_int_range(0, n).contains(x) by {
        lemma_complement_contains(n, sel, x);
        if sel.contains(x) {
            let k = choose|k: int| 0 <= k < sel.len() && sel[k] == x;
            assert(0 <= sel[k] < n);
        }
    }
    assert forall|x: int| #[trigger] set_int_range(0, n).contains(x) implies sel.to_set().union(
        comp.to_set(),
    ).contains(x) by {
        lemma_complement_contains(n, sel, x);
    }
    assert(sel.to_set().union(comp.to_set()) =~= set_int_range(0, n));
    assert forall|x: int| !(#[trigger] sel.to_set().contains(x) && comp.to_set().contains(x)) by {
        lemma_complement_contains(n, sel, x);
    }
}

/// The items alone, out of the item/record pairs.
pub open spec fn items_of(pairs: Seq<(KnapsackItem, StateMarginView)>) -> Seq<KnapsackItem> {
    pairs.map_values(|p: (KnapsackItem, StateMarginView)| p.0)
}

/// Copies the items out of the item/record pairs, for the solver.
pub fn items_of_inputs(knapsack_inputs: &Vec<(KnapsackItem, ElectionStateResultMargin)>) -> (r: Vec<
    KnapsackItem,
>)
    ensures
        r@ == items_of(pairs_view(knapsack_inputs@)),
{
    let n: usize = knapsack_inputs.len();
    let mut items: Vec<KnapsackItem> = Vec::new();
    let mut i: usize = 0;
    while i < n
        invariant
            i <= n,
            n == knapsack_inputs@.len(),
            items@.len() == i,
            forall|m: int| 0 <= m < i ==> (#[trigger] items@[m]) == knapsack_inputs@[m].0,
        decreases n - i,
    {
        items.push(knapsack_inputs[i].0);
        i += 1;
    }
    proof {
        assert(items@ =~= items_of(pairs_view(knapsack_inputs@)));
    }
    items
}

/// The flip set for one outcome: the codes of the items the solver did not
/// keep, in item order.
pub open spec fn flip_codes(
    pairs: Seq<(KnapsackItem, StateMarginView)>,
    total: int,
    outcome: Outcome,
) -> Seq<Seq<char>> {
    let sel = dp_sel(items_of(pairs), pairs.len() as int, capacity_spec(total, outcome));
    complement_of(pairs.len() as int, sel).map_values(|ix: int| pairs[ix].1.state_code)
}

/// Computes the capacity for the outcome, runs the knapsack solver over the
/// items, and complements the optimal subset against the full item order:
/// the returned codes are the units that must flip, in item order.
pub fn solve_for_outcome(
    knapsack_inputs: &Vec<(KnapsackItem, ElectionStateResultMargin)>,
    total_electoral_votes: usize,
    outcome: Outcome,
) -> (r: Vec<String>)
    requires
        total_electoral_votes >= 1,
        outcome == Outcome::Tie ==> total_electoral_votes % 2 == 0,
        total_value(items_of(pairs_view(knapsack_inputs@))) <= usize::MAX as int,
    ensures
        r@.map_values(|s: String| s@) == flip_codes(
            pairs_view(knapsack_inputs@),
            total_electoral_votes as int,
            outcome,
        ),
{
    let ghost pv = pairs_view(knapsack_inputs@);
    let n: usize = knapsack_inputs.len();
    let items = items_of_inputs(knapsack_inputs);
    let capacity: usize = capacity_for_outcome(total_electoral_votes, outcome);
    let solution = solve_knapsack_problem(&items, capacity);
    let ghost gsol = solution;
    let ghost sel = dp_sel(
        items_of(pv),
        pv.len() as int,
        capacity_spec(total_electoral_votes as int, outcome),
    );
    let selected: Vec<usize> = match solution.indices_to_include {
        Option::Some(v) => v,
        Option::None => Vec::new(),
    };
    proof {
        assert(selected@.map_values(|x: usize| x as int) =~= sel);
        assert(solution_sel(gsol) == sel);
    }
    let mut result: Vec<String> = Vec::new();
    let mut cursor: usize = 0;
    let mut i: usize = 0;
    while i < n
        invariant
            i <= n,
            n == knapsack_inputs@.len(),
            pv == pairs_view(knapsack_inputs@),
            sel == dp_sel(
                items_of(pv),
                pv.len() as int,
                capacity_spec(total_electoral_votes as int, outcome),
            ),
            is_selection(n as int, sel),
            cursor <= selected@.len(),
            selected@.map_values(|x: usize| x as int) == sel,
            forall|m: int| 0 <= m < cursor ==> #[trigger] sel[m] < i as int,
            forall|m: int| cursor <= m < sel.len() ==> #[trigger] sel[m] >= i as int,
            result@.map_values(|s: String| s@) == complement_of(i as int, sel).map_values(
                |ix: int| pv[ix].1.state_code,
            ),
        decreases n - i,
    {
        if cursor < selected.len() && selected[cursor] == i {
            proof {
                assert(sel[cursor as int] == selected@[cursor as int] as int);
                assert(sel.contains(i as int));
                assert(complement_of(i as int + 1, sel) == complement_of(i as int, sel));
                assert forall|m: int| cursor as int + 1 <= m < sel.len() implies #[trigger] sel[m]
                    >= i as int + 1 by {
                    assert(sel[cursor as int] < sel[m]);
                }
            }
            cursor += 1;
        } else {
            proof {
                assert(!sel.contains(i as int)) by {
                    if sel.contains(i as int) {
                        let m = choose|m: int| 0 <= m < sel.len() && sel[m] == i as int;
                        if m < cursor {
                            assert(sel[m] < i as int);
                        } else {
                            assert(sel[m] == selected@[m] as int);
                            if m > cursor {
                                assert(sel[cursor as int] < sel[m]);
                                assert(sel[cursor as int] >= i as int);
                            }
                        }
                    }
                }
                assert(complement_of(i as int + 1, sel) == complement_of(i as int, sel).push(
                    i as int,
                ));
            }
            let ghost prev_res = result@;
            result.push(knapsack_inputs[i].1.state_code.clone());
            proof {
                assert(result@.map_values(|s: String| s@) =~= prev_res.map_values(
                    |s: String| s@,
                ).push(pv[i as int].1.state_code));
                assert(complement_of(i as int + 1, sel).map_values(|ix: int| pv[ix].1.state_code)
                    =~= complement_of(i as int, sel).map_values(|ix: int| pv[ix].1.state_code).push(
                    pv[i as int].1.state_code,
                ));
            }
        }
        i += 1;
    }
    result
}

} // verus!
