//! The time-versioned electoral-vote weight table.
//!
//! [`ElectoralVoteMap`] maps unit codes to electoral-vote weights and behaves
//! like a map: inserting an existing code replaces its weight. A full table
//! is a sequence of such maps sorted by the year each took effect;
//! [`get_electoral_votes_for_year`] finds the version in effect for a year by
//! binary search.

use vstd::prelude::*;
use vstd::pervasive::VecAdditionalExecFns;

verus! {

/// Electoral-vote weights for one weight-table version, keyed by unit code.
/// Viewed as a map from the code's characters to the weight.
pub struct ElectoralVoteMap {
    entries: Vec<(String, u8)>,
}

/// The map that a sequence of code/weight entries stands for; later entries
/// replace earlier ones with the same code.
pub open spec fn entries_map(entries: Seq<(String, u8)>) -> Map<Seq<char>, u8>
    decreases entries.len(),
{
    if entries.len() == 0 {
        Map::empty()
    } else {
        entries_map(entries.drop_last()).insert(entries.last().0@, entries.last().1)
    }
}

/// No two entries share a code.
spec fn unique_codes(entries: Seq<(String, u8)>) -> bool {
    forall|k1: int, k2: int|
        0 <= k1 < k2 < entries.len() ==> (#[trigger] entries[k1]).0@ != (#[trigger] entries[k2]).0@
}

/// Summed weight of a sequence of entries.
spec fn entries_total(entries: Seq<(String, u8)>) -> int
    decreases entries.len(),
{
    if entries.len() == 0 {
        0
    } else {
        entries_total(entries.drop_last()) + entries.last().1 as int
    }
}

impl View for ElectoralVoteMap {
    type V = Map<Seq<char>, u8>;

    closed spec fn view(&self) -> Map<Seq<char>, u8> {
        entries_map(self.entries@)
    }
}

proof fn lemma_entries_map_contains(entries: Seq<(String, u8)>, code: Seq<char>)
    ensures
        entries_map(entries).contains_key(code) <==> exists|k: int|
            0 <= k < entries.len() && (#[trigger] entries[k]).0@ == code,
    decreases entries.len(),
{
    if entries.len() > 0 {
        let prev = entries.drop_last();
        lemma_entries_map_contains(prev, code);
        if entries.last().0@ == code {
            assert(entries[entries.len() - 1].0@ == code);
        } else if entries_map(entries).contains_key(code) {
            let k = choose|k: int| 0 <= k < prev.len() && (#[trigger] prev[k]).0@ == code;
            assert(entries[k].0@ == code);
        } else if exists|k: int| 0 <= k < entries.len() && (#[trigger] entries[k]).0@ == code {
            let k = choose|k: int| 0 <= k < entries.len() && (#[trigger] entries[k]).0@ == code;
            assert(prev[k].0@ == code);
        }
    }
}

proof fn lemma_entries_map_value(entries: Seq<(String, u8)>, k: int)
    requires
        0 <= k < entries.len(),
        forall|j: int| k < j < entries.len() ==> (#[trigger] entries[j]).0@ != entries[k].0@,
    ensures
        entries_map(entries).contains_key(entries[k].0@),
        entries_map(entries)[entries[k].0@] == entries[k].1,
    decreases entries.len(),
{
    if k == entries.len() - 1 {
    } else {
        let prev = entries.drop_last();
        assert(prev[k] == entries[k]);
        lemma_entries_map_value(prev, k);
        assert(entries.last().0@ != entries[k].0@);
    }
}

proof fn lemma_entries_map_update(entries: Seq<(String, u8)>, k: int, e: (String, u8))
    requires
        0 <= k < entries.len(),
        entries[k].0@ == e.0@,
        unique_codes(entries),
    ensures
        entries_map(entries.update(k, e)) == entries_map(entries).insert(e.0@, e.1),
    decreases entries.len(),
{
    let updated = entries.update(k, e);
    if k == entries.len() - 1 {
        assert(updated.drop_last() =~= entries.drop_last());
        assert(updated.last() == e);
        assert(entries_map(updated) =~= entries_map(entries).insert(e.0@, e.1));
    } else {
        assert(updated.drop_last() =~= entries.drop_last().update(k, e));
        assert(updated.last() == entries.last());
        assert(entries.drop_last()[k] == entries[k]);
        lemma_entries_map_update(entries.drop_last(), k, e);
        // the replaced code differs from the last entry's code, so the two
        // inserts commute
        assert(entries[k].0@ != entries.last().0@);
        assert(entries_map(updated) =~= entries_map(entries).insert(e.0@, e.1));
    }
}

proof fn lemma_entries_total_update(entries: Seq<(String, u8)>, k: int, e: (String, u8))
    requires
        0 <= k < entries.len(),
    ensures
        entries_total(entries.update(k, e)) == entries_total(entries) - entries[k].1 + e.1,
    decreases entries.len(),
{
    let updated = entries.update(k, e);
    if k == entries.len() - 1 {
        assert(updated.drop_last() =~= entries.drop_last());
        assert(updated.last() == e);
    } else {
        assert(updated.drop_last() =~= entries.drop_last().update(k, e));
        assert(updated.last() == entries.last());
        assert(entries.drop_last()[k] == entries[k]);
        lemma_entries_total_update(entries.drop_last(), k, e);
    }
}

proof fn lemma_entries_total_take_le(entries: Seq<(String, u8)>, a: int)
    requires
        0 <= a <= entries.len(),
    ensures
        entries_total(entries.take(a)) <= entries_total(entries),
    decreases entries.len() - a,
{
    if a == entries.len() {
        assert(entries.take(a) =~= entries);
    } else {
        assert(entries.take(a + 1).drop_last() =~= entries.take(a));
        assert(entries.take(a + 1).last() == entries[a]);
        lemma_entries_total_take_le(entries, a + 1);
    }
}

/// Finds the first entry whose code equals `code`.
fn find_code(entries: &Vec<(String, u8)>, code: &String) -> (r: Option<usize>)
    ensures
        match r {
            Option::Some(k) => {
                &&& k < entries@.len()
                &&& entries@[k as int].0@ == code@
                &&& forall|m: int| 0 <= m < k ==> (#[trigger] entries@[m]).0@ != code@
            },
            Option::None => forall|m: int|
                0 <= m < entries@.len() ==> (#[trigger] entries@[m]).0@ != code@,
        },
{
    let n: usize = entries.len();
    let mut k: usize = 0;
    while k < n
        invariant
            k <= n,
            n == entries@.len(),
            forall|m: int| 0 <= m < k ==> (#[trigger] entries@[m]).0@ != code@,
        decreases n - k,
    {
        if entries[k].0 == *code {
            return Some(k);
        }
        k += 1;
    }
    None
}

impl ElectoralVoteMap {
    #[verifier::type_invariant]
    spec fn wf(self) -> bool {
        unique_codes(self.entries@)
    }

    /// Summed weight of all stored entries.
    pub closed spec fn spec_total(&self) -> int {
        entries_total(self.entries@)
    }

    /// An empty weight table version.
    pub fn new() -> (r: Self)
        ensures
            r@ == Map::<Seq<char>, u8>::empty(),
            r.spec_total() == 0,
    {
        ElectoralVoteMap { entries: Vec::new() }
    }

    /// Stores `votes` under `code`, replacing any previous weight for the
    /// same code.
    pub fn insert(&mut self, code: String, votes: u8)
        ensures
            final(self)@ == old(self)@.insert(code@, votes),
            final(self).spec_total() == old(self).spec_total() + votes - (if old(
                self,
            )@.contains_key(code@) {
                old(self)@[code@] as int
            } else {
                0
            }),
    {
        proof {
            use_type_invariant(&*self);
        }
        let mut entries: Vec<(String, u8)> = Vec::new();
        std::mem::swap(&mut entries, &mut self.entries);
        let ghost old_entries = entries@;
        match find_code(&entries, &code) {
            Option::Some(k) => {
                proof {
                    assert forall|j: int|
                        k < j < old_entries.len() implies (#[trigger] old_entries[j]).0@
                        != old_entries[k as int].0@ by {}
                    lemma_entries_map_value(old_entries, k as int);
                    lemma_entries_map_update(old_entries, k as int, (code, votes));
                    lemma_entries_total_update(old_entries, k as int, (code, votes));
                    lemma_entries_map_contains(old_entries, code@);
                }
                entries.set(k, (code, votes));
            },
            Option::None => {
                proof {
                    lemma_entries_map_contains(old_entries, code@);
                }
                entries.push((code, votes));
                proof {
                    assert(entries@.drop_last() =~= old_entries);
                }
            },
        }
        self.entries = entries;
    }

    /// Looks `code` up; `Some` exactly when the code is stored.
    pub fn get(&self, code: &String) -> (r: Option<u8>)
        ensures
            r == (if self@.contains_key(code@) {
                Option::Some(self@[code@])
            } else {
                Option::None::<u8>
            }),
    {
        proof {
            use_type_invariant(self);
        }
        match find_code(&self.entries, code) {
            Option::Some(k) => {
                proof {
                    lemma_entries_map_value(self.entries@, k as int);
                }
                Some(self.entries[k].1)
            },
            Option::None => {
                proof {
                    lemma_entries_map_contains(self.entries@, code@);
                }
                None
            },
        }
    }

    /// Sums all stored weights.
    pub fn total_votes(&self) -> (r: usize)
        requires
            self.spec_total() <= usize::MAX as int,
        ensures
            r as int == self.spec_total(),
    {
        let n: usize = self.entries.len();
        let mut sum: usize = 0;
        let mut k: usize = 0;
        while k < n
            invariant
                k <= n,
                n == self.entries@.len(),
                self.spec_total() <= usize::MAX as int,
                self.spec_total() == entries_total(self.entries@),
                sum as int == entries_total(self.entries@.take(k as int)),
            decreases n - k,
        {
            proof {
                assert(self.entries@.take(k as int + 1).drop_last() =~= self.entries@.take(
                    k as int,
                ));
                assert(self.entries@.take(k as int + 1).last() == self.entries@[k as int]);
                lemma_entries_total_take_le(self.entries@, k as int + 1);
            }
            sum = sum + self.entries[k].1 as usize;
            k += 1;
        }
        proof {
            assert(self.entries@.take(n as int) =~= self.entries@);
        }
        sum
    }
}

/// A full weight table: one map per version, tagged with the year it took
/// effect.
pub type AllElectoralVotes = Vec<(u32, ElectoralVoteMap)>;

/// The table's versions are in strictly ascending order of effective year.
pub open spec fn years_sorted(table: Seq<(u32, ElectoralVoteMap)>) -> bool {
    forall|i: int, j: int|
        0 <= i < j < table.len() ==> (#[trigger] table[i]).0 < (#[trigger] table[j]).0
}

/// Index of the latest version effective by `year`: the largest index whose
/// effective year is at most `year`, or -1 when the year predates the table.
pub open spec fn year_index(table: Seq<(u32, ElectoralVoteMap)>, year: u32) -> int
    decreases table.len(),
{
    if table.len() == 0 {
        -1
    } else if table.last().0 <= year {
        table.len() - 1
    } else {
        year_index(table.drop_last(), year)
    }
}

/// Law: on a sorted, applicable table, [`year_index`] is exactly the entry
/// whose effective year is at most the queried year while the next entry's
/// (if any) is later.
pub proof fn lemma_year_index_props(table: Seq<(u32, ElectoralVoteMap)>, year: u32)
    requires
        years_sorted(table),
        table.len() > 0,
        table[0].0 <= year,
    ensures
        0 <= year_index(table, year) < table.len(),
        table[year_index(table, year)].0 <= year,
        year_index(table, year) == table.len() - 1 || year < table[year_index(table, year) + 1].0,
    decreases table.len(),
{
    if table.last().0 <= year {
    } else {
        let prev = table.drop_last();
        assert(prev[0] == table[0]);
        lemma_year_index_props(prev, year);
        let yi = year_index(prev, year);
        assert(prev[yi] == table[yi]);
        if yi < prev.len() - 1 {
            assert(prev[yi + 1] == table[yi + 1]);
        }
    }
}

proof fn lemma_year_index_unique(table: Seq<(u32, ElectoralVoteMap)>, year: u32, i: int)
    requires
        years_sorted(table),
        0 <= i < table.len(),
        table[i].0 <= year,
        i == table.len() - 1 || year < table[i + 1].0,
    ensures
        year_index(table, year) == i,
    decreases table.len(),
{
    if table.last().0 <= year {
        if i < table.len() - 1 {
            assert(table[i + 1].0 <= table[table.len() - 1].0);
        }
    } else {
        let prev = table.drop_last();
        assert(prev[i] == table[i]);
        assert(table[i].0 < table.last().0);
        if i < prev.len() - 1 {
            assert(prev[i + 1] == table[i + 1]);
        }
        lemma_year_index_unique(prev, year, i);
    }
}

/// The weight-table version in effect for `year`: the entry with the largest
/// effective year at most `year`, found by binary search. The queried year
/// must not predate the table's first version.
pub fn get_electoral_votes_for_year(electoral_votes: &AllElectoralVotes, year: u32) -> (r:
    &ElectoralVoteMap)
    requires
        electoral_votes@.len() > 0,
        years_sorted(electoral_votes@),
        electoral_votes@[0].0 <= year,
    ensures
        *r == electoral_votes@[year_index(electoral_votes@, year)].1,
        0 <= year_index(electoral_votes@, year) < electoral_votes@.len(),
{
    let n: usize = electoral_votes.len();
    let mut lo: usize = 0;
    let mut hi: usize = n;
    while lo < hi
        invariant
            lo <= hi <= n,
            n == electoral_votes@.len(),
            years_sorted(electoral_votes@),
            electoral_votes@[0].0 <= year,
            forall|m: int| 0 <= m < lo ==> (#[trigger] electoral_votes@[m]).0 <= year,
            forall|m: int| hi <= m < n ==> (#[trigger] electoral_votes@[m]).0 > year,
        decreases hi - lo,
    {
        let mid: usize = lo + (hi - lo) / 2;
        if electoral_votes[mid].0 <= year {
            proof {
                assert forall|m: int| 0 <= m < mid + 1 implies (#[trigger] electoral_votes@[m]).0
                    <= year by {
                    if m < mid {
                        assert(electoral_votes@[m].0 < electoral_votes@[mid as int].0);
                    }
                }
            }
            lo = mid + 1;
        } else {
            proof {
                assert forall|m: int| mid <= m < n implies (#[trigger] electoral_votes@[m]).0
                    > year by {
                    if m > mid {
                        assert(electoral_votes@[mid as int].0 < electoral_votes@[m].0);
                    }
                }
            }
            hi = mid;
        }
    }
    proof {
        assert(lo >= 1);
        lemma_year_index_unique(electoral_votes@, year, lo - 1 as int);
    }
    &electoral_votes[lo - 1].1
}

} // verus!
