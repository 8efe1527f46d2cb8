use min_votes_to_change_result::AllElectoralVotes;
use min_votes_to_change_result::ElectoralVoteMap;
use min_votes_to_change_result::get_electoral_votes_for_year;

fn map_with(entries: &[(&str, u8)]) -> ElectoralVoteMap {
    let mut map = ElectoralVoteMap::new();
    for (code, votes) in entries {
        map.insert(code.to_string(), *votes);
    }
    map
}

#[test]
#[allow(non_snake_case)]
fn test_electoral_votes_for_year() {
    let table: AllElectoralVotes = vec![
        (1972, map_with(&[("TX", 26)])),
        (1984, map_with(&[("TX", 29)])),
        (1992, map_with(&[("TX", 32)])),
        (2004, map_with(&[("TX", 34)])),
        (2012, map_with(&[("TX", 38)])),
    ];
    let knownTXValues = [
        (1972, 26),
        (1976, 26),
        (1980, 26),
        (1984, 29),
        (1988, 29),
        (1992, 32),
        (1996, 32),
        (2000, 32),
        (2004, 34),
        (2008, 34),
        (2012, 38),
        (2016, 38),
        (2020, 38),
    ];
    for (year, knownTXValue) in knownTXValues.iter() {
        assert_eq!(
            (year, *knownTXValue),
            (
                year,
                get_electoral_votes_for_year(&table, *year).get(&"TX".to_string()).unwrap()
            )
        );
    }
}

#[test]
fn test_insert_replaces_weight() {
    let mut map = ElectoralVoteMap::new();
    map.insert("TX".to_string(), 26);
    map.insert("CA".to_string(), 45);
    map.insert("TX".to_string(), 38);
    assert_eq!(Some(38), map.get(&"TX".to_string()));
    assert_eq!(Some(45), map.get(&"CA".to_string()));
    assert_eq!(None, map.get(&"VT".to_string()));
    assert_eq!(83, map.total_votes());
}

#[test]
fn test_total_votes_of_empty_map() {
    let map = ElectoralVoteMap::new();
    assert_eq!(0, map.total_votes());
}

#[test]
fn test_weight_table_version_boundaries() {
    let table: AllElectoralVotes = vec![
        (1972, map_with(&[("TX", 26), ("CA", 45)])),
        (1984, map_with(&[("TX", 29), ("CA", 47)])),
    ];
    assert_eq!(Some(26), get_electoral_votes_for_year(&table, 1972).get(&"TX".to_string()));
    assert_eq!(Some(26), get_electoral_votes_for_year(&table, 1983).get(&"TX".to_string()));
    assert_eq!(Some(29), get_electoral_votes_for_year(&table, 1984).get(&"TX".to_string()));
    assert_eq!(Some(47), get_electoral_votes_for_year(&table, 2024).get(&"CA".to_string()));
}
