use randbats_winrates::Stats;
use randbats_winrates::StatsError;

fn record<'a>(
    elo1: Option<&'a [u8]>,
    team1: Option<&'a [u8]>,
    p1: Option<&'a [u8]>,
    elo2: Option<&'a [u8]>,
    team2: Option<&'a [u8]>,
    p2: Option<&'a [u8]>,
    winner: Option<&'a [u8]>,
) -> Vec<Option<&'a [u8]>> {
    vec![elo1, team1, p1, elo2, team2, p2, winner]
}

const TEAM_ONE: &[u8] = br#"[{"species":"Orbeetle","level":100},{"species":"Pikachu-Alola"}]"#;
const TEAM_TWO: &[u8] = br#"[{"species":"Miltank"}]"#;

fn outcomes(json: &Vec<Option<&[u8]>>) -> Vec<(String, bool)> {
    Stats::process_json(1050, json)
        .unwrap()
        .into_iter()
        .map(|r| (r.species().clone(), r.won()))
        .collect()
}

#[test]
fn extracts_species_and_win_flags() {
    let json = record(
        Some(b"1100"),
        Some(TEAM_ONE),
        Some(b"annika"),
        Some(b"1400"),
        Some(TEAM_TWO),
        Some(b"rust haters"),
        Some(b"annika"),
    );
    assert_eq!(
        outcomes(&json),
        vec![
            ("\"Orbeetle\"".to_string(), true),
            ("\"Pikachu\"".to_string(), true),
            ("\"Miltank\"".to_string(), false),
        ]
    );
}

#[test]
fn missing_rating_filters_whole_record() {
    let json = record(
        None,
        Some(TEAM_ONE),
        Some(b"annika"),
        Some(b"1400"),
        Some(TEAM_TWO),
        Some(b"rust haters"),
        Some(b"annika"),
    );
    assert_eq!(outcomes(&json), vec![]);
}

#[test]
fn unparsable_rating_filters_whole_record() {
    let json = record(
        Some(b"not a number"),
        Some(TEAM_ONE),
        Some(b"annika"),
        Some(b"1400"),
        Some(TEAM_TWO),
        Some(b"rust haters"),
        Some(b"annika"),
    );
    assert_eq!(outcomes(&json), vec![]);
}

#[test]
fn below_threshold_rating_filters_whole_record() {
    let json = record(
        Some(b"1049"),
        Some(TEAM_ONE),
        Some(b"annika"),
        Some(b"1400"),
        Some(TEAM_TWO),
        Some(b"rust haters"),
        Some(b"annika"),
    );
    assert_eq!(outcomes(&json), vec![]);
}

#[test]
fn one_low_side_contributes_zero_from_either_side() {
    // the first side passes, the second falls short: no outcome at all
    let json = record(
        Some(b"1800"),
        Some(TEAM_ONE),
        Some(b"annika"),
        Some(b"1049.9"),
        Some(TEAM_TWO),
        Some(b"rust haters"),
        Some(b"annika"),
    );
    assert_eq!(outcomes(&json), vec![]);
}

#[test]
fn fractional_rating_compares_by_whole_part() {
    let json = record(
        Some(b"1050.0"),
        Some(TEAM_TWO),
        Some(b"annika"),
        Some(b"1050.9"),
        None,
        Some(b"rust haters"),
        Some(b"someone else"),
    );
    assert_eq!(outcomes(&json), vec![("\"Miltank\"".to_string(), false)]);
}

#[test]
fn absent_team_is_skipped_without_failing() {
    let json = record(
        Some(b"1100"),
        None,
        Some(b"annika"),
        Some(b"1400"),
        Some(TEAM_TWO),
        Some(b"rust haters"),
        Some(b"rust haters"),
    );
    assert_eq!(outcomes(&json), vec![("\"Miltank\"".to_string(), true)]);
}

#[test]
fn malformed_team_blob_is_a_team_error() {
    let json = record(
        Some(b"1100"),
        Some(b"not a team"),
        Some(b"annika"),
        Some(b"1400"),
        Some(TEAM_TWO),
        Some(b"rust haters"),
        Some(b"annika"),
    );
    match Stats::process_json(1050, &json) {
        Err(StatsError::Team(_)) => {}
        other => panic!("expected a team error, got {:?}", other.is_ok()),
    }
}

#[test]
fn entry_without_species_is_skipped() {
    let team: &[u8] = br#"[{"level":50},{"species":"Entei"}]"#;
    let json = record(
        Some(b"1100"),
        Some(team),
        Some(b"annika"),
        Some(b"1400"),
        None,
        Some(b"rust haters"),
        Some(b"annika"),
    );
    assert_eq!(outcomes(&json), vec![("\"Entei\"".to_string(), true)]);
}

#[test]
fn undecodable_entry_is_a_json_error() {
    // an entry whose brace structure is broken fails the whole record
    let team: &[u8] = br#"[{}}]"#;
    let json = record(
        Some(b"1100"),
        Some(team),
        Some(b"annika"),
        Some(b"1400"),
        None,
        Some(b"rust haters"),
        Some(b"annika"),
    );
    match Stats::process_json(1050, &json) {
        Err(StatsError::JSON(_)) => {}
        other => panic!("expected a JSON error, got ok={:?}", other.is_ok()),
    }
}

#[test]
fn aggregate_merges_all_records() {
    let json1 = record(
        Some(b"1100"),
        Some(TEAM_TWO),
        Some(b"annika"),
        Some(b"1400"),
        None,
        Some(b"rust haters"),
        Some(b"annika"),
    );
    let json2 = record(
        Some(b"1100"),
        Some(TEAM_TWO),
        Some(b"annika"),
        Some(b"1400"),
        None,
        Some(b"rust haters"),
        Some(b"rust haters"),
    );
    let records = vec![json1, json2];
    let stats = Stats::aggregate(1050, &records).unwrap();
    assert_eq!(stats.len(), 1);
    let (species, counters) = stats.get_entry(0);
    assert_eq!(species, "\"Miltank\"");
    assert_eq!((counters.games, counters.wins), (2, 1));
}

#[test]
fn huge_rating_passes_any_threshold() {
    let json = record(
        Some(b"99999999999999999999999999"),
        Some(TEAM_TWO),
        Some(b"annika"),
        Some(b"1400"),
        None,
        Some(b"rust haters"),
        Some(b"annika"),
    );
    assert_eq!(outcomes(&json), vec![("\"Miltank\"".to_string(), true)]);
}

#[test]
fn empty_creature_entry_contributes_nothing() {
    let team: &[u8] = br#"[{}]"#;
    let json = record(
        Some(b"1100"),
        Some(team),
        Some(b"annika"),
        Some(b"1400"),
        None,
        Some(b"rust haters"),
        Some(b"annika"),
    );
    assert_eq!(outcomes(&json), vec![]);
}
