use randbats_winrates::GameResult;
use randbats_winrates::Stats;

fn result(species: &str, won: bool) -> GameResult {
    GameResult::new(species.to_string(), won)
}

fn entries_of(stats: &Stats) -> Vec<(String, u32, u32)> {
    let mut out = Vec::new();
    for i in 0..stats.len() {
        let (species, counters) = stats.get_entry(i);
        out.push((species, counters.games, counters.wins));
    }
    out
}

fn sorted_entries_of(stats: &Stats) -> Vec<(String, u32, u32)> {
    let mut out = entries_of(stats);
    out.sort();
    out
}

#[test]
fn merge_counts_games_and_wins() {
    let mut stats = Stats::new();
    stats.add_game_results(vec![result("\"A\"", true), result("\"B\"", false)]);
    stats.add_game_results(vec![result("\"A\"", false), result("\"A\"", true)]);
    assert_eq!(
        entries_of(&stats),
        vec![("\"A\"".to_string(), 3, 2), ("\"B\"".to_string(), 1, 0)]
    );
}

#[test]
fn merge_of_empty_batch_changes_nothing() {
    let mut stats = Stats::new();
    stats.add_game_results(vec![result("\"A\"", true)]);
    stats.add_game_results(vec![]);
    assert_eq!(entries_of(&stats), vec![("\"A\"".to_string(), 1, 1)]);
}

#[test]
fn merge_is_order_independent_on_the_counters() {
    // the same multiset of results in two different batch orders
    let batch_a = || vec![result("\"X\"", true), result("\"Y\"", false)];
    let batch_b = || vec![result("\"Y\"", true), result("\"Z\"", true)];
    let batch_c = || vec![result("\"X\"", false)];

    let mut one = Stats::new();
    one.add_game_results(batch_a());
    one.add_game_results(batch_b());
    one.add_game_results(batch_c());

    let mut two = Stats::new();
    two.add_game_results(batch_c());
    two.add_game_results(batch_a());
    two.add_game_results(batch_b());
    two.add_game_results(vec![]);

    assert_eq!(sorted_entries_of(&one), sorted_entries_of(&two));
}

#[test]
fn wins_never_exceed_games() {
    let mut stats = Stats::new();
    for round in 0..50u32 {
        stats.add_game_results(vec![
            result("\"A\"", round % 2 == 0),
            result("\"B\"", true),
            result("\"C\"", false),
        ]);
        for (_, games, wins) in entries_of(&stats) {
            assert!(wins <= games);
        }
    }
}

#[test]
fn sort_ranks_by_deviations_descending() {
    let mut stats = Stats::new();
    // one win out of one game scores below ten wins out of ten games
    stats.add_game_results(vec![result("\"Once\"", true)]);
    for _ in 0..10 {
        stats.add_game_results(vec![result("\"Often\"", true), result("\"Loser\"", false)]);
    }
    stats.sort();
    let ranked = entries_of(&stats);
    assert_eq!(ranked[0].0, "\"Often\"");
    assert_eq!(ranked[1].0, "\"Once\"");
    assert_eq!(ranked[2].0, "\"Loser\"");
}

#[test]
fn sort_is_stable_for_equal_deviations() {
    let mut stats = Stats::new();
    // four species with identical counters keep their insertion order
    stats.add_game_results(vec![
        result("\"First\"", true),
        result("\"Second\"", true),
        result("\"Third\"", true),
        result("\"Fourth\"", true),
    ]);
    stats.add_game_results(vec![
        result("\"First\"", false),
        result("\"Second\"", false),
        result("\"Third\"", false),
        result("\"Fourth\"", false),
    ]);
    stats.sort();
    let ranked: Vec<String> = entries_of(&stats).into_iter().map(|e| e.0).collect();
    assert_eq!(ranked, vec!["\"First\"", "\"Second\"", "\"Third\"", "\"Fourth\""]);
}

#[test]
fn sort_twice_is_sort_once() {
    let mut stats = Stats::new();
    stats.add_game_results(vec![result("\"A\"", true), result("\"B\"", false)]);
    stats.sort();
    let once = entries_of(&stats);
    stats.sort();
    assert_eq!(entries_of(&stats), once);
}

#[test]
fn game_result_accessors() {
    let r = result("\"Miltank\"", true);
    assert_eq!(r.species(), "\"Miltank\"");
    assert!(r.won());
}
