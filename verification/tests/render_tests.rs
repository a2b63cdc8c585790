use randbats_winrates::FinalStats;
use randbats_winrates::GameResult;
use randbats_winrates::Stats;

fn finals_for(stats: &Stats) -> Vec<FinalStats> {
    let mut finals = Vec::new();
    for i in 0..stats.len() {
        let (_, counters) = stats.get_entry(i);
        let games = counters.games as f32;
        let winrate = (counters.wins as f32 / games) * 100.0;
        let deviations = (winrate - 50.0) * games.sqrt() / 50.0;
        finals.push(FinalStats {
            winrate: winrate.to_string(),
            deviations: deviations.to_string(),
        });
    }
    finals
}

#[test]
fn csv_of_one_species() {
    let mut stats = Stats::new();
    stats.add_game_results(vec![
        GameResult::new("\"A\"".to_string(), true),
        GameResult::new("\"A\"".to_string(), false),
    ]);
    stats.sort();
    let finals = finals_for(&stats);
    assert_eq!(stats.to_csv(&finals), "\"A\",2,1,50,0");
}

#[test]
fn csv_lines_follow_rank_order() {
    let mut stats = Stats::new();
    stats.add_game_results(vec![
        GameResult::new("\"Low\"".to_string(), false),
        GameResult::new("\"High\"".to_string(), true),
    ]);
    stats.sort();
    let finals = finals_for(&stats);
    let csv = stats.to_csv(&finals);
    let lines: Vec<&str> = csv.split('\n').collect();
    assert_eq!(lines.len(), 2);
    let first: Vec<&str> = lines[0].split(',').collect();
    let second: Vec<&str> = lines[1].split(',').collect();
    assert_eq!(first, vec!["\"High\"", "1", "1", "100", "1"]);
    assert_eq!(second, vec!["\"Low\"", "1", "0", "0", "-1"]);
}

#[test]
fn table_of_one_species() {
    let mut stats = Stats::new();
    stats.add_game_results(vec![
        GameResult::new("\"A\"".to_string(), true),
        GameResult::new("\"A\"".to_string(), false),
    ]);
    stats.sort();
    let finals = finals_for(&stats);
    assert_eq!(
        stats.to_human_readable(&finals),
        "+------+---------+------------+---------+-------+------+
| Rank | Pokemon | Deviations | Winrate | Games | Wins |
+------+---------+------------+---------+-------+------+
| 1    | A       | 0          | 50%     | 2     | 1    |
+------+---------+------------+---------+-------+------+
"
    );
}

#[test]
fn empty_store_serializes_to_nothing() {
    let mut stats = Stats::new();
    stats.sort();
    let finals: Vec<FinalStats> = Vec::new();
    assert_eq!(stats.to_csv(&finals), "");
    assert_eq!(stats.len(), 0);
}
