use randbats_winrates::FinalStats;
use randbats_winrates::Stats;

const TEAM_ONE: &[u8] = br#"[{"species":"Rotom-Fan","level":100},{"species":"Regirock","level":100},{"species":"Conkeldurr","level":100},{"species":"Reuniclus","level":100},{"species":"Incineroar","level":100},{"species":"Miltank","level":100}]"#;
const TEAM_TWO: &[u8] = br#"[{"species":"Drednaw","level":100},{"species":"Pinsir","level":100},{"species":"Pikachu-Kalos","level":100},{"species":"Latios","level":100},{"species":"Entei","level":100},{"species":"Exeggutor-Alola","level":100}]"#;

fn sample_record<'a>() -> Vec<Option<&'a [u8]>> {
    vec![
        Some(b"1100"),
        Some(TEAM_ONE),
        Some(b"annika"),
        Some(b"1400"),
        Some(TEAM_TWO),
        Some(b"rust haters"),
        Some(b"annika"),
    ]
}

fn finals_for(stats: &Stats) -> Vec<FinalStats> {
    let mut finals = Vec::new();
    for i in 0..stats.len() {
        let (_, counters) = stats.get_entry(i);
        let games = counters.games as f32;
        let winrate = (counters.wins as f32 / games) * 100.0;
        let deviations = (winrate - 50.0) * games.sqrt() / 50.0;
        finals.push(FinalStats {
            winrate: winrate.to_string(),
            deviations: deviations.to_string(),
        });
    }
    finals
}

#[test]
fn thousand_identical_records_round_trip() {
    let records: Vec<Vec<Option<&[u8]>>> = (0..1000).map(|_| sample_record()).collect();
    let mut stats = Stats::aggregate(1050, &records).unwrap();
    stats.sort();
    let finals = finals_for(&stats);

    assert_eq!(
        stats.to_csv(&finals),
        "\"Rotom-Fan\",1000,1000,100,31.622776
\"Regirock\",1000,1000,100,31.622776
\"Conkeldurr\",1000,1000,100,31.622776
\"Reuniclus\",1000,1000,100,31.622776
\"Incineroar\",1000,1000,100,31.622776
\"Miltank\",1000,1000,100,31.622776
\"Drednaw\",1000,0,0,-31.622776
\"Pinsir\",1000,0,0,-31.622776
\"Pikachu\",1000,0,0,-31.622776
\"Latios\",1000,0,0,-31.622776
\"Entei\",1000,0,0,-31.622776
\"Exeggutor-Alola\",1000,0,0,-31.622776"
    );
    assert_eq!(
        stats.to_human_readable(&finals),
        "+------+-----------------+------------+---------+-------+------+
| Rank | Pokemon         | Deviations | Winrate | Games | Wins |
+------+-----------------+------------+---------+-------+------+
| 1    | Rotom-Fan       | 31.622776  | 100%    | 1000  | 1000 |
+------+-----------------+------------+---------+-------+------+
| 2    | Regirock        | 31.622776  | 100%    | 1000  | 1000 |
+------+-----------------+------------+---------+-------+------+
| 3    | Conkeldurr      | 31.622776  | 100%    | 1000  | 1000 |
+------+-----------------+------------+---------+-------+------+
| 4    | Reuniclus       | 31.622776  | 100%    | 1000  | 1000 |
+------+-----------------+------------+---------+-------+------+
| 5    | Incineroar      | 31.622776  | 100%    | 1000  | 1000 |
+------+-----------------+------------+---------+-------+------+
| 6    | Miltank         | 31.622776  | 100%    | 1000  | 1000 |
+------+-----------------+------------+---------+-------+------+
| 7    | Drednaw         | -31.622776 | 0%      | 1000  | 0    |
+------+-----------------+------------+---------+-------+------+
| 8    | Pinsir          | -31.622776 | 0%      | 1000  | 0    |
+------+-----------------+------------+---------+-------+------+
| 9    | Pikachu         | -31.622776 | 0%      | 1000  | 0    |
+------+-----------------+------------+---------+-------+------+
| 10   | Latios          | -31.622776 | 0%      | 1000  | 0    |
+------+-----------------+------------+---------+-------+------+
| 11   | Entei           | -31.622776 | 0%      | 1000  | 0    |
+------+-----------------+------------+---------+-------+------+
| 12   | Exeggutor-Alola | -31.622776 | 0%      | 1000  | 0    |
+------+-----------------+------------+---------+-------+------+
"
    );
}

#[test]
fn serialized_output_splits_back_into_fields() {
    let records: Vec<Vec<Option<&[u8]>>> = (0..3).map(|_| sample_record()).collect();
    let mut stats = Stats::aggregate(1050, &records).unwrap();
    stats.sort();
    let finals = finals_for(&stats);
    let csv = stats.to_csv(&finals);
    let lines: Vec<&str> = csv.split('\n').collect();
    assert_eq!(lines.len(), stats.len());
    for (i, line) in lines.iter().enumerate() {
        let fields: Vec<&str> = line.split(',').collect();
        assert_eq!(fields.len(), 5);
        let (species, counters) = stats.get_entry(i);
        assert_eq!(fields[0], species);
        assert_eq!(fields[1], counters.games.to_string());
        assert_eq!(fields[2], counters.wins.to_string());
        assert_eq!(fields[3], finals[i].winrate);
        assert_eq!(fields[4], finals[i].deviations);
    }
}
