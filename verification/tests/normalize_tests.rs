use randbats_winrates::normalize::normalize_species;
use randbats_winrates::normalize::rule_table;

#[test]
fn prefix_rules_collapse_variants() {
    assert_eq!(normalize_species("\"Pikachu-Alola\""), "\"Pikachu\"");
    assert_eq!(normalize_species("\"Unown-F\""), "\"Unown\"");
    assert_eq!(normalize_species("\"Basculin-Blue-Striped\""), "\"Basculin\"");
    assert_eq!(normalize_species("\"Sawsbuck-Autumn\""), "\"Sawsbuck\"");
    assert_eq!(normalize_species("\"Vivillon-Fancy\""), "\"Vivillon\"");
    assert_eq!(normalize_species("\"Florges-Blue\""), "\"Florges\"");
    assert_eq!(normalize_species("\"Furfrou-Star\""), "\"Furfrou\"");
    assert_eq!(normalize_species("\"Minior-Meteor\""), "\"Minior\"");
    assert_eq!(normalize_species("\"Gourgeist-Large\""), "\"Gourgeist\"");
    assert_eq!(normalize_species("\"Toxtricity-Low-Key\""), "\"Toxtricity\"");
}

#[test]
fn exact_rules_collapse_specific_forms() {
    assert_eq!(normalize_species("\"Gastrodon-East\""), "\"Gastrodon\"");
    assert_eq!(normalize_species("\"Magearna-Original\""), "\"Magearna\"");
    assert_eq!(normalize_species("\"Genesect-Douse\""), "\"Genesect\"");
}

#[test]
fn unmatched_species_pass_through() {
    assert_eq!(normalize_species("\"Orbeetle\""), "\"Orbeetle\"");
    assert_eq!(normalize_species("\"Exeggutor-Alola\""), "\"Exeggutor-Alola\"");
    assert_eq!(normalize_species(""), "");
    // an exact match needs the whole quoted identifier
    assert_eq!(normalize_species("\"Genesect-Douse"), "\"Genesect-Douse");
    assert_eq!(normalize_species("\"Genesect-Douse\" "), "\"Genesect-Douse\" ");
}

#[test]
fn normalization_is_idempotent_on_samples() {
    let samples = [
        "\"Pikachu-Original\"",
        "\"Unown-Question\"",
        "\"Gastrodon-East\"",
        "\"Magearna-Original\"",
        "\"Genesect-Douse\"",
        "\"Minior-Violet\"",
        "\"Orbeetle\"",
        "plain text",
    ];
    for s in samples {
        let once = normalize_species(s);
        let twice = normalize_species(&once);
        assert_eq!(twice, once);
    }
}

#[test]
fn rule_table_is_ordered_data() {
    let t = rule_table();
    assert_eq!(t.len(), 13);
    assert_eq!(t[0], (true, "\"Pikachu-", "\"Pikachu\""));
    assert_eq!(t[2], (false, "\"Gastrodon-East\"", "\"Gastrodon\""));
    assert_eq!(t[12], (true, "\"Toxtricity-", "\"Toxtricity\""));
}
