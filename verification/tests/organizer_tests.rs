use steam_screenshot_organizer::organizer::{file_id, needs_remote, organize, safe_name};
use steam_screenshot_organizer::steam::{build_local_catalog, Game, ManifestFile};

fn names(list: &[&str]) -> Vec<String> {
    list.iter().map(|s| s.to_string()).collect()
}

fn catalog(list: &[(u64, &str)]) -> Vec<Game> {
    list.iter()
        .map(|(app_id, name)| Game {
            app_id: *app_id,
            name: name.to_string(),
        })
        .collect()
}

#[test]
fn file_id_is_the_numeric_prefix_before_the_underscore() {
    assert_eq!(file_id("440_2024-01-01.png"), Some(440));
    assert_eq!(file_id("9999999_2024-01-02.png"), Some(9999999));
    assert_eq!(file_id("440"), Some(440)); // no underscore: the whole name is the prefix
    assert_eq!(file_id("screenshot.png"), None);
    assert_eq!(file_id("_2024.png"), None);
    assert_eq!(file_id(""), None);
    assert_eq!(file_id("18446744073709551615_x.png"), Some(u64::MAX));
    assert_eq!(file_id("18446744073709551616_x.png"), None);
}

#[test]
fn safe_names_reject_separators_and_dot_directories() {
    assert!(safe_name("Team Fortress 2"));
    assert!(!safe_name(""));
    assert!(!safe_name("."));
    assert!(!safe_name(".."));
    assert!(!safe_name("Half/Life"));
    assert!(!safe_name("Half\\Life"));
    assert!(safe_name("...three dots are a name"));
}

#[test]
fn resolved_files_move_and_unresolved_files_stay() {
    // The watched directory holds one file of a locally known game and one of
    // a game neither catalog knows.
    let files = names(&["440_2024-01-01.png", "9999999_2024-01-02.png"]);
    let manifests = vec![ManifestFile {
        file_name: "appmanifest_440.acf".to_string(),
        contents: "\"AppState\"\n{\n\t\"name\"\t\t\"Team Fortress 2\"\n}\n".to_string(),
    }];
    let local = build_local_catalog(&manifests);
    let report = organize(&files, &local, None);
    assert_eq!(report.total, 2);
    assert_eq!(report.moves.len(), 1);
    assert_eq!(report.moves[0].file, "440_2024-01-01.png");
    assert_eq!(report.moves[0].directory, "Team Fortress 2");
}

#[test]
fn files_unknown_to_both_catalogs_are_not_counted() {
    let files = names(&["9999999_a.png", "note.txt"]);
    let local = catalog(&[(440, "Team Fortress 2")]);
    let remote = catalog(&[(70, "Half-Life")]);
    let report = organize(&files, &local, Some(&remote));
    assert_eq!(report.total, 2);
    assert_eq!(report.moves.len(), 0);
}

#[test]
fn a_second_pass_moves_nothing() {
    let files = names(&["440_a.png", "440_b.png", "70_c.png", "unmatched.png", "9_d.png"]);
    let local = catalog(&[(440, "Team Fortress 2")]);
    let remote = catalog(&[(70, "Half-Life")]);

    let first = organize(&files, &local, Some(&remote));
    assert_eq!(first.moves.len(), 3);

    // With no filesystem changes, the next pass sees exactly the files the
    // first one left in the watched root.
    let left: Vec<String> = files
        .iter()
        .filter(|f| !first.moves.iter().any(|m| &m.file == *f))
        .cloned()
        .collect();
    assert_eq!(left, names(&["unmatched.png", "9_d.png"]));

    let second = organize(&left, &local, Some(&remote));
    assert_eq!(second.moves.len(), 0);
    assert_eq!(second.total, 2);
}

#[test]
fn remote_is_consulted_at_most_once_per_pass() {
    let local = catalog(&[(440, "Team Fortress 2")]);
    let remote = catalog(&[(70, "Half-Life")]);

    // Several files need remote resolution: still a single fetch.
    let files = names(&["70_a.png", "70_b.png", "9999999_c.png"]);
    let report = organize(&files, &local, Some(&remote));
    assert_eq!(report.remote_fetches, 1);
    assert_eq!(report.moves.len(), 2);

    // Every file resolves locally: no fetch.
    let local_only = names(&["440_a.png", "440_b.png"]);
    let report = organize(&local_only, &local, Some(&remote));
    assert_eq!(report.remote_fetches, 0);

    // No remote catalog at hand: nothing to fetch.
    let report = organize(&files, &local, None);
    assert_eq!(report.remote_fetches, 0);
    assert_eq!(report.moves.len(), 0);
}

#[test]
fn needs_remote_detects_locally_missing_identifiers() {
    let local = catalog(&[(440, "Team Fortress 2")]);
    assert!(needs_remote(&names(&["70_a.png"]), &local));
    assert!(!needs_remote(&names(&["440_a.png"]), &local));
    assert!(!needs_remote(&names(&["no-id.png"]), &local));
    assert!(!needs_remote(&Vec::new(), &local));
}

#[test]
fn local_name_wins_inside_a_pass() {
    let files = names(&["440_a.png"]);
    let local = catalog(&[(440, "Team Fortress 2")]);
    let remote = catalog(&[(440, "A Different Remote Name")]);
    let report = organize(&files, &local, Some(&remote));
    assert_eq!(report.moves.len(), 1);
    assert_eq!(report.moves[0].directory, "Team Fortress 2");
}

#[test]
fn unsafe_display_names_keep_the_file_in_place() {
    let files = names(&["1_a.png", "2_b.png"]);
    let local = catalog(&[(1, "Good Name"), (2, "Bad/Name")]);
    let report = organize(&files, &local, None);
    assert_eq!(report.moves.len(), 1);
    assert_eq!(report.moves[0].file, "1_a.png");
}

#[test]
fn duplicate_identifiers_resolve_to_the_first_record() {
    let files = names(&["5_a.png"]);
    let local = catalog(&[(5, "First"), (5, "Second")]);
    let report = organize(&files, &local, None);
    assert_eq!(report.moves[0].directory, "First");
}
