use steam_screenshot_organizer::steam::{
    build_local_catalog, find_quoted_value, get_app_directories, get_id, id_to_id3,
    manifest_file_name, parse_manifest_id, parse_manifest_name, resolve, screenshots_config_path,
    Game, ManifestFile,
};

#[test]
fn manifest_name_is_the_trimmed_quoted_token() {
    let contents = "        \"name\"        \"Counter-Strike 2\"";
    assert_eq!(parse_manifest_name(contents), Some("Counter-Strike 2".to_string()));
}

#[test]
fn manifest_name_is_found_among_other_lines() {
    let contents = "\"AppState\"\n{\n\t\"appid\"\t\t\"440\"\n\t\"name\"\t\t\"Team Fortress 2\"\n\t\"StateFlags\"\t\t\"4\"\n}\n";
    assert_eq!(parse_manifest_name(contents), Some("Team Fortress 2".to_string()));
}

#[test]
fn manifest_name_handles_windows_line_endings() {
    let contents = "\"AppState\"\r\n{\r\n\t\"name\"\t\t\"Half-Life\"\r\n}\r\n";
    assert_eq!(parse_manifest_name(contents), Some("Half-Life".to_string()));
}

#[test]
fn manifest_without_name_field_is_unresolved() {
    assert_eq!(parse_manifest_name("\"AppState\"\n{\n\t\"appid\"\t\"440\"\n}\n"), None);
    assert_eq!(parse_manifest_name(""), None);
}

#[test]
fn unclosed_quote_takes_the_rest_of_the_line() {
    let contents = "\t\"name\"\t\"Unterminated\nnext line";
    assert_eq!(parse_manifest_name(contents), Some("Unterminated".to_string()));
}

#[test]
fn first_matching_line_decides_even_without_a_value() {
    // The first line carrying the key has no opening quote after it, so the
    // manifest is unresolved although a later line would parse.
    let contents = "\"name\"\n\"name\" \"Second\"\n";
    assert_eq!(parse_manifest_name(contents), None);
}

#[test]
fn quoted_value_lookup_is_key_driven() {
    let contents = "\t\"installdir\"\t\"Games\"\n\t\"name\"\t\"X\"\n";
    assert_eq!(
        find_quoted_value(contents, "\"installdir\""),
        Some("Games".to_string())
    );
    assert_eq!(find_quoted_value(contents, "\"missing\""), None);
}

#[test]
fn config_screenshot_path_is_extracted() {
    let contents = "\"UserLocalConfigStore\"\n{\n\t\"InGameOverlayScreenshotSaveUncompressedPath\"\t\t\"D:\\\\Screenshots\"\n}\n";
    assert_eq!(screenshots_config_path(contents), Some("D:\\\\Screenshots".to_string()));
}

#[test]
fn manifest_file_names_round_trip() {
    assert_eq!(manifest_file_name(440), "appmanifest_440.acf");
    assert_eq!(parse_manifest_id("appmanifest_440.acf"), Some(440));
    assert_eq!(parse_manifest_id("appmanifest_0.acf"), Some(0));
    assert_eq!(parse_manifest_id("appmanifest_.acf"), None);
    assert_eq!(parse_manifest_id("appmanifest_440.vdf"), None);
    assert_eq!(parse_manifest_id("screenshot_440.acf"), None);
    assert_eq!(parse_manifest_id("appmanifest_44x0.acf"), None);
}

#[test]
fn local_catalog_keeps_parsable_manifests_in_order() {
    let manifests = vec![
        ManifestFile {
            file_name: "appmanifest_440.acf".to_string(),
            contents: "\t\"name\"\t\"Team Fortress 2\"\n".to_string(),
        },
        ManifestFile {
            file_name: "notes.txt".to_string(),
            contents: "\t\"name\"\t\"Not a manifest\"\n".to_string(),
        },
        ManifestFile {
            file_name: "appmanifest_730.acf".to_string(),
            contents: "\t\"appid\"\t\"730\"\n".to_string(),
        },
        ManifestFile {
            file_name: "appmanifest_70.acf".to_string(),
            contents: "\t\"name\"\t\"Half-Life\"\n".to_string(),
        },
    ];
    let catalog = build_local_catalog(&manifests);
    assert_eq!(catalog.len(), 2);
    assert_eq!(catalog[0].app_id, 440);
    assert_eq!(catalog[0].name, "Team Fortress 2");
    assert_eq!(catalog[1].app_id, 70);
    assert_eq!(catalog[1].name, "Half-Life");
}

#[test]
fn local_match_takes_precedence_over_remote() {
    let local = vec![Game {
        app_id: 440,
        name: "Team Fortress 2".to_string(),
    }];
    let remote = vec![Game {
        app_id: 440,
        name: "A Different Remote Name".to_string(),
    }];
    assert_eq!(
        resolve(440, &local, Some(&remote)),
        Some("Team Fortress 2".to_string())
    );
}

#[test]
fn resolution_falls_back_to_remote_and_then_fails() {
    let local = vec![Game {
        app_id: 70,
        name: "Half-Life".to_string(),
    }];
    let remote = vec![Game {
        app_id: 440,
        name: "Team Fortress 2".to_string(),
    }];
    assert_eq!(
        resolve(440, &local, Some(&remote)),
        Some("Team Fortress 2".to_string())
    );
    assert_eq!(resolve(9999999, &local, Some(&remote)), None);
    assert_eq!(resolve(440, &local, None), None);
}

#[test]
fn account_id_is_first_nonzero_numeric_directory() {
    let names = vec![
        "config".to_string(),
        "0".to_string(),
        "76561198000000000".to_string(),
        "123".to_string(),
    ];
    assert_eq!(get_id(&names), Some(76561198000000000));
    assert_eq!(get_id(&vec!["ac0".to_string(), "0".to_string()]), None);
    assert_eq!(get_id(&Vec::new()), None);
}

#[test]
fn id3_has_the_bracketed_profile_form() {
    assert_eq!(id_to_id3(123456), "[U:1:123456]");
    assert_eq!(id_to_id3(0), "[U:1:0]");
}

#[test]
fn app_directories_follow_the_drive_mask() {
    // Bits for A:, C:, D: — C: is skipped in favor of the primary entry.
    let dirs = get_app_directories(0b1101);
    assert_eq!(
        dirs,
        vec![
            "C:\\Program Files (x86)\\Steam\\steamapps".to_string(),
            "A:\\SteamLibrary\\steamapps".to_string(),
            "D:\\SteamLibrary\\steamapps".to_string(),
        ]
    );
    assert_eq!(get_app_directories(0).len(), 1);
}
