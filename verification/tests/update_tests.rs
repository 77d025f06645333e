use steam_screenshot_organizer::update_handler::{
    get_current_version, get_latest_version, is_up_to_date, parse_version, update, Asset, Release,
};

#[test]
fn test_is_up_to_date() {
    assert!(is_up_to_date("v1.0.0", "v1.0.0"));

    assert!(is_up_to_date("v1.0.1", "v1.0.0"));
    assert!(is_up_to_date("v1.1.0", "v1.0.0"));

    assert!(!is_up_to_date("v1.0.0", "v1.0.1"));
    assert!(!is_up_to_date("v1.0.0", "v1.1.0"));

    assert!(!is_up_to_date("v1.0.0", "v2.0.0"));
    assert!(is_up_to_date("v2.0.0", "v1.0.0"));
}

#[test]
fn shorter_version_lists_compare_on_shared_components() {
    assert!(is_up_to_date("v1.0", "v1.0.5"));
    assert!(is_up_to_date("1.2", "1.2"));
    assert!(!is_up_to_date("1.2", "1.3.9"));
}

#[test]
fn parse_version_accepts_plain_and_tagged_forms() {
    assert_eq!(parse_version("v1.2.3"), Some(vec![1, 2, 3]));
    assert_eq!(parse_version("1.2.3"), Some(vec![1, 2, 3]));
    assert_eq!(parse_version("vv2.0"), Some(vec![2, 0]));
    assert_eq!(parse_version("7"), Some(vec![7]));
}

#[test]
fn parse_version_rejects_malformed_strings() {
    assert_eq!(parse_version(""), None);
    assert_eq!(parse_version("v"), None);
    assert_eq!(parse_version("1..2"), None);
    assert_eq!(parse_version("1.2."), None);
    assert_eq!(parse_version("1.a.2"), None);
    assert_eq!(parse_version("1.4294967296"), None);
    assert_eq!(parse_version("1.4294967295"), Some(vec![1, 4294967295]));
}

#[test]
fn current_version_is_a_tag() {
    let v = get_current_version();
    assert_eq!(v, "v0.1.0");
    assert!(parse_version(&v).is_some());
}

fn release(tag: &str, assets: Vec<(&str, &str)>) -> Release {
    Release {
        tag_name: tag.to_string(),
        assets: assets
            .into_iter()
            .map(|(name, url)| Asset {
                name: name.to_string(),
                browser_download_url: url.to_string(),
            })
            .collect(),
    }
}

#[test]
fn latest_version_is_first_release_tag() {
    assert_eq!(get_latest_version(&Vec::new()), None);
    let releases = vec![release("v2.1.0", vec![]), release("v2.0.0", vec![])];
    assert_eq!(get_latest_version(&releases), Some("v2.1.0".to_string()));
}

#[test]
fn update_picks_the_named_asset_of_a_newer_release() {
    let releases = vec![release(
        "v0.2.0",
        vec![
            ("other", "https://example.invalid/other"),
            ("tool.exe", "https://example.invalid/tool.exe"),
            ("tool.exe", "https://example.invalid/duplicate"),
        ],
    )];
    assert_eq!(
        update("v0.1.0", &releases, "tool.exe"),
        Some("https://example.invalid/tool.exe".to_string())
    );
}

#[test]
fn update_declines_when_nothing_newer_or_nothing_matches() {
    assert_eq!(update("v0.1.0", &Vec::new(), "tool.exe"), None);

    let up_to_date = vec![release("v0.1.0", vec![("tool.exe", "https://example.invalid/t")])];
    assert_eq!(update("v0.1.0", &up_to_date, "tool.exe"), None);

    let newer_no_asset = vec![release("v0.2.0", vec![("other", "https://example.invalid/o")])];
    assert_eq!(update("v0.1.0", &newer_no_asset, "tool.exe"), None);

    let bad_tag = vec![release("latest", vec![("tool.exe", "https://example.invalid/t")])];
    assert_eq!(update("v0.1.0", &bad_tag, "tool.exe"), None);

    let newer = vec![release("v0.2.0", vec![("tool.exe", "https://example.invalid/t")])];
    assert_eq!(update("not-a-version", &newer, "tool.exe"), None);
}
