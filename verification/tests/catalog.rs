use vaultsync::catalog::{
    cover_url, extract_acf_value, find_manifest, game_row, is_manifest_file, parse_appmanifest,
    merge_rescan_row, parse_manifest_files, rescan_rows, GameRow,
};

const ELDEN: &str = "\"AppState\"\n{\n\t\"appid\"\t\t\"1245620\"\n\t\"Universe\"\t\t\"1\"\n\t\"name\"\t\t\"ELDEN RING\"\n\t\"StateFlags\"\t\t\"4\"\n\t\"installdir\"\t\t\"ELDEN RING\"\n\t\"LastUpdated\"\t\t\"1700000000\"\n\t\"buildid\"\t\t\"12345678\"\n}\n";

#[test]
fn parses_a_manifest() {
    let m = parse_appmanifest(ELDEN).unwrap();
    assert_eq!(m.app_id, "1245620");
    assert_eq!(m.name, "ELDEN RING");
    assert_eq!(m.install_dir, "ELDEN RING");
    assert_eq!(m.state_flags.as_deref(), Some("4"));
    assert_eq!(m.build_id.as_deref(), Some("12345678"));
}

#[test]
fn manifest_needs_appid_and_installdir() {
    assert!(parse_appmanifest("\"appid\" \"1\"\n").is_none());
    assert!(parse_appmanifest("\"installdir\" \"x\"\n").is_none());
    let m = parse_appmanifest("\"appid\" \"1\"\n\"installdir\" \"Game\"\n").unwrap();
    assert_eq!(m.name, "Game");
    assert!(m.build_id.is_none());
    assert!(m.state_flags.is_none());
}

#[test]
fn manifest_stops_after_naming_fields() {
    let text = "\"appid\" \"1\"\n\"name\" \"A\"\n\"installdir\" \"D\"\n\"appid\" \"2\"\n\"StateFlags\" \"4\"\n\"buildid\" \"9\"\n\"StateFlags\" \"6\"\n";
    let m = parse_appmanifest(text).unwrap();
    assert_eq!(m.app_id, "1");
    assert_eq!(m.state_flags.as_deref(), Some("4"));
    assert_eq!(m.build_id.as_deref(), Some("9"));
    let text2 = "\"appid\" \"1\"\n\"appid\" \"2\"\n\"installdir\" \"D\"\n";
    assert_eq!(parse_appmanifest(text2).unwrap().app_id, "2");
}

#[test]
fn acf_values() {
    assert_eq!(extract_acf_value("\t\"name\"\t\t\"Portal 2\""), Some("Portal 2".to_string()));
    assert_eq!(extract_acf_value("\"name\""), None);
}

#[test]
fn manifest_files_and_lookup() {
    let files = vec![
        ("appmanifest_1245620.acf".to_string(), ELDEN.to_string()),
        ("libraryfolders.vdf".to_string(), ELDEN.to_string()),
        ("appmanifest_2.acf".to_string(), "garbage".to_string()),
        ("appmanifest_3.acf".to_string(), "\"appid\" \"3\"\n\"installdir\" \"ELDEN RING\"\n".to_string()),
    ];
    assert!(is_manifest_file("appmanifest_1.acf"));
    assert!(!is_manifest_file("appmanifest_1.acf.vaultsync-hidden"));
    let ms = parse_manifest_files(&files);
    assert_eq!(ms.len(), 2);
    // The later manifest for the same folder wins.
    assert_eq!(find_manifest(&ms, "ELDEN RING").unwrap().app_id, "3");
    assert!(find_manifest(&ms, "Other").is_none());
}

#[test]
fn catalog_rows() {
    assert_eq!(
        cover_url("1245620"),
        "https://cdn.cloudflare.steamstatic.com/steam/apps/1245620/library_600x900.jpg"
    );
    let ms = parse_manifest_files(&vec![("appmanifest_1245620.acf".to_string(), ELDEN.to_string())]);
    let row = game_row("ELDEN RING", find_manifest(&ms, "ELDEN RING"));
    assert_eq!(row.app_id.as_deref(), Some("1245620"));
    assert_eq!(row.title, "ELDEN RING");
    assert_eq!(row.cover_url.as_deref(), Some("https://cdn.cloudflare.steamstatic.com/steam/apps/1245620/library_600x900.jpg"));
    let rows = rescan_rows(&vec!["ELDEN RING".to_string(), "Mystery".to_string()], &ms);
    assert_eq!(rows.len(), 2);
    assert_eq!(rows[1].title, "Mystery");
    assert!(rows[1].app_id.is_none());
    assert!(rows[1].cover_url.is_none());
}

fn row(app: Option<&str>, title: &str, cover: Option<&str>) -> GameRow {
    GameRow {
        app_id: app.map(|s| s.to_string()),
        title: title.to_string(),
        folder_name: "F".to_string(),
        cover_url: cover.map(|s| s.to_string()),
    }
}

#[test]
fn rescan_merge_keeps_old_naming() {
    let old = row(Some("7"), "Seven", Some("c7"));
    let bare = row(None, "F", None);
    let m = merge_rescan_row(Some(&old), &bare);
    assert_eq!((m.app_id.as_deref(), m.title.as_str(), m.cover_url.as_deref()), (Some("7"), "Seven", Some("c7")));
    let named = row(Some("8"), "Eight", Some("c8"));
    let m = merge_rescan_row(Some(&old), &named);
    assert_eq!((m.app_id.as_deref(), m.title.as_str(), m.cover_url.as_deref()), (Some("8"), "Eight", Some("c8")));
    let m = merge_rescan_row(None, &bare);
    assert_eq!((m.app_id, m.title.as_str(), m.cover_url), (None, "F", None));
}
