use vaultsync::metadata::{
    check_vault_updates, game_metadata, has_pending_update, local_manifest_state, manifest_paths,
    find_app_entry, keep_alphanumeric_text, normalize, resolve_app_id, AppDetails, SteamApp,
};

fn app(id: u64, name: &str) -> SteamApp {
    SteamApp { appid: id, name: name.to_string() }
}

#[test]
fn normalizes_titles() {
    assert_eq!(normalize("ELDEN RING™"), "eldenring");
    assert_eq!(normalize("Half-Life 2: Episode One"), "halflife2episodeone");
    assert_eq!(normalize(""), "");
}

#[test]
fn exact_match_wins() {
    let apps = vec![app(1, "Portal 2 Soundtrack"), app(620, "Portal 2"), app(3, "portal-2")];
    assert_eq!(resolve_app_id("Portal 2", &apps), Some("620".to_string()));
}

#[test]
fn closest_containment_match() {
    let apps = vec![app(10, "Witcher 3 Wild Hunt GOTY Edition"), app(292030, "The Witcher 3: Wild Hunt"), app(5, "Unrelated")];
    assert_eq!(resolve_app_id("Witcher 3 Wild Hunt", &apps), Some("292030".to_string()));
    assert_eq!(resolve_app_id("Zork", &apps), None);
}

#[test]
fn ties_keep_first() {
    let apps = vec![app(1, "abcx"), app(2, "abcy")];
    assert_eq!(resolve_app_id("abc", &apps), Some("1".to_string()));
}

const FULL: &str = "\"appid\" \"7\"\n\"installdir\" \"G\"\n\"StateFlags\" \"4\"\n\"buildid\" \"100\"\n";
const QUEUED: &str = "\"appid\" \"7\"\n\"installdir\" \"G\"\n\"StateFlags\" \"1026\"\n";

#[test]
fn pending_updates() {
    assert!(!has_pending_update(&vec![Some(FULL.to_string()), None]));
    assert!(has_pending_update(&vec![None, Some(QUEUED.to_string())]));
    assert!(!has_pending_update(&vec![Some("garbage".to_string())]));
    let ids = vec!["7".to_string(), "8".to_string(), "7".to_string()];
    let ms = vec![
        vec![Some(FULL.to_string()), Some(QUEUED.to_string())],
        vec![Some(FULL.to_string())],
        vec![Some(QUEUED.to_string())],
    ];
    assert_eq!(check_vault_updates(&ids, &ms), vec!["7".to_string()]);
}

#[test]
fn manifest_paths_across_libraries() {
    let libs = vec!["C:\\Steam\\steamapps\\common".to_string(), "C:".to_string(), "S:\\SteamLibrary\\steamapps\\common".to_string()];
    assert_eq!(
        manifest_paths(&libs, "7"),
        vec!["C:\\Steam\\steamapps\\appmanifest_7.acf".to_string(), "S:\\SteamLibrary\\steamapps\\appmanifest_7.acf".to_string()]
    );
}

#[test]
fn local_state() {
    let s = local_manifest_state(FULL).unwrap();
    assert_eq!(s.app_id, "7");
    assert_eq!(s.build_id.as_deref(), Some("100"));
    assert!(s.fully_installed);
    assert!(!local_manifest_state(QUEUED).unwrap().fully_installed);
    assert!(local_manifest_state("").is_none());
}

#[test]
fn store_metadata() {
    assert_eq!(game_metadata("42", false, None).err().unwrap(), "Steam API returned no data for app 42");
    assert_eq!(game_metadata("42", true, None).err().unwrap(), "No data field");
    let d = AppDetails { name: "Elden Ring".to_string(), steam_appid: 1245620, header_image: Some("h.jpg".to_string()), short_description: None };
    let g = game_metadata("1245620", true, Some(d)).ok().unwrap();
    assert_eq!(g.app_id, "1245620");
    assert_eq!(g.name, "Elden Ring");
    assert_eq!(g.header_image.as_deref(), Some("h.jpg"));
    assert_eq!(g.library_cover.as_deref(), Some("https://cdn.cloudflare.steamstatic.com/steam/apps/1245620/library_600x900.jpg"));
    assert!(g.short_description.is_none());
}

#[test]
fn app_entry_lookup() {
    let keys = vec!["10".to_string(), "20".to_string()];
    assert_eq!(find_app_entry(&keys, "20"), Ok(1));
    assert_eq!(find_app_entry(&keys, "30"), Err("App not found".to_string()));
    assert_eq!(find_app_entry(&vec![], "1"), Err("App not found".to_string()));
}

#[test]
fn alphanumeric_filter() {
    assert_eq!(keep_alphanumeric_text("elden ring: nightreign™ 2"), "eldenringnightreign2");
    assert_eq!(keep_alphanumeric_text("Ab-C"), "AbC");
}
