use vaultsync::drives::{id_seed, synthetic_id, drive_letters, local_game_candidates, path_drive_letter, plan_local_libraries, select_local_only_games, ssd_identity};

#[test]
fn letters_a_to_z() {
    let l = drive_letters();
    assert_eq!(l.len(), 26);
    assert_eq!(l[0], "A");
    assert_eq!(l[25], "Z");
}

#[test]
fn local_libraries_skip_vaults() {
    let paths = vec!["C:\\Program Files (x86)\\Steam".to_string(), "s:\\SteamLibrary".to_string(), "D:\\Games".to_string(), "".to_string()];
    let libs = plan_local_libraries(&paths, &vec!["S:".to_string()]);
    assert_eq!(libs.len(), 3);
    assert_eq!(libs[0].path, "C:\\Program Files (x86)\\Steam\\steamapps\\common");
    assert_eq!(libs[0].drive_letter, "C");
    assert_eq!(libs[1].path, "D:\\Games\\steamapps\\common");
    assert_eq!(libs[2].drive_letter, "");
    assert!(libs.iter().all(|l| l.games.is_empty()));
    assert_eq!(path_drive_letter("e:\\x"), "E");
}

#[test]
fn identity_of_a_new_vault() {
    let id = ssd_identity(None, None, "S:", 12);
    assert_eq!(id.info.name, "SSD Vault (S:)");
    assert_eq!(id.info.drive_letter, "S");
    assert!(id.info.connected);
    assert_eq!(id.info.total_games, 12);
    assert_eq!(id.store_id.as_deref(), Some(id.info.id.as_str()));
    assert_eq!(id.store_name.as_deref(), Some("SSD Vault (S:)"));
    let u = &id.info.id;
    assert_eq!(u.len(), 36);
    assert_eq!(&u[14..15], "4");
    assert!(u.chars().all(|c| c == '-' || c.is_ascii_hexdigit() && !c.is_ascii_uppercase()));
}

#[test]
fn identity_of_a_known_vault() {
    let id = ssd_identity(Some("abc".to_string()), Some("My vault".to_string()), "E", 0);
    assert_eq!(id.info.id, "abc");
    assert_eq!(id.info.name, "My vault");
    assert!(id.store_id.is_none() && id.store_name.is_none());
}

fn manifest(id: &str, dir: &str) -> String {
    format!("\"appid\" \"{}\"\n\"name\" \"Game {}\"\n\"installdir\" \"{}\"\n\"buildid\" \"5\"\n", id, id, dir)
}

#[test]
fn local_only_games() {
    let libs = vec![
        ("C:\\Steam\\steamapps\\common".to_string(), vec![
            ("appmanifest_1.acf".to_string(), manifest("1", "One")),
            ("appmanifest_2.acf".to_string(), manifest("2", "Two")),
            ("notes.txt".to_string(), manifest("9", "Nine")),
        ]),
        ("c:\\Other\\steamapps\\common".to_string(), vec![
            ("appmanifest_1.acf".to_string(), manifest("1", "One")),
            ("appmanifest_3.acf".to_string(), manifest("3", "Three")),
        ]),
    ];
    let cands = local_game_candidates(&vec!["Two".to_string()], &libs);
    assert_eq!(cands.len(), 3);
    let out = select_local_only_games(&cands, &vec![true, true, true]);
    let names: Vec<&str> = out.iter().map(|c| c.install_dir.as_str()).collect();
    assert_eq!(names, vec!["One", "Three"]);
    assert_eq!(out[0].game_folder, "C:\\Steam\\steamapps\\common\\One");
    assert_eq!(out[0].drive_letter, "C");
    assert_eq!(out[0].build_id.as_deref(), Some("5"));
    assert_eq!(out[1].cover_url, "https://cdn.cloudflare.steamstatic.com/steam/apps/3/library_600x900.jpg");
}

#[test]
fn stale_manifest_does_not_hide_a_real_install() {
    let libs = vec![
        ("D:\\Old\\steamapps\\common".to_string(), vec![("appmanifest_1.acf".to_string(), manifest("1", "One"))]),
        ("d:\\New\\steamapps\\common".to_string(), vec![("appmanifest_1.acf".to_string(), manifest("1", "One"))]),
    ];
    let cands = local_game_candidates(&vec![], &libs);
    assert_eq!(cands.len(), 2);
    let out = select_local_only_games(&cands, &vec![false, true]);
    assert_eq!(out.len(), 1);
    assert_eq!(out[0].common_path, "d:\\New\\steamapps\\common");
    assert_eq!(out[0].drive_letter, "D");
    let both = select_local_only_games(&cands, &vec![true, true]);
    assert_eq!(both.len(), 1);
    assert_eq!(both[0].common_path, "D:\\Old\\steamapps\\common");
}

#[test]
fn synthetic_ids() {
    assert_eq!(id_seed("C:\\x", "Game"), "C:\\x|Game");
    assert_eq!(synthetic_id(5), 5);
    assert_eq!(synthetic_id(u64::MAX), 1);
    assert_eq!(synthetic_id(1u64 << 63), i64::MAX);
    assert_eq!(synthetic_id((1u64 << 63) + 1), i64::MAX);
}
