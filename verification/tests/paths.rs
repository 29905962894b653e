use vaultsync::paths::{
    drive_root, join_str, libraryfolders_vdf_path, parent_str, steam_common_path, steamapps_path,
    vault_common_path, vault_hidden_manifest_path, vault_manifest_path, vaultsync_db_path,
    vdf_backup_path,
};

#[test]
fn layout_paths() {
    assert_eq!(steam_common_path("S"), "S:\\SteamLibrary\\steamapps\\common");
    assert_eq!(steam_common_path("S:"), "S:\\SteamLibrary\\steamapps\\common");
    assert_eq!(vault_common_path("E::"), "E:\\SteamLibrary\\steamapps\\common");
    assert_eq!(steamapps_path("S"), "S:\\SteamLibrary\\steamapps");
    assert_eq!(vaultsync_db_path("S:"), "S:\\vaultsync.db");
    assert_eq!(drive_root("D"), "D:\\");
    assert_eq!(
        libraryfolders_vdf_path(),
        "C:\\Program Files (x86)\\Steam\\steamapps\\libraryfolders.vdf"
    );
    assert_eq!(
        vdf_backup_path(),
        "C:\\Program Files (x86)\\Steam\\steamapps\\libraryfolders.vdf.vaultsync-backup"
    );
}

#[test]
fn manifest_paths() {
    assert_eq!(
        vault_manifest_path("S:\\SteamLibrary\\steamapps\\common", "1245620"),
        Some("S:\\SteamLibrary\\steamapps\\appmanifest_1245620.acf".to_string())
    );
    assert_eq!(
        vault_hidden_manifest_path("S:\\SteamLibrary\\steamapps\\common\\", "7"),
        Some("S:\\SteamLibrary\\steamapps\\appmanifest_7.acf.vaultsync-hidden".to_string())
    );
    assert_eq!(vault_manifest_path("C:\\", "7"), None);
    assert_eq!(vault_manifest_path("common", "7"), Some("appmanifest_7.acf".to_string()));
}

#[test]
fn parent_and_join() {
    assert_eq!(parent_str("C:\\a\\b"), Some("C:\\a".to_string()));
    assert_eq!(parent_str("C:\\a"), Some("C:\\".to_string()));
    assert_eq!(parent_str("C:\\"), None);
    assert_eq!(parent_str("C:"), None);
    assert_eq!(parent_str(""), None);
    assert_eq!(parent_str("\\x"), Some("\\".to_string()));
    assert_eq!(parent_str("a\\\\b\\"), Some("a".to_string()));
    assert_eq!(parent_str("a"), Some("".to_string()));
    assert_eq!(join_str("C:\\a", "b"), "C:\\a\\b");
    assert_eq!(join_str("C:\\a\\", "b"), "C:\\a\\b");
    assert_eq!(join_str("C:", "b"), "C:b");
    assert_eq!(join_str("", "b"), "b");
}

#[test]
fn vault_manifest_beside_common() {
    for d in ["S", "e:", "Z::"] {
        assert_eq!(steam_common_path(d), steam_common_path(&format!("{}:", d)));
        assert_eq!(parent_str(&steam_common_path(d)), Some(steamapps_path(d)));
        assert_eq!(
            vault_manifest_path(&steam_common_path(d), "9"),
            Some(format!("{}\\appmanifest_9.acf", steamapps_path(d)))
        );
    }
}

#[test]
fn dot_components_and_drive_relative_paths() {
    assert_eq!(parent_str("C:foo"), Some("C:".to_string()));
    assert_eq!(parent_str("a\\."), Some("".to_string()));
    assert_eq!(parent_str("a\\b\\.\\"), Some("a".to_string()));
    assert_eq!(parent_str("C:\\a\\.\\b"), Some("C:\\a".to_string()));
    assert_eq!(parent_str(".\\a"), Some(".".to_string()));
    assert_eq!(parent_str("."), Some("".to_string()));
    assert_eq!(parent_str("C:\\."), None);
}
