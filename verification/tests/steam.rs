use vaultsync::steam::{
    check_installed_games, exit_uri, install_candidates, install_uri, library_folders_from_vdf,
    library_paths, run_game_uri, VdfEntry, VdfValue,
};

const LIBRARYFOLDERS: &str = r#""libraryfolders"
{
	"0"
	{
		"path"		"C:\\Program Files (x86)\\Steam"
		"label"		""
		"apps"
		{
			"228980"		"1"
		}
	}
	"1"
	{
		"path"		"S:\\SteamLibrary"
	}
}
"#;

#[test]
fn reads_library_paths() {
    let paths = library_folders_from_vdf(LIBRARYFOLDERS).unwrap();
    assert_eq!(paths, vec!["C:\\Program Files (x86)\\Steam".to_string(), "S:\\SteamLibrary".to_string()]);
}

#[test]
fn parse_errors_are_reported() {
    let e = library_folders_from_vdf("\"unterminated").unwrap_err();
    assert!(e.starts_with("VDF parse error: "));
}

#[test]
fn non_object_root_has_no_paths() {
    assert!(library_folders_from_vdf("\"key\" \"value\"").unwrap().is_empty());
}

#[test]
fn collapses_double_backslashes() {
    let tree = VdfValue::Obj(vec![VdfEntry {
        key: "0".to_string(),
        values: vec![VdfValue::Obj(vec![
            VdfEntry { key: "label".to_string(), values: vec![VdfValue::Str("x".to_string())] },
            VdfEntry { key: "path".to_string(), values: vec![VdfValue::Str("D:\\\\\\\\Games".to_string()), VdfValue::Obj(vec![])] },
        ])],
    }]);
    assert_eq!(library_paths(&tree), vec!["D:\\\\Games".to_string()]);
}

#[test]
fn uris() {
    assert_eq!(install_uri("1245620"), "steam://install/1245620");
    assert_eq!(run_game_uri("1245620"), "steam://rungameid/1245620");
    assert_eq!(exit_uri(), "steam://exit");
}

#[test]
fn installed_games() {
    let games = vec!["A".to_string(), "B".to_string()];
    let libs = vec!["C:\\lib".to_string(), "D:\\lib\\".to_string()];
    let c = install_candidates(&libs, &games);
    assert_eq!(c[0][1], "C:\\lib\\B");
    assert_eq!(c[1][0], "D:\\lib\\A");
    let present = vec![vec![true, true], vec![true, false]];
    let r = check_installed_games(&games, &libs, &present);
    assert_eq!(r, vec![("A".to_string(), "D:\\lib\\".to_string()), ("B".to_string(), "C:\\lib".to_string())]);
    let none = check_installed_games(&games, &libs, &vec![vec![false, false], vec![false, false]]);
    assert!(none.is_empty());
}
