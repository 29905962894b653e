use vaultsync::vdf_isolation::{
    exit_timeout_message, exit_wait_step, extract_kv_value, is_app_entry_line,
    is_library_index_key, is_steam_among, libraryfolders_edit, manifest_restore,
    strip_app_from_vault_library, ExitWait, ManifestRestore,
};

const SAMPLE: &str = r#""libraryfolders"
{
	"0"
	{
		"path"		"C:\\Program Files (x86)\\Steam"
		"label"		""
		"apps"
		{
			"12345"		"100"
			"67890"		"200"
		}
	}
	"1"
	{
		"path"		"S:\\SteamLibrary"
		"label"		""
		"apps"
		{
			"12345"		"100"
			"99999"		"300"
		}
	}
}
"#;

#[test]
fn strips_only_vault_library_entry() {
    let out = strip_app_from_vault_library(SAMPLE, "S", "12345");
    // Vault's 12345 line is gone.
    let vault_apps_start = out.find("\"S:\\\\SteamLibrary\"").unwrap();
    let vault_section = &out[vault_apps_start..];
    assert!(!vault_section.contains("\"12345\"\t\t\"100\""));
    assert!(vault_section.contains("\"99999\"\t\t\"300\""));

    // Local C: library's 12345 line is still present.
    let local_section = &out[..vault_apps_start];
    assert!(local_section.contains("\"12345\"\t\t\"100\""));
    assert!(local_section.contains("\"67890\"\t\t\"200\""));
}

#[test]
fn noop_when_app_not_in_vault() {
    let out = strip_app_from_vault_library(SAMPLE, "S", "0000000");
    assert_eq!(out.trim_end(), SAMPLE.trim_end());
}

#[test]
fn noop_when_vault_letter_missing() {
    let out = strip_app_from_vault_library(SAMPLE, "Z", "12345");
    assert_eq!(out.trim_end(), SAMPLE.trim_end());
}

#[test]
fn strip_removes_exactly_one_line() {
    let out = strip_app_from_vault_library(SAMPLE, "S", "12345");
    let expected = SAMPLE.replacen("\t\t\t\"12345\"\t\t\"100\"\n\t\t\t\"99999\"", "\t\t\t\"99999\"", 1);
    assert_eq!(out, expected);
    assert_eq!(out.lines().count(), SAMPLE.lines().count() - 1);
}

#[test]
fn strip_accepts_lowercase_letter_and_colon() {
    let a = strip_app_from_vault_library(SAMPLE, "s:", "12345");
    let b = strip_app_from_vault_library(SAMPLE, "S", "12345");
    assert_eq!(a, b);
}

#[test]
fn strip_is_idempotent_on_sample() {
    let once = strip_app_from_vault_library(SAMPLE, "S", "12345");
    let twice = strip_app_from_vault_library(&once, "S", "12345");
    assert_eq!(once, twice);
}

#[test]
fn strip_keeps_line_endings() {
    let crlf = SAMPLE.replace('\n', "\r\n");
    assert_eq!(strip_app_from_vault_library(&crlf, "Z", "1"), crlf);
    let out = strip_app_from_vault_library(&crlf, "S", "12345");
    assert_eq!(out, SAMPLE.replace("\t\t\t\"12345\"\t\t\"100\"\n\t\t\t\"99999\"", "\t\t\t\"99999\"").replace('\n', "\r\n"));
    assert_eq!(strip_app_from_vault_library("", "S", "1"), "");
    assert_eq!(strip_app_from_vault_library("x", "S", "1"), "x");
    let no_final = SAMPLE.trim_end();
    assert_eq!(strip_app_from_vault_library(no_final, "S", "0000000"), no_final);
}

#[test]
fn strip_leaves_apps_outside_apps_block() {
    let text = "\"0\"\n{\n\t\"path\"\t\"S:\\\\x\"\n\t\"12345\"\t\"1\"\n}\n";
    assert_eq!(strip_app_from_vault_library(text, "S", "12345"), text);
}

#[test]
fn line_classifiers() {
    assert!(is_library_index_key("\t\"0\""));
    assert!(is_library_index_key("\"4294967295\""));
    assert!(!is_library_index_key("\"4294967296\""));
    assert!(is_library_index_key("\"+7\""));
    assert!(!is_library_index_key("\"\""));
    assert!(!is_library_index_key("\"apps\""));
    assert!(is_app_entry_line("  \"12345\"\t\t\"100\"", "12345"));
    assert!(!is_app_entry_line("\"12345\"", "12345"));
    assert!(!is_app_entry_line("\"123456\"\t\"1\"", "12345"));
    assert_eq!(extract_kv_value("\t\"path\"\t\t\"C:\\\\x\""), Some("C:\\\\x".to_string()));
    assert_eq!(extract_kv_value("\"path\""), None);
    assert_eq!(extract_kv_value("\"a\" \"b"), Some("b".to_string()));
}

#[test]
fn permanent_edit_only_when_changed() {
    assert!(libraryfolders_edit(SAMPLE, "S", "0000000").is_none());
    let e = libraryfolders_edit(SAMPLE, "S", "99999").unwrap();
    assert!(!e.contains("\"99999\""));
}

#[test]
fn restore_decisions() {
    assert!(matches!(manifest_restore(false, true), ManifestRestore::Nothing));
    assert!(matches!(manifest_restore(true, true), ManifestRestore::DiscardHidden));
    assert!(matches!(manifest_restore(true, false), ManifestRestore::PutBack));
}

#[test]
fn exit_wait_decisions() {
    assert!(matches!(exit_wait_step(false, 100, 30), ExitWait::Done));
    assert!(matches!(exit_wait_step(true, 29, 30), ExitWait::Poll));
    assert!(matches!(exit_wait_step(true, 30, 30), ExitWait::TimedOut));
    let m = exit_timeout_message(30);
    assert!(m.starts_with("Steam did not exit within 30 seconds — "));
    assert!(m.ends_with("workflow instead."));
}

#[test]
fn steam_process_detection() {
    let names = vec!["explorer.exe".to_string(), "STEAM.exe".to_string()];
    assert!(is_steam_among(&names));
    assert!(!is_steam_among(&vec!["steamwebhelper.exe".to_string()]));
    assert!(!is_steam_among(&vec![]));
}
