use vaultsync::copy::{progress_due, cleanup_plan, copy_destination, eta_seconds, paused_tooltip, starting_tooltip, ChunkStep, CopyCommand, CopyControl};

#[test]
fn controls() {
    let mut c = CopyControl::new("Elden Ring".to_string());
    assert!(matches!(c.next_step(), ChunkStep::Proceed));
    c.pause();
    assert!(matches!(c.next_step(), ChunkStep::Wait));
    c.resume();
    assert!(matches!(c.next_step(), ChunkStep::Proceed));
    c.pause();
    c.cancel();
    assert!(!c.paused);
    assert!(matches!(c.next_step(), ChunkStep::Abort));
    c.apply(CopyCommand::Resume);
    assert!(matches!(c.next_step(), ChunkStep::Abort));
    assert_eq!(c.title, "Elden Ring");
}

#[test]
fn tooltips() {
    assert_eq!(paused_tooltip("X"), "X — paused");
    assert_eq!(starting_tooltip("X"), "Copying X — starting…");
}

#[test]
fn eta() {
    assert_eq!(eta_seconds(1000, 200, 100), 8);
    assert_eq!(eta_seconds(1000, 200, 0), 0);
    assert_eq!(eta_seconds(100, 200, 10), 0);
    assert_eq!(eta_seconds(1000, 0, 300), 3);
}

#[test]
fn destinations() {
    assert_eq!(copy_destination("S:\\SteamLibrary\\steamapps\\common\\Elden Ring", "C:\\Games\\common"), Some("C:\\Games\\common\\Elden Ring".to_string()));
    assert_eq!(copy_destination("S:\\lib\\Game\\", "D:\\"), Some("D:\\Game".to_string()));
    assert_eq!(copy_destination("S:\\", "D:\\"), None);
    assert_eq!(copy_destination("S:\\x\\..", "D:\\"), None);
}

#[test]
fn cleanup() {
    let p = cleanup_plan("C:\\Steam\\steamapps\\common", "Game", Some("7"));
    assert_eq!(p.target, "C:\\Steam\\steamapps\\common\\Game");
    assert_eq!(p.manifest.as_deref(), Some("C:\\Steam\\steamapps\\appmanifest_7.acf"));
    assert_eq!(p.downloading.as_deref(), Some("C:\\Steam\\steamapps\\downloading\\7"));
    assert_eq!(p.workshop.as_deref(), Some("C:\\Steam\\steamapps\\workshop\\content\\7"));
    assert_eq!(p.compatdata.as_deref(), Some("C:\\Steam\\steamapps\\compatdata\\7"));
    let q = cleanup_plan("C:\\Steam\\steamapps\\common", "Game", None);
    assert!(q.manifest.is_none() && q.workshop.is_none());
}

#[test]
fn progress_throttle() {
    assert!(!progress_due(499));
    assert!(progress_due(500));
    assert!(progress_due(u128::MAX));
}

#[test]
fn destination_names_like_std_paths() {
    assert_eq!(copy_destination("S:\\lib\\Game\\.", "D:\\"), Some("D:\\Game".to_string()));
    assert_eq!(copy_destination("C:Game", "D:\\x"), Some("D:\\x\\Game".to_string()));
    assert_eq!(copy_destination("C:", "D:\\"), None);
    assert_eq!(copy_destination(".", "D:\\"), None);
}
