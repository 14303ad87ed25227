use arkcursor::config::{
    default_process, default_size, default_title, default_true, follows_screen, normalize_path,
    rate_for_follow_toggle, Profile, ProfileMap, Settings,
};

fn settings_with_path(path: &str) -> Settings {
    let mut s = Settings::default();
    s.cursor_path = path.to_string();
    s
}

#[test]
fn defaults_of_settings() {
    let s = Settings::default();
    assert_eq!(s.process, "arknights.exe");
    assert_eq!(s.window_title, "\u{660e}\u{65e5}\u{65b9}\u{821f}");
    assert_eq!(s.cursor_path, "");
    assert!(s.enabled);
    assert_eq!(s.profiles.len(), 0);
    assert_eq!(default_process(), "arknights.exe");
    assert_eq!(default_title(), "\u{660e}\u{65e5}\u{65b9}\u{821f}");
    assert!(default_true());
    assert_eq!(default_size(), 48);
}

#[test]
fn derived_profile_default_is_zero() {
    assert_eq!(Profile::default(), Profile { size: 0, update_rate: 0 });
}

#[test]
fn normalize_lowercases_and_uses_backslashes() {
    assert_eq!(normalize_path("C:/Games/Ark/Arrow.CUR"), "c:\\games\\ark\\arrow.cur");
    assert_eq!(normalize_path(""), "");
    assert_eq!(normalize_path("D:\\Already\\ok.ani"), "d:\\already\\ok.ani");
}

#[test]
fn active_profile_without_stored_profile() {
    let s = settings_with_path("C:\\cursors\\a.cur");
    assert_eq!(s.active_profile(), Profile { size: 48, update_rate: 0 });
}

#[test]
fn stored_profile_reads_back() {
    let mut s = settings_with_path("C:\\cursors\\a.cur");
    s.set_active_profile(Profile { size: 64, update_rate: 144 });
    assert_eq!(s.active_profile(), Profile { size: 64, update_rate: 144 });
    s.set_active_profile(Profile { size: 32, update_rate: 0 });
    assert_eq!(s.active_profile(), Profile { size: 32, update_rate: 0 });
    assert_eq!(s.profiles.len(), 1);
}

#[test]
fn set_profile_without_cursor_file_does_nothing() {
    let mut s = Settings::default();
    s.set_active_profile(Profile { size: 64, update_rate: 144 });
    assert_eq!(s.profiles.len(), 0);
    assert_eq!(s.active_profile(), Profile { size: 48, update_rate: 0 });
}

#[test]
fn switching_files_switches_profiles() {
    let mut s = settings_with_path("C:\\cursors\\a.cur");
    s.set_active_profile(Profile { size: 64, update_rate: 120 });
    s.cursor_path = "C:\\cursors\\b.ani".to_string();
    assert_eq!(s.active_profile(), Profile { size: 48, update_rate: 0 });
    s.set_active_profile(Profile { size: 100, update_rate: 0 });
    s.cursor_path = "C:\\cursors\\a.cur".to_string();
    assert_eq!(s.active_profile(), Profile { size: 64, update_rate: 120 });
    s.cursor_path = "C:\\cursors\\b.ani".to_string();
    assert_eq!(s.active_profile(), Profile { size: 100, update_rate: 0 });
}

#[test]
fn path_spelling_does_not_matter() {
    let mut s = settings_with_path("C:/Cursors/A.CUR");
    s.set_active_profile(Profile { size: 72, update_rate: 60 });
    s.cursor_path = "c:\\cursors\\a.cur".to_string();
    assert_eq!(s.active_profile(), Profile { size: 72, update_rate: 60 });
}

#[test]
fn effective_rate_rules() {
    let p = |r| Profile { size: 48, update_rate: r };
    assert_eq!(p(30).effective_rate(144), 30);
    assert_eq!(p(240).effective_rate(60), 240);
    assert_eq!(p(0).effective_rate(144), 144);
    assert_eq!(p(0).effective_rate(50), 60);
    assert_eq!(p(29).effective_rate(75), 75);
    assert_eq!(p(0).effective_rate(0), 60);
}

#[test]
fn profile_map_keeps_keys_sorted() {
    let mut m = ProfileMap::new();
    m.insert("b".to_string(), Profile { size: 2, update_rate: 0 });
    m.insert("a".to_string(), Profile { size: 1, update_rate: 0 });
    m.insert("c".to_string(), Profile { size: 3, update_rate: 0 });
    m.insert("ab".to_string(), Profile { size: 4, update_rate: 0 });
    m.insert("b".to_string(), Profile { size: 5, update_rate: 30 });
    assert_eq!(m.keys(), vec!["a", "ab", "b", "c"]);
    assert_eq!(m.len(), 4);
    assert_eq!(m.get("b"), Some(Profile { size: 5, update_rate: 30 }));
    assert_eq!(m.get("a"), Some(Profile { size: 1, update_rate: 0 }));
    assert_eq!(m.get("d"), None);
    assert_eq!(m.get(""), None);
    let copy = m.clone();
    assert_eq!(copy.keys(), m.keys());
    assert_eq!(copy.get("ab"), Some(Profile { size: 4, update_rate: 0 }));
}

#[test]
fn follow_screen_toggle() {
    assert_eq!(rate_for_follow_toggle(true, 144), 0);
    assert_eq!(rate_for_follow_toggle(false, 144), 144);
    assert_eq!(rate_for_follow_toggle(false, 50), 60);
    assert!(follows_screen(&Profile { size: 48, update_rate: 0 }));
    assert!(follows_screen(&Profile { size: 48, update_rate: 29 }));
    assert!(!follows_screen(&Profile { size: 48, update_rate: 30 }));
}
