use arkcursor::config::{Profile, Settings};
use arkcursor::runtime::{
    attach_outcome, find_target, gate, needs_search, placement, sprite_reload_needed,
    update_period_ms, window_considered, GateAction, OverlayAction, WindowCandidate,
};

#[test]
fn period_follows_rate() {
    let follow = Profile { size: 48, update_rate: 0 };
    assert_eq!(update_period_ms(&follow, 60), 16);
    assert_eq!(update_period_ms(&follow, 144), 6);
    assert_eq!(update_period_ms(&follow, 30), 16);
    assert_eq!(update_period_ms(&follow, 1000), 4);
    assert_eq!(update_period_ms(&Profile { size: 48, update_rate: 30 }, 144), 33);
    assert_eq!(update_period_ms(&Profile { size: 48, update_rate: 500 }, 144), 4);
    assert_eq!(update_period_ms(&Profile { size: 48, update_rate: 120 }, 60), 8);
}

#[test]
fn search_timing() {
    assert!(needs_search(true, false, 0));
    assert!(!needs_search(true, true, 10_000));
    assert!(needs_search(false, false, 500));
    assert!(!needs_search(false, false, 499));
}

#[test]
fn attach_gate() {
    assert_eq!(gate(false, true, true, true), GateAction::Attach);
    assert_eq!(gate(true, true, true, true), GateAction::Stay);
    assert_eq!(gate(true, true, false, true), GateAction::Detach);
    assert_eq!(gate(true, true, true, false), GateAction::Detach);
    assert_eq!(gate(true, false, false, true), GateAction::Detach);
    assert_eq!(gate(false, true, true, false), GateAction::Stay);
    assert_eq!(gate(false, false, true, true), GateAction::Stay);
    assert_eq!(gate(false, true, false, true), GateAction::Stay);
}

#[test]
fn overlay_placement() {
    assert_eq!(placement(false, true, (10, 10), (0, 0), (3, 4)), OverlayAction::Hide);
    assert_eq!(placement(false, false, (10, 10), (10, 10), (3, 4)), OverlayAction::Hide);
    assert_eq!(placement(true, true, (10, 10), (10, 10), (3, 4)), OverlayAction::Keep);
    assert_eq!(placement(true, true, (10, 10), (0, 0), (3, 4)), OverlayAction::Place { x: 7, y: 6 });
    assert_eq!(
        placement(true, true, (i32::MIN, 0), (0, 0), (1, -1)),
        OverlayAction::Place { x: i32::MAX, y: 1 }
    );
}

#[test]
fn overlay_drawn_on_the_iteration_that_attaches() {
    // detached: hidden; the mouse stands still while the game comes to the front
    assert_eq!(placement(false, false, (50, 60), (50, 60), (2, 3)), OverlayAction::Hide);
    assert_eq!(gate(false, true, true, true), GateAction::Attach);
    assert_eq!(placement(true, false, (50, 60), (50, 60), (2, 3)), OverlayAction::Place { x: 48, y: 57 });
}

#[test]
fn windows_considered() {
    assert!(window_considered(0x100, 42, 7));
    assert!(!window_considered(0x80, 42, 7));
    assert!(!window_considered(0x180, 42, 7));
    assert!(!window_considered(0, 0, 7));
    assert!(!window_considered(0, 7, 7));
}

fn candidate(hwnd: isize, title: &str, exe: &str, frame: Option<(i32, i32, i32, i32)>) -> WindowCandidate {
    WindowCandidate {
        hwnd,
        pid: hwnd as u32 + 100,
        tid: hwnd as u32 + 200,
        title: title.to_string(),
        exe: exe.to_string(),
        frame,
    }
}

fn settings(process: &str, title: &str) -> Settings {
    let mut s = Settings::default();
    s.process = process.to_string();
    s.window_title = title.to_string();
    s
}

#[test]
fn target_by_process_name_largest_window() {
    let s = settings("  Arknights.EXE ", "");
    let cs = vec![
        candidate(1, "small", "arknights.exe", Some((0, 0, 10, 10))),
        candidate(2, "other", "notepad.exe", Some((0, 0, 1000, 1000))),
        candidate(3, "big", "ARKNIGHTS.exe", Some((0, 0, 100, 100))),
        candidate(4, "same", "arknights.exe", Some((10, 10, 110, 110))),
    ];
    let t = find_target(&s, &cs).unwrap();
    assert_eq!((t.hwnd, t.pid, t.tid), (3, 103, 203));
    assert_eq!(t.exe, "ARKNIGHTS.exe");
}

#[test]
fn target_by_title() {
    let s = settings("", "\u{660e}\u{65e5}\u{65b9}\u{821f}");
    let cs = vec![
        candidate(1, "\u{660e}\u{65e5}\u{65b9}\u{821f} - Launcher", "launcher.exe", Some((0, 0, 5, 5))),
        candidate(2, "Browser", "game.exe", Some((0, 0, 500, 500))),
        candidate(3, "\u{660e}\u{65e5}\u{65b9}\u{821f}", "", None),
    ];
    let t = find_target(&s, &cs).unwrap();
    assert_eq!(t.hwnd, 1);
}

#[test]
fn empty_title_only_by_process() {
    let s = settings("game.exe", "game");
    let cs = vec![
        candidate(1, "", "other.exe", Some((0, 0, 500, 500))),
        candidate(2, "", "game.exe", Some((0, 0, 50, 50))),
    ];
    assert_eq!(find_target(&s, &cs).unwrap().hwnd, 2);
}

#[test]
fn no_target_cases() {
    assert!(find_target(&settings(" ", ""), &vec![candidate(1, "x", "x", Some((0, 0, 1, 1)))]).is_none());
    let s = settings("game.exe", "");
    assert!(find_target(&s, &vec![]).is_none());
    assert!(find_target(&s, &vec![candidate(1, "t", "game.exe", None)]).is_none());
    assert!(find_target(&s, &vec![candidate(1, "t", "game.exe", Some((10, 0, 0, 10)))]).is_none());
    assert_eq!(find_target(&s, &vec![candidate(1, "t", "game.exe", Some((0, 0, 0, 10)))]).unwrap().hwnd, 1);
}

#[test]
fn attach_outcomes() {
    let ok = attach_outcome(true, 0);
    assert!(ok.attached);
    assert_eq!(ok.backoff_ms, 0);
    assert!(!ok.access_denied);
    let denied = attach_outcome(false, 5);
    assert!(!denied.attached);
    assert_eq!(denied.backoff_ms, 1000);
    assert!(denied.access_denied);
    let other = attach_outcome(false, 87);
    assert!(!other.attached);
    assert_eq!(other.backoff_ms, 1000);
    assert!(!other.access_denied);
}

#[test]
fn sprite_reloads_on_version_change() {
    assert!(sprite_reload_needed(u64::MAX, 0));
    assert!(sprite_reload_needed(3, 4));
    assert!(!sprite_reload_needed(4, 4));
}

/// Runs the worker's decisions over a few iterations and checks that the
/// overlay follows the mouse while the target is in the foreground and hides
/// when it is not.
#[test]
fn worker_iterations_keep_overlay_on_mouse() {
    let hotspot = (3, 4);
    let mut attached = false;
    let mut visible = false;
    let mut at = (0, 0);
    let mut last_mouse = (0, 0);
    // (foreground, mouse, attach succeeds)
    let steps = [
        (false, (5, 5), true),
        (true, (5, 5), false),
        (true, (6, 6), true),
        (true, (6, 6), true),
        (true, (20, 30), true),
        (false, (21, 31), true),
    ];
    let mut seen = Vec::new();
    for (fg, mouse, succeeds) in steps {
        match gate(attached, true, fg, true) {
            GateAction::Attach => attached = attach_outcome(succeeds, 0).attached,
            GateAction::Detach => attached = false,
            GateAction::Stay => {}
        }
        match placement(attached, visible, mouse, last_mouse, hotspot) {
            OverlayAction::Place { x, y } => {
                visible = true;
                at = (x, y);
            }
            OverlayAction::Hide => visible = false,
            OverlayAction::Keep => {}
        }
        last_mouse = mouse;
        if attached {
            assert!(visible);
            assert_eq!(at, (mouse.0 - hotspot.0, mouse.1 - hotspot.1));
        } else {
            assert!(!visible);
        }
        seen.push((attached, visible, at));
    }
    assert_eq!(
        seen,
        vec![
            (false, false, (0, 0)),
            (false, false, (0, 0)),
            (true, true, (3, 2)),
            (true, true, (3, 2)),
            (true, true, (17, 26)),
            (false, false, (17, 26)),
        ]
    );
}
