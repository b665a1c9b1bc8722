use tabflow::db::note_update;
use tabflow::launch::{
    launch_args, launch_candidates, launch_failure, DebugLaunch, LaunchAction, LaunchEvent,
    LaunchPhase, DEBUG_PORT, PORT_POLLS,
};
use tabflow::shell::{tray_click, tray_command, TrayCommand, SEARCH_EVENT, SEARCH_SHORTCUT};
use tabflow::text::non_blank;
use tabflow::windows::{find_process_window, RawWindow};

fn names() -> Vec<String> {
    vec!["Microsoft Edge".to_string(), "Google Chrome".to_string()]
}

fn win(hwnd: i64, visible: bool, own: bool, process: Option<&str>) -> RawWindow {
    RawWindow {
        hwnd,
        visible,
        own_process: own,
        title: "t".to_string(),
        class_name: "C".to_string(),
        process_name: process.map(|p| p.to_string()),
        rect: None,
    }
}

#[test]
fn candidates_and_arguments() {
    let c = launch_candidates(None);
    assert_eq!(c.len(), 4);
    assert_eq!(c[0].path, "C:\\Program Files (x86)\\Microsoft\\Edge\\Application\\msedge.exe");
    assert_eq!(c[0].name, "Microsoft Edge");
    assert_eq!(c[2].name, "Google Chrome");
    let with_user = launch_candidates(Some("C:\\Users\\me\\AppData\\Local"));
    assert_eq!(with_user.len(), 5);
    assert_eq!(
        with_user[4].path,
        "C:\\Users\\me\\AppData\\Local\\Google\\Chrome\\Application\\chrome.exe"
    );
    assert_eq!(launch_args(None), vec!["--remote-debugging-port=9222".to_string()]);
    assert_eq!(
        launch_args(Some("D:\\p")),
        vec!["--remote-debugging-port=9222".to_string(), "--user-data-dir=D:\\p".to_string()]
    );
    assert_eq!(DEBUG_PORT, 9222);
    assert_eq!(PORT_POLLS, 8);
}

#[test]
fn launch_finishes_at_once_when_the_port_answers() {
    let (mut l, first) = DebugLaunch::start(false, names());
    assert_eq!(first, LaunchAction::CheckPort);
    let a = l.step(LaunchEvent::PortOpen { open: true });
    assert_eq!(a, LaunchAction::Finish { outcome: Ok("调试模式已开启".to_string()) });
    assert_eq!(l.step(LaunchEvent::Spawned), a);
}

#[test]
fn launch_tries_candidates_in_order() {
    let (mut l, _) = DebugLaunch::start(false, names());
    assert_eq!(l.step(LaunchEvent::PortOpen { open: false }), LaunchAction::CheckExists { index: 0 });
    assert_eq!(l.step(LaunchEvent::Exists { exists: false }), LaunchAction::CheckExists { index: 1 });
    assert_eq!(l.step(LaunchEvent::Exists { exists: true }), LaunchAction::Spawn { index: 1 });
    assert_eq!(l.last_browser, "Google Chrome");
    assert_eq!(l.step(LaunchEvent::Spawned), LaunchAction::WaitAndPoll);
    assert_eq!(l.step(LaunchEvent::PortOpen { open: false }), LaunchAction::WaitAndPoll);
    assert_eq!(
        l.step(LaunchEvent::PortOpen { open: true }),
        LaunchAction::Finish { outcome: Ok("Google Chrome".to_string()) }
    );
}

#[test]
fn launch_gives_up_after_the_polls() {
    let (mut l, _) = DebugLaunch::start(true, names());
    l.step(LaunchEvent::PortOpen { open: false });
    l.step(LaunchEvent::Exists { exists: true });
    l.step(LaunchEvent::Spawned);
    for _ in 0..7 {
        assert_eq!(l.step(LaunchEvent::PortOpen { open: false }), LaunchAction::WaitAndPoll);
    }
    assert_eq!(l.step(LaunchEvent::PortOpen { open: false }), LaunchAction::CheckExists { index: 1 });
    assert_eq!(l.step(LaunchEvent::Exists { exists: false }), LaunchAction::Finish {
        outcome: Err("已启动 Microsoft Edge 但调试端口未开启：浏览器可能已在运行，请完全退出浏览器后重试".to_string()),
    });
    assert!(matches!(l.phase, LaunchPhase::Done { .. }));
}

#[test]
fn launch_failures() {
    let (mut l, _) = DebugLaunch::start(false, names());
    l.step(LaunchEvent::PortOpen { open: false });
    l.step(LaunchEvent::Exists { exists: true });
    assert_eq!(
        l.step(LaunchEvent::SpawnFailed { error: "access denied".to_string() }),
        LaunchAction::Finish { outcome: Err("Failed to launch Microsoft Edge: access denied".to_string()) }
    );
    let (mut none, _) = DebugLaunch::start(false, names());
    none.step(LaunchEvent::PortOpen { open: false });
    none.step(LaunchEvent::Exists { exists: false });
    assert_eq!(
        none.step(LaunchEvent::Exists { exists: false }),
        LaunchAction::Finish {
            outcome: Err("未找到 Edge 或 Chrome，请手动启动浏览器并添加 --remote-debugging-port=9222 参数".to_string()),
        }
    );
    let long = launch_failure(false, "Google Chrome");
    assert!(long.starts_with("已启动 Google Chrome 但调试端口未开启。可能原因：① 浏览器已在运行"));
    assert!(long.ends_with("无需调试模式即可实时管理标签页"));
    assert_eq!(launch_failure(true, ""), launch_failure(false, ""));
}

#[test]
fn unexpected_events_repeat_the_pending_action() {
    let (mut l, _) = DebugLaunch::start(false, names());
    assert_eq!(l.step(LaunchEvent::Spawned), LaunchAction::CheckPort);
    assert_eq!(l.phase, LaunchPhase::Probing);
    l.step(LaunchEvent::PortOpen { open: false });
    assert_eq!(l.step(LaunchEvent::PortOpen { open: true }), LaunchAction::CheckExists { index: 0 });
}

#[test]
fn tray_and_shortcut() {
    assert_eq!(tray_command("show"), TrayCommand::ShowWindow);
    assert_eq!(tray_command("quit"), TrayCommand::Quit);
    assert_eq!(tray_command("other"), TrayCommand::Ignore);
    assert_eq!(tray_click(true, true), TrayCommand::ShowWindow);
    assert_eq!(tray_click(true, false), TrayCommand::Ignore);
    assert_eq!(tray_click(false, true), TrayCommand::Ignore);
    assert_eq!(SEARCH_SHORTCUT, "ctrl+shift+f");
    assert_eq!(SEARCH_EVENT, "toggle-search");
}

#[test]
fn notes_are_trimmed_and_blank_clears() {
    assert_eq!(note_update("  my note \n"), Some("my note".to_string()));
    assert_eq!(note_update("   "), None);
    assert_eq!(note_update(""), None);
    assert_eq!(non_blank("\tabc"), Some("abc".to_string()));
}

#[test]
fn browser_main_window_by_process() {
    let windows = vec![
        win(1, false, false, Some("chrome.exe")),
        win(2, true, true, Some("chrome.exe")),
        win(3, true, false, None),
        win(4, true, false, Some("Chrome.EXE")),
        win(5, true, false, Some("chrome.exe")),
    ];
    assert_eq!(find_process_window(&windows, "chrome.exe"), Some(4));
    assert_eq!(find_process_window(&windows, "msedge.exe"), None);
}
