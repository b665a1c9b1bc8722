use base64::Engine;
use tabflow::browser::{
    check_hello, check_hello_frame, frame_kind, sort_tabs, take_snapshot, ExtTab, ExtensionHub,
    FrameKind, HelloOutcome, EXTENSION_PORT,
};
use tabflow::cdp::{
    browser_tabs_from_scan, cdp_command_urls, cdp_port_list, cdp_url, identify_browser, CdpAction,
    CdpScanResult, CdpTab,
};
use tabflow::explorer::{explorer_items, ShellEntry};
use tabflow::icons::{
    bgra_to_rgba, encode_png, icon_key, png_data_url, process_icon, processes_named, IconCache,
};
use tabflow::monitor::merge_scan;
use tabflow::platform::{ItemType, TrackedItem};
use tabflow::windows::{classify_window, extract_url_from_title, image_name, window_item, RawWindow};

fn ext_tab(tab_id: i64, url: &str, title: &str) -> ExtTab {
    ExtTab { tab_id, window_id: 1, url: url.to_string(), title: title.to_string(), active: false }
}

fn cdp_tab(id: &str, url: &str, kind: &str) -> CdpTab {
    CdpTab {
        id: id.to_string(),
        title: format!("title {}", id),
        url: url.to_string(),
        tab_type: kind.to_string(),
        ws_url: None,
    }
}

fn simple(id: &str, kind: ItemType) -> TrackedItem {
    TrackedItem {
        id: id.to_string(),
        title: id.to_string(),
        url: None,
        path: None,
        process_name: "x.exe".to_string(),
        window_handle: Some(1),
        item_type: kind,
        browser_name: None,
        last_active_at: "1".to_string(),
        icon: None,
        note: None,
        task_ids: Vec::new(),
    }
}

fn ids(items: &[TrackedItem]) -> Vec<String> {
    items.iter().map(|i| i.id.clone()).collect()
}

#[test]
fn hub_registers_replaces_and_deregisters() {
    let mut hub = ExtensionHub::new("tok".to_string());
    assert!(hub.connected_browsers().is_empty());
    hub.register("chrome".to_string(), 1);
    hub.set_tabs("chrome", vec![ext_tab(5, "https://x.com", "X")]);
    assert_eq!(hub.connection_for("chrome"), Some(1));
    let status = hub.status();
    assert_eq!(status.port, EXTENSION_PORT);
    assert_eq!(status.port, 19876);
    assert_eq!(status.token, "tok");
    assert_eq!(status.connected.len(), 1);
    assert_eq!(status.connected[0].browser, "chrome");
    assert_eq!(status.connected[0].tab_count, 1);

    // A newer connection for the same browser replaces the old one.
    hub.register("chrome".to_string(), 2);
    assert_eq!(hub.connection_for("chrome"), Some(2));
    assert_eq!(hub.status().connected[0].tab_count, 0);
    assert_eq!(hub.connected_browsers(), vec!["chrome".to_string()]);

    // The stale connection going away leaves the newer one.
    assert!(!hub.deregister("chrome", 1));
    assert_eq!(hub.connection_for("chrome"), Some(2));
    assert!(hub.deregister("chrome", 2));
    assert_eq!(hub.connection_for("chrome"), None);
    assert!(!hub.deregister("edge", 3));
}

#[test]
fn tabs_for_unknown_browser_are_dropped() {
    let mut hub = ExtensionHub::new(String::new());
    hub.set_tabs("edge", vec![ext_tab(1, "https://a.com", "A")]);
    assert!(hub.status().connected.is_empty());
}

#[test]
fn extension_tabs_become_items() {
    let mut hub = ExtensionHub::new("t".to_string());
    hub.register("edge".to_string(), 1);
    hub.register("chrome".to_string(), 2);
    hub.set_tabs("edge", vec![ext_tab(1, "https://e.com", "E")]);
    hub.set_tabs(
        "chrome",
        vec![
            ext_tab(5, "https://x.com", ""),
            ext_tab(3, "chrome://settings", "S"),
            ext_tab(4, "", "Loading"),
        ],
    );
    let items = hub.extension_tabs_at("NOW");
    assert_eq!(ids(&items), vec!["ext_chrome_3", "ext_chrome_5", "ext_edge_1"]);
    assert_eq!(items[0].title, "S");
    assert_eq!(items[0].url, Some("chrome://settings".to_string()));
    assert_eq!(items[1].title, "https://x.com");
    assert_eq!(items[1].url, Some("https://x.com".to_string()));
    assert_eq!(items[1].process_name, "chrome.exe");
    assert_eq!(items[1].browser_name, Some("chrome".to_string()));
    assert_eq!(items[1].item_type, ItemType::BrowserTab);
    assert_eq!(items[1].window_handle, None);
    assert_eq!(items[1].last_active_at, "NOW");
    assert_eq!(items[2].process_name, "msedge.exe");
    assert_eq!(items[2].title, "E");
    assert_eq!(hub.get_extension_tabs().len(), 3);
}

#[test]
fn hello_handshake() {
    assert_eq!(
        check_hello("tok", None, Some("tok"), Some("chrome")),
        HelloOutcome::Rejected { message: "expected hello".to_string() }
    );
    assert_eq!(
        check_hello("tok", Some("tabs"), Some("tok"), Some("chrome")),
        HelloOutcome::Rejected { message: "expected hello".to_string() }
    );
    assert_eq!(
        check_hello("tok", Some("hello"), Some("bad"), Some("chrome")),
        HelloOutcome::Rejected { message: "invalid token".to_string() }
    );
    assert_eq!(
        check_hello("tok", Some("hello"), None, Some("chrome")),
        HelloOutcome::Rejected { message: "invalid token".to_string() }
    );
    assert_eq!(
        check_hello("tok", Some("hello"), Some("tok"), Some("edge")),
        HelloOutcome::Accepted { browser: "edge".to_string() }
    );
    assert_eq!(
        check_hello("tok", Some("hello"), Some("tok"), None),
        HelloOutcome::Accepted { browser: "unknown".to_string() }
    );
    assert_eq!(
        check_hello("", Some("hello"), None, Some("x")),
        HelloOutcome::Accepted { browser: "x".to_string() }
    );
}

#[test]
fn snapshots_detect_changes() {
    let first = take_snapshot(&Vec::new(), vec![ext_tab(9, "y", "Y"), ext_tab(5, "x", "X")]);
    assert_eq!(first.tabs.iter().map(|t| t.tab_id).collect::<Vec<_>>(), vec![5, 9]);
    assert_eq!(first.snapshot, vec![(5, "x".to_string()), (9, "y".to_string())]);
    assert!(first.changed);
    let same = take_snapshot(&first.snapshot, vec![ext_tab(5, "x", "new title"), ext_tab(9, "y", "Y")]);
    assert!(!same.changed);
    let moved = take_snapshot(&same.snapshot, vec![ext_tab(5, "x2", "X"), ext_tab(9, "y", "Y")]);
    assert!(moved.changed);
    let fewer = take_snapshot(&moved.snapshot, vec![ext_tab(5, "x2", "X")]);
    assert!(fewer.changed);
    assert!(!take_snapshot(&Vec::new(), Vec::new()).changed);
    let sorted = sort_tabs(&vec![ext_tab(3, "a", ""), ext_tab(-1, "b", ""), ext_tab(2, "c", "")]);
    assert_eq!(sorted.iter().map(|t| t.tab_id).collect::<Vec<_>>(), vec![-1, 2, 3]);
    let stable = sort_tabs(&vec![ext_tab(2, "x", ""), ext_tab(1, "y", ""), ext_tab(2, "w", ""), ext_tab(1, "v", "")]);
    assert_eq!(stable.iter().map(|t| t.url.as_str()).collect::<Vec<_>>(), vec!["y", "v", "x", "w"]);
}

#[test]
fn devtools_browser_identification() {
    assert_eq!(identify_browser("Edg/137.0.0.0", &Vec::new()), "msedge");
    assert_eq!(identify_browser("Chrome/138.0.0.0", &Vec::new()), "chrome");
    assert_eq!(identify_browser("OPR/100", &Vec::new()), "opera");
    assert_eq!(identify_browser("Vivaldi/6", &Vec::new()), "vivaldi");
    assert_eq!(identify_browser("BRAVE", &Vec::new()), "brave");
    let edge_tabs = vec![cdp_tab("1", "https://a.com", "page"), cdp_tab("2", "edge://newtab", "page")];
    assert_eq!(identify_browser("", &edge_tabs), "msedge");
    let ms_tabs = vec![cdp_tab("1", "microsoft-edge://x", "page")];
    assert_eq!(identify_browser("", &ms_tabs), "msedge");
    assert_eq!(identify_browser("", &vec![cdp_tab("1", "https://a.com", "page")]), "chrome");
    assert_eq!(identify_browser("Chrome/1", &edge_tabs), "chrome");
}

#[test]
fn devtools_targets_become_tabs() {
    let results = vec![
        CdpScanResult {
            tabs: vec![
                cdp_tab("A", "https://a.com", "page"),
                cdp_tab("B", "", "page"),
                cdp_tab("C", "chrome-extension://x", "service_worker"),
                cdp_tab("D", "chrome://newtab", "page"),
            ],
            browser: "Chrome/1".to_string(),
        },
        CdpScanResult {
            tabs: vec![cdp_tab("E", "https://e.com", "page")],
            browser: "Edg/1".to_string(),
        },
    ];
    let items = browser_tabs_from_scan(&results, "NOW");
    assert_eq!(ids(&items), vec!["tab_A", "tab_D", "tab_E"]);
    assert_eq!(items[0].title, "title A");
    assert_eq!(items[0].url, Some("https://a.com".to_string()));
    assert_eq!(items[0].process_name, "chrome.exe");
    assert_eq!(items[0].browser_name, Some("chrome".to_string()));
    assert_eq!(items[0].last_active_at, "NOW");
    assert_eq!(items[2].process_name, "msedge.exe");
    assert!(browser_tabs_from_scan(&Vec::new(), "NOW").is_empty());
}

#[test]
fn devtools_command_urls() {
    assert_eq!(cdp_port_list(), vec![9222, 9223, 9224, 9225]);
    assert_eq!(cdp_url(9222, "/json"), "http://127.0.0.1:9222/json");
    assert_eq!(
        cdp_command_urls("tab_ABC", CdpAction::Close),
        Some(vec![
            "http://127.0.0.1:9222/json/close/ABC".to_string(),
            "http://127.0.0.1:9223/json/close/ABC".to_string(),
            "http://127.0.0.1:9224/json/close/ABC".to_string(),
            "http://127.0.0.1:9225/json/close/ABC".to_string(),
        ])
    );
    assert_eq!(
        cdp_command_urls("tab_X", CdpAction::Activate).unwrap()[1],
        "http://127.0.0.1:9223/json/activate/X"
    );
    assert_eq!(cdp_command_urls("ext_chrome_1", CdpAction::Close), None);
}

#[test]
fn page_urls_from_window_titles() {
    assert_eq!(
        extract_url_from_title("Foo - Bar - Google Chrome", "chrome"),
        Some("page:foo - bar".to_string())
    );
    assert_eq!(
        extract_url_from_title("Foo\u{200B} - Google Chrome", "chrome"),
        Some("page:foo".to_string())
    );
    assert_eq!(
        extract_url_from_title("  Docs  - Microsoft Edge", "edge"),
        Some("page:docs".to_string())
    );
    assert_eq!(
        extract_url_from_title("Y \u{2014} Mozilla Firefox", "firefox"),
        Some("page:y".to_string())
    );
    assert_eq!(extract_url_from_title(" - Google Chrome", "chrome"), None);
    assert_eq!(extract_url_from_title("Foo - Google Chrome", "edge"), None);
    assert_eq!(extract_url_from_title("Foo - Google Chrome", "opera"), None);
    assert_eq!(extract_url_from_title("Plain title", "chrome"), None);
}

#[test]
fn windows_classified_by_process() {
    assert_eq!(
        classify_window("A - Google Chrome", "CHROME.EXE"),
        (ItemType::BrowserTab, Some("chrome".to_string()), Some("page:a".to_string()))
    );
    assert_eq!(
        classify_window("Untitled", "msedge.exe"),
        (ItemType::BrowserTab, Some("edge".to_string()), None)
    );
    assert_eq!(
        classify_window("B \u{2014} Mozilla Firefox", "firefox.exe"),
        (ItemType::BrowserTab, Some("firefox".to_string()), Some("page:b".to_string()))
    );
    assert_eq!(classify_window("x", "notepad.exe"), (ItemType::AppWindow, None, None));
}

fn raw(title: &str, class: &str, process: Option<&str>) -> RawWindow {
    RawWindow {
        hwnd: 77,
        visible: true,
        own_process: false,
        title: title.to_string(),
        class_name: class.to_string(),
        process_name: process.map(|p| p.to_string()),
        rect: Some((0, 0, 100, 100)),
    }
}

#[test]
fn window_filter_and_items() {
    let explorer = window_item(&raw("  Docs ", "CabinetWClass", Some("explorer.exe")), "NOW").unwrap();
    assert_eq!(explorer.id, "hwnd_77");
    assert_eq!(explorer.title, "Docs");
    assert_eq!(explorer.path, Some("Docs".to_string()));
    assert_eq!(explorer.item_type, ItemType::ExplorerWindow);
    assert_eq!(explorer.process_name, "explorer.exe");
    assert_eq!(explorer.window_handle, Some(77));
    assert_eq!(explorer.last_active_at, "NOW");
    assert_eq!(explorer.url, None);

    let unknown = window_item(&raw("Notes", "Notepad", None), "NOW").unwrap();
    assert_eq!(unknown.process_name, "app:Notepad");
    assert_eq!(unknown.item_type, ItemType::AppWindow);
    assert_eq!(unknown.path, None);

    let mut hidden = raw("x", "C", Some("a.exe"));
    hidden.visible = false;
    assert!(window_item(&hidden, "NOW").is_none());
    let mut ours = raw("x", "C", Some("a.exe"));
    ours.own_process = true;
    assert!(window_item(&ours, "NOW").is_none());
    assert!(window_item(&raw("   ", "C", Some("a.exe")), "NOW").is_none());
    assert!(window_item(&raw("", "C", Some("a.exe")), "NOW").is_none());
    let mut flat = raw("x", "C", Some("a.exe"));
    flat.rect = Some((10, 0, 10, 50));
    assert!(window_item(&flat, "NOW").is_none());
    let mut unknown_rect = raw("x", "C", Some("a.exe"));
    unknown_rect.rect = None;
    assert!(window_item(&unknown_rect, "NOW").is_some());
    assert!(window_item(&raw("Desktop", "Progman", Some("explorer.exe")), "NOW").is_none());
    assert!(window_item(&raw("Share", "C", Some("NVIDIA Share.exe")), "NOW").is_none());
    assert!(window_item(&raw("A - Google Chrome", "Chrome_WidgetWin_1", Some("chrome.exe")), "NOW").is_none());
}

#[test]
fn image_names_from_paths() {
    assert_eq!(image_name("C:\\Program Files\\Google\\chrome.exe"), "chrome.exe");
    assert_eq!(image_name("a/b/c.exe"), "c.exe");
    assert_eq!(image_name("plain.exe"), "plain.exe");
    assert_eq!(image_name("dir\\"), "");
    assert_eq!(image_name(""), "");
}

fn entry(hwnd: i64, class: &str, title: &str, url: &str) -> ShellEntry {
    ShellEntry {
        hwnd,
        class_name: class.to_string(),
        title: title.to_string(),
        url: url.to_string(),
    }
}

#[test]
fn explorer_entries_become_tabs() {
    let entries = vec![
        entry(10, "CabinetWClass", "foo", "file:///C:/Users/Foo"),
        entry(10, "CabinetWClass", "foo", "file:///C:/Users/Foo"),
        entry(10, "Progman", "Desktop", "file:///C:/Users/Foo/Desktop"),
        entry(10, "CabinetWClass", "", ""),
        entry(10, "ExploreWClass", "This PC", ""),
        entry(11, "CabinetWClass", "", "file:///D:/data"),
    ];
    let items = explorer_items(&entries, "NOW");
    assert_eq!(
        ids(&items),
        vec![
            "explorer_10_c:/users/foo",
            "explorer_10_c:/users/foo_1",
            "explorer_10_this pc",
            "explorer_11_d:/data",
        ]
    );
    assert_eq!(items[0].path, Some("C:\\Users\\Foo".to_string()));
    assert_eq!(items[0].title, "foo");
    assert_eq!(items[0].process_name, "explorer.exe");
    assert_eq!(items[0].item_type, ItemType::ExplorerWindow);
    assert_eq!(items[0].window_handle, Some(10));
    assert_eq!(items[2].path, None);
    assert_eq!(items[3].title, "D:\\data");
    assert_eq!(items[3].last_active_at, "NOW");
}

#[test]
fn scan_merge_prefers_devtools_tabs() {
    let cdp = vec![simple("tab_1", ItemType::BrowserTab)];
    let windows = vec![
        simple("hwnd_1", ItemType::AppWindow),
        simple("hwnd_2", ItemType::BrowserTab),
        simple("hwnd_3", ItemType::ExplorerWindow),
    ];
    let explorer = vec![simple("explorer_3_x", ItemType::ExplorerWindow)];
    let merged = merge_scan(cdp.clone(), windows.clone(), Some(explorer.clone()));
    assert_eq!(ids(&merged), vec!["tab_1", "hwnd_1", "explorer_3_x"]);

    let fallback = merge_scan(Vec::new(), windows.clone(), None);
    assert_eq!(ids(&fallback), vec!["hwnd_1", "hwnd_2", "hwnd_3"]);
    assert_eq!(fallback[1].item_type, ItemType::AppWindow);
    assert_eq!(fallback[2].item_type, ItemType::ExplorerWindow);

    let with_cdp_no_shell = merge_scan(cdp, windows, None);
    assert_eq!(ids(&with_cdp_no_shell), vec!["tab_1", "hwnd_1", "hwnd_3"]);
}

#[test]
fn icon_lookups_are_cached_including_misses() {
    assert_eq!(icon_key(" Chrome.EXE "), "chrome.exe");
    let mut cache = IconCache::new();
    let first = process_icon(&mut cache, " Chrome.EXE ", |k| Some(format!("icon:{}", k)));
    assert_eq!(first, Some("icon:chrome.exe".to_string()));
    let mut asked = false;
    let second = process_icon(&mut cache, "chrome.exe", |_| {
        asked = true;
        None
    });
    assert!(!asked);
    assert_eq!(second, Some("icon:chrome.exe".to_string()));
    assert_eq!(process_icon(&mut cache, "x.exe", |_| None), None);
    assert_eq!(process_icon(&mut cache, "X.exe", |_| Some("late".to_string())), None);
    assert_eq!(cache.get("x.exe"), Some(None));
    assert_eq!(cache.get("y.exe"), None);
    assert_eq!(cache.len(), 2);
}

#[test]
fn bgra_pixels_become_rgba() {
    let mut opaque = vec![1, 2, 3, 0, 4, 5, 6, 0];
    bgra_to_rgba(&mut opaque);
    assert_eq!(opaque, vec![3, 2, 1, 255, 6, 5, 4, 255]);
    let mut alpha = vec![1, 2, 3, 7, 4, 5, 6, 0];
    bgra_to_rgba(&mut alpha);
    assert_eq!(alpha, vec![3, 2, 1, 7, 6, 5, 4, 0]);
    let mut ragged = vec![1, 2, 3, 0, 9];
    bgra_to_rgba(&mut ragged);
    assert_eq!(ragged, vec![3, 2, 1, 255, 9]);
}

#[test]
fn png_data_urls() {
    assert_eq!(png_data_url(b"abc"), "data:image/png;base64,YWJj");
    let url = encode_png(1, 1, &[255, 0, 0, 255]).expect("a 1x1 image encodes");
    assert!(url.starts_with("data:image/png;base64,"));
    let raw = base64::engine::general_purpose::STANDARD
        .decode(url.trim_start_matches("data:image/png;base64,"))
        .expect("base64 payload must decode");
    assert_eq!(&raw[1..4], b"PNG");
    assert_eq!(&raw[0..8], &[137, 80, 78, 71, 13, 10, 26, 10]);
    assert!(url.starts_with("data:image/png;base64,iVBORw0KGgo"));
    assert_eq!(encode_png(0, 1, &[]), None);
    assert_eq!(encode_png(1, 0, &[]), None);
    assert_eq!(encode_png(1, 1, &[0, 0, 0]), None);
    assert_eq!(encode_png(2, 1, &[0; 4]), None);
    assert_eq!(encode_png(1 << 31, 1 << 31, &[]), None);
    assert_eq!(png_data_url(b"a"), "data:image/png;base64,YQ==");
    assert_eq!(png_data_url(b"ab"), "data:image/png;base64,YWI=");
    assert_eq!(png_data_url(&[0xfb, 0xff]), "data:image/png;base64,+/8=");
}

#[test]
fn fresh_tokens_are_32_hex_digits() {
    let hub = ExtensionHub::with_new_token();
    assert_eq!(hub.token().len(), 32);
    assert!(hub.token().chars().all(|c| c.is_ascii_digit() || ('a'..='f').contains(&c)));
    assert!(hub.connected_browsers().is_empty());
    assert_ne!(ExtensionHub::with_new_token().token(), hub.token());
}

#[test]
fn hello_frames_are_read_from_raw_text() {
    let ok = r#"{"type":"hello","token":"tok","browser":"chrome","version":1}"#;
    assert_eq!(
        check_hello_frame("tok", ok),
        Some(HelloOutcome::Accepted { browser: "chrome".to_string() })
    );
    assert_eq!(check_hello_frame("tok", "not json"), None);
    assert_eq!(check_hello_frame("tok", ""), None);
    assert_eq!(
        check_hello_frame("tok", r#"{"type":"tabs","token":"tok"}"#),
        Some(HelloOutcome::Rejected { message: "expected hello".to_string() })
    );
    assert_eq!(
        check_hello_frame("tok", r#"{"type":1,"token":"tok"}"#),
        Some(HelloOutcome::Rejected { message: "expected hello".to_string() })
    );
    assert_eq!(
        check_hello_frame("tok", "[1,2]"),
        Some(HelloOutcome::Rejected { message: "expected hello".to_string() })
    );
    assert_eq!(
        check_hello_frame("tok", r#"{"type":"hello","token":"bad","browser":"edge"}"#),
        Some(HelloOutcome::Rejected { message: "invalid token".to_string() })
    );
    assert_eq!(
        check_hello_frame("tok", r#"{"type":"hello","token":7}"#),
        Some(HelloOutcome::Rejected { message: "invalid token".to_string() })
    );
    assert_eq!(
        check_hello_frame("tok", r#"{"type":"hello","token":"tok","browser":null}"#),
        Some(HelloOutcome::Accepted { browser: "unknown".to_string() })
    );
    assert_eq!(
        check_hello_frame("", r#"{"type":"hello"}"#),
        Some(HelloOutcome::Accepted { browser: "unknown".to_string() })
    );
}

#[test]
fn later_frames_are_classified() {
    assert_eq!(frame_kind(r#"{"type":"tabs","tabs":[]}"#), FrameKind::Tabs);
    assert_eq!(frame_kind(r#"{"type":"pong"}"#), FrameKind::Other);
    assert_eq!(frame_kind(r#"{"tabs":[]}"#), FrameKind::Other);
    assert_eq!(frame_kind(r#"{"type":"TABS"}"#), FrameKind::Other);
    assert_eq!(frame_kind("\"tabs\""), FrameKind::Other);
    assert_eq!(frame_kind("{type: tabs}"), FrameKind::Invalid);
}

#[test]
fn processes_are_matched_by_image_name() {
    let names: Vec<String> =
        ["System", "Chrome.EXE", "explorer.exe", "chrome.exe", " chrome.exe"].iter().map(|s| s.to_string()).collect();
    assert_eq!(processes_named(&names, "chrome.exe"), vec![1, 3]);
    assert_eq!(processes_named(&names, "notepad.exe"), Vec::<usize>::new());
    assert_eq!(processes_named(&Vec::new(), "chrome.exe"), Vec::<usize>::new());
}
