use tabflow::browser::{
    browser_exe, ext_item_id, is_internal_url, parse_ext_id, tab_channel, TabChannel,
};
use tabflow::explorer::{
    can_close_explorer_window, explorer_item_id, file_url_to_path, hex_val, percent_decode,
};
use tabflow::platform::{enumerate_windows, ItemType, TrackedItem};

fn explorer_tab(id: &str, hwnd: i64) -> TrackedItem {
    TrackedItem {
        id: id.to_string(),
        title: "foo".to_string(),
        url: None,
        path: Some("C:\\foo".to_string()),
        process_name: "explorer.exe".to_string(),
        window_handle: Some(hwnd),
        item_type: ItemType::ExplorerWindow,
        browser_name: None,
        last_active_at: "2024-01-01T00:00:00+00:00".to_string(),
        icon: None,
        note: None,
        task_ids: Vec::new(),
    }
}

#[test]
fn parses_extension_item_ids() {
    assert_eq!(
        parse_ext_id("ext_chrome_123456"),
        Some(("chrome".to_string(), 123456))
    );
    assert_eq!(parse_ext_id("ext_edge_42"), Some(("edge".to_string(), 42)));
    assert_eq!(parse_ext_id("tab_123"), None);
    assert_eq!(parse_ext_id("ext_chrome_"), None);
    assert_eq!(parse_ext_id("ext__7"), None); // empty browser
    assert_eq!(parse_ext_id("ext_chrome_abc"), None);
}

#[test]
fn filters_internal_urls() {
    assert!(is_internal_url("chrome://settings"));
    assert!(is_internal_url("edge://newtab"));
    assert!(is_internal_url(""));
    assert!(!is_internal_url("https://example.com"));
}

#[test]
fn decodes_file_url_to_windows_path() {
    assert_eq!(
        file_url_to_path("file:///C:/Users/foo/My%20Docs"),
        Some(r"C:\Users\foo\My Docs".to_string())
    );
    assert_eq!(file_url_to_path("file:///D:/data"), Some(r"D:\data".to_string()));
}

#[test]
fn rejects_non_file_urls() {
    assert_eq!(file_url_to_path("https://example.com"), None);
    assert_eq!(file_url_to_path(""), None);
    assert_eq!(file_url_to_path("file:///"), None);
}

#[test]
fn percent_decode_handles_truncated_sequences() {
    assert_eq!(percent_decode(b"100%"), None); // dangling %
    assert_eq!(percent_decode(b"%zz"), None); // invalid hex
    assert_eq!(percent_decode(b"plain"), Some(b"plain".to_vec()));
    assert_eq!(percent_decode(b"a%20b"), Some(b"a b".to_vec()));
}

#[test]
fn same_folder_tabs_get_distinct_ids() {
    assert_eq!(
        explorer_item_id(100, "c:/users/foo", 0),
        "explorer_100_c:/users/foo"
    );
    assert_eq!(
        explorer_item_id(100, "c:/users/foo", 1),
        "explorer_100_c:/users/foo_1"
    );
    assert_eq!(
        explorer_item_id(100, "c:/users/foo", 2),
        "explorer_100_c:/users/foo_2"
    );
    assert_ne!(
        explorer_item_id(100, "c:/users/foo", 0),
        explorer_item_id(200, "c:/users/foo", 0)
    );
}

#[test]
fn extension_ids_round_trip() {
    let id = ext_item_id("chrome", 42);
    assert_eq!(id, "ext_chrome_42");
    assert_eq!(parse_ext_id(&id), Some(("chrome".to_string(), 42)));
    let neg = ext_item_id("my_browser", -7);
    assert_eq!(neg, "ext_my_browser_-7");
    assert_eq!(parse_ext_id(&neg), Some(("my_browser".to_string(), -7)));
    assert_eq!(parse_ext_id("ext_edge_+5"), Some(("edge".to_string(), 5)));
    assert_eq!(parse_ext_id("ext_edge_99999999999999999999"), None);
    assert_eq!(parse_ext_id("ext_edge_-9223372036854775808"), Some(("edge".to_string(), i64::MIN)));
}

#[test]
fn browser_ids_map_to_process_stems() {
    assert_eq!(browser_exe("edge"), "msedge");
    assert_eq!(browser_exe("firefox"), "firefox");
    assert_eq!(browser_exe("opera"), "opera");
    assert_eq!(browser_exe("brave"), "brave");
    assert_eq!(browser_exe("vivaldi"), "vivaldi");
    assert_eq!(browser_exe("chrome"), "chrome");
    assert_eq!(browser_exe("unknown"), "chrome");
}

#[test]
fn internal_url_edge_cases() {
    assert!(is_internal_url("about:blank"));
    assert!(is_internal_url("about:config"));
    assert!(is_internal_url("chrome-extension://abc/popup.html"));
    assert!(is_internal_url("moz-extension://abc/x"));
    assert!(!is_internal_url("file:///C:/x"));
    assert!(!is_internal_url("http://chrome://"));
}

#[test]
fn tabs_route_by_id_prefix() {
    assert_eq!(tab_channel("ext_chrome_1"), TabChannel::Extension);
    assert_eq!(tab_channel("tab_ABC"), TabChannel::DevTools);
    assert_eq!(tab_channel("ext"), TabChannel::DevTools);
}

#[test]
fn hex_digits_decode() {
    assert_eq!(hex_val(b'0'), Some(0));
    assert_eq!(hex_val(b'9'), Some(9));
    assert_eq!(hex_val(b'a'), Some(10));
    assert_eq!(hex_val(b'F'), Some(15));
    assert_eq!(hex_val(b'g'), None);
    assert_eq!(hex_val(b'%'), None);
}

#[test]
fn percent_decode_more_cases() {
    assert_eq!(percent_decode(b""), Some(Vec::new()));
    assert_eq!(percent_decode(b"%4"), None);
    assert_eq!(percent_decode(b"%41%2f%2F"), Some(b"A//".to_vec()));
    assert_eq!(percent_decode(b"%ff"), Some(vec![255u8]));
}

#[test]
fn file_urls_decode_utf8_and_reject_invalid_bytes() {
    assert_eq!(
        file_url_to_path("file:///C:/%E4%B8%AD"),
        Some("C:\\\u{4e2d}".to_string())
    );
    assert_eq!(file_url_to_path("file:///C:/%FF"), None);
    assert_eq!(file_url_to_path("file:///C:/bad%2"), None);
    assert_eq!(file_url_to_path("FILE:///C:/x"), None);
    assert_eq!(file_url_to_path("file:///\\\\server/share"), Some("\\\\server\\share".to_string()));
}

#[test]
fn explorer_ids_with_negative_handles() {
    assert_eq!(explorer_item_id(-5, "x", 0), "explorer_-5_x");
    assert_eq!(explorer_item_id(0, "", 3), "explorer_0__3");
}

#[test]
fn explorer_window_closes_only_when_single_tab() {
    let items = vec![
        explorer_tab("explorer_10_c:/foo", 10),
        explorer_tab("explorer_10_c:/foo_1", 10),
        explorer_tab("explorer_11_c:/foo", 11),
    ];
    assert!(!can_close_explorer_window(10, &items));
    assert!(can_close_explorer_window(11, &items));
    assert!(can_close_explorer_window(12, &items));
    let mut app = explorer_tab("hwnd_11", 11);
    app.item_type = ItemType::AppWindow;
    let with_app = vec![explorer_tab("explorer_11_c:/foo", 11), app];
    assert!(can_close_explorer_window(11, &with_app));
}

#[test]
fn item_types_round_trip() {
    for t in [ItemType::BrowserTab, ItemType::ExplorerWindow, ItemType::AppWindow] {
        assert_eq!(ItemType::from_str(t.as_str()), t);
    }
    assert_eq!(ItemType::BrowserTab.as_str(), "browser_tab");
    assert_eq!(ItemType::ExplorerWindow.as_str(), "explorer_window");
    assert_eq!(ItemType::AppWindow.as_str(), "app_window");
    assert_eq!(ItemType::from_str("something"), ItemType::AppWindow);
}

#[test]
fn window_enumeration_is_empty_off_windows() {
    assert!(enumerate_windows().is_empty());
}

#[test]
fn percent_decoding_undoes_encoding() {
    let bytes: Vec<u8> = (0u8..=255).collect();
    let mut lower = Vec::new();
    let mut mixed = Vec::new();
    for (i, b) in bytes.iter().enumerate() {
        lower.extend_from_slice(format!("%{:02x}", b).as_bytes());
        if *b == b'%' || i % 3 == 0 {
            mixed.extend_from_slice(format!("%{:02X}", b).as_bytes());
        } else {
            mixed.push(*b);
        }
    }
    assert_eq!(percent_decode(&lower), Some(bytes.clone()));
    assert_eq!(percent_decode(&mixed), Some(bytes));
}
