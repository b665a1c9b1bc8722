use tabflow::actions::{
    close_action, close_duplicates_plan, close_window_plan, focus_target, plan_cleanup,
    CloseAction, CloseStep, FocusTarget,
};
use tabflow::db::new_task_id;
use tabflow::duplicate::{find_duplicates, normalize_url, resource_key};
use tabflow::order::{item_before, sort_items, text_lt};
use tabflow::platform::{ItemType, TrackedItem};
use tabflow::search::match_score;

fn item(
    id: &str,
    kind: ItemType,
    title: &str,
    url: Option<&str>,
    path: Option<&str>,
    process: &str,
    hwnd: Option<i64>,
    last: &str,
) -> TrackedItem {
    TrackedItem {
        id: id.to_string(),
        title: title.to_string(),
        url: url.map(|u| u.to_string()),
        path: path.map(|p| p.to_string()),
        process_name: process.to_string(),
        window_handle: hwnd,
        item_type: kind,
        browser_name: None,
        last_active_at: last.to_string(),
        icon: None,
        note: None,
        task_ids: Vec::new(),
    }
}

fn tab(id: &str, url: &str, last: &str) -> TrackedItem {
    item(id, ItemType::BrowserTab, "t", Some(url), None, "chrome.exe", None, last)
}

fn app(id: &str, process: &str, title: &str, hwnd: i64, last: &str) -> TrackedItem {
    item(id, ItemType::AppWindow, title, None, None, process, Some(hwnd), last)
}

fn folder(id: &str, path: Option<&str>, hwnd: i64, last: &str) -> TrackedItem {
    item(id, ItemType::ExplorerWindow, "folder", None, path, "explorer.exe", Some(hwnd), last)
}

fn ids(items: &[TrackedItem]) -> Vec<String> {
    items.iter().map(|i| i.id.clone()).collect()
}

fn norm(url: &str) -> String {
    normalize_url(&url.chars().collect()).into_iter().collect()
}

#[test]
fn urls_normalize_for_comparison() {
    assert_eq!(
        norm("https://Example.com/Path/?utm_source=x&q=1#frag"),
        "http://example.com/Path?q=1"
    );
    assert_eq!(norm("https://a.com/?utm_medium=1&gclid=2"), "http://a.com");
    assert_eq!(norm("http://a.com/search?q=rust&ref=home"), "http://a.com/search?q=rust");
    assert_eq!(norm("http://a.com/x?fbclid=1&spm=2&a=b=c"), "http://a.com/x?a=b=c");
    assert_eq!(norm("http://x.com?"), "http://x.com?");
    assert_eq!(norm("http://x.com/#a?b"), "http://x.com");
    assert_eq!(norm("http://x.com/?utm=1"), "http://x.com?utm=1");
}

#[test]
fn only_scheme_and_host_are_lowercased() {
    assert_eq!(norm("HTTPS://A.Com/Docs/ReadMe"), "http://a.com/Docs/ReadMe");
    assert_eq!(norm("http://Host.COM"), "http://host.com");
    assert_eq!(norm("http://a.com/X?Q=Y"), "http://a.com/X?Q=Y");
    assert_eq!(norm("MAILTO:Bob@Example.com"), "mailto:Bob@Example.com");
    assert_eq!(norm("Plain/Path"), "Plain/Path");
    assert_ne!(norm("https://a.com/Docs"), norm("https://a.com/docs"));
    let a = tab("a", "https://A.com/Wiki/Main", "1");
    let b = tab("b", "http://a.COM/Wiki/Main/", "2");
    assert_eq!(resource_key(&a), resource_key(&b));
    assert_eq!(resource_key(&a), "url:http://a.com/Wiki/Main");
}

#[test]
fn http_and_https_share_a_key() {
    let a = tab("a", "https://example.com/docs/", "1");
    let b = tab("b", "http://EXAMPLE.com/docs", "2");
    assert_eq!(resource_key(&a), resource_key(&b));
    assert_eq!(resource_key(&a), "url:http://example.com/docs");
}

#[test]
fn fragments_and_tracking_params_do_not_change_keys() {
    let plain = tab("a", "https://a.com/page?q=1", "1");
    let frag = tab("b", "https://a.com/page?q=1#section", "1");
    let with_utm = tab("c", "https://a.com/page?q=1&utm_campaign=z", "1");
    assert_eq!(resource_key(&plain), resource_key(&frag));
    assert_eq!(resource_key(&plain), resource_key(&with_utm));
    let other = tab("d", "https://a.com/page?q=2", "1");
    assert_ne!(resource_key(&plain), resource_key(&other));
}

#[test]
fn resource_keys_by_kind() {
    assert_eq!(resource_key(&tab("a", "page:Foo Bar//", "1")), "url:page:foo bar");
    let mut no_url = tab("tab_7", "x", "1");
    no_url.url = None;
    assert_eq!(resource_key(&no_url), "browser_standalone:tab_7");
    assert_eq!(resource_key(&folder("e", Some("C:\\Users\\Foo"), 1, "1")), "path:c:\\users\\foo");
    assert_eq!(resource_key(&folder("e9", None, 1, "1")), "explorer_standalone:e9");
    assert_eq!(
        resource_key(&app("h", "Notepad.EXE", "ReadMe - Notepad", 3, "1")),
        "app:notepad.exe:readme - notepad"
    );
}

#[test]
fn keys_ignore_the_instance() {
    let a = folder("explorer_1_c:/x", Some("C:\\x"), 1, "2024-01-01");
    let b = folder("explorer_2_c:/x", Some("C:\\x"), 2, "2025-01-01");
    assert_eq!(resource_key(&a), resource_key(&b));
    let c = app("hwnd_1", "code.exe", "main.rs", 1, "1");
    let d = app("hwnd_2", "code.exe", "main.rs", 2, "2");
    assert_eq!(resource_key(&c), resource_key(&d));
}

#[test]
fn duplicates_are_grouped_and_ordered() {
    let items = vec![
        tab("t1", "https://a.com/", "2024-01-02"),
        tab("t3", "https://b.com", "2024-01-05"),
        app("h2", "NOTEPAD.EXE", "X", 2, "2024-01-01"),
        tab("t2", "http://a.com#x", "2024-01-03"),
        app("h1", "notepad.exe", "x", 1, "2024-01-01"),
    ];
    let groups = find_duplicates(&items);
    assert_eq!(groups.len(), 2);
    assert_eq!(groups[0].match_pattern, "app:notepad.exe:x");
    assert_eq!(groups[0].match_type, "app_title");
    assert_eq!(ids(&groups[0].items), vec!["h1", "h2"]);
    assert_eq!(groups[0].count, 2);
    assert_eq!(groups[1].match_pattern, "url:http://a.com");
    assert_eq!(groups[1].match_type, "url_exact");
    assert_eq!(ids(&groups[1].items), vec!["t2", "t1"]);
    assert_eq!(groups[1].count, 2);
    assert!(!groups[0].id.is_empty());
    assert_ne!(groups[0].id, groups[1].id);
    for g in &groups {
        assert!(is_uuid(&g.id), "{}", g.id);
    }
}

#[test]
fn duplicate_match_types() {
    let items = vec![
        folder("e1", Some("C:\\A"), 1, "1"),
        folder("e2", Some("c:\\a"), 2, "1"),
        folder("v", None, 3, "1"),
        folder("v", None, 4, "1"),
    ];
    let groups = find_duplicates(&items);
    assert_eq!(groups.len(), 2);
    assert_eq!(groups[0].match_pattern, "explorer_standalone:v");
    assert_eq!(groups[0].match_type, "title_match");
    assert_eq!(groups[1].match_pattern, "path:c:\\a");
    assert_eq!(groups[1].match_type, "path_exact");
}

#[test]
fn no_duplicates_no_groups() {
    assert!(find_duplicates(&[]).is_empty());
    let items = vec![tab("a", "https://a.com", "1"), tab("b", "https://b.com", "1")];
    assert!(find_duplicates(&items).is_empty());
}

#[test]
fn grouping_ignores_input_order() {
    let items = vec![
        tab("t1", "https://a.com", "2"),
        tab("t2", "https://a.com", "3"),
        folder("e1", Some("C:\\x"), 1, "1"),
        folder("e2", Some("C:\\x"), 2, "1"),
    ];
    let mut reversed = items.clone();
    reversed.reverse();
    let g1 = find_duplicates(&items);
    let g2 = find_duplicates(&reversed);
    assert_eq!(g1.len(), g2.len());
    for (a, b) in g1.iter().zip(g2.iter()) {
        assert_eq!(a.match_pattern, b.match_pattern);
        assert_eq!(a.match_type, b.match_type);
        assert_eq!(ids(&a.items), ids(&b.items));
        assert_eq!(a.count, b.count);
    }
}

fn cleanup_items() -> Vec<TrackedItem> {
    vec![
        tab("t1", "https://a.com", "2024-01-02"),
        tab("t2", "https://a.com", "2024-01-03"),
        folder("explorer_5_c:/a", Some("C:\\a"), 5, "2024-01-01"),
        folder("explorer_5_c:/a_1", Some("C:\\a"), 5, "2024-01-01"),
        app("h1", "code.exe", "x", 8, "2024-01-01"),
        app("h2", "code.exe", "x", 9, "2024-01-01"),
    ]
}

#[test]
fn cleanup_keeps_the_first_item_of_each_selected_group() {
    let all = cleanup_items();
    let plan = close_duplicates_plan(
        &all,
        &vec!["path:c:\\a".to_string(), "url:http://a.com".to_string()],
        &None,
    );
    assert_eq!(plan.len(), 2);
    assert_eq!(
        plan[0].steps,
        vec![CloseStep {
            item_id: "explorer_5_c:/a_1".to_string(),
            action: CloseAction::ExplorerTab { hwnd: 5, title: "folder".to_string() },
        }]
    );
    assert_eq!(
        plan[1].steps,
        vec![CloseStep {
            item_id: "t1".to_string(),
            action: CloseAction::BrowserTab { item_id: "t1".to_string() },
        }]
    );
}

#[test]
fn cleanup_with_explicit_keeps() {
    let all = cleanup_items();
    let keys = vec!["url:http://a.com".to_string(), "app:code.exe:x".to_string()];
    let plan = close_duplicates_plan(&all, &keys, &Some(vec!["t1".to_string()]));
    assert_eq!(plan.len(), 2);
    assert_eq!(plan[0].steps.len(), 2);
    assert_eq!(plan[0].steps[0].action, CloseAction::Window { hwnd: 8 });
    assert_eq!(plan[0].steps[1].action, CloseAction::Window { hwnd: 9 });
    assert_eq!(
        plan[1].steps,
        vec![CloseStep {
            item_id: "t2".to_string(),
            action: CloseAction::BrowserTab { item_id: "t2".to_string() },
        }]
    );
    let empty_keeps = close_duplicates_plan(&all, &keys, &Some(Vec::new()));
    assert_eq!(empty_keeps[1].steps[0].item_id, "t1");
}

#[test]
fn cleanup_selects_groups_by_id_too() {
    let all = cleanup_items();
    let groups = find_duplicates(&all);
    let plan = plan_cleanup(&groups, &all, &vec![groups[1].id.clone()], &None);
    assert_eq!(plan.len(), 1);
    assert_eq!(plan[0].group_id, groups[1].id);
    let none = plan_cleanup(&groups, &all, &vec!["nothing".to_string()], &None);
    assert!(none.is_empty());
}

#[test]
fn close_actions_by_kind() {
    let all = cleanup_items();
    assert_eq!(close_action(&all[0], &all), CloseAction::BrowserTab { item_id: "t1".to_string() });
    assert_eq!(
        close_action(&all[2], &all),
        CloseAction::ExplorerTab { hwnd: 5, title: "folder".to_string() }
    );
    let single = vec![folder("e", Some("C:\\b"), 6, "1")];
    assert_eq!(close_action(&single[0], &single), CloseAction::Window { hwnd: 6 });
    let mut loose = app("h", "x.exe", "y", 1, "1");
    loose.window_handle = None;
    assert_eq!(close_action(&loose, &all), CloseAction::Nothing);
}

#[test]
fn closing_and_focusing_by_id() {
    let all = cleanup_items();
    assert_eq!(
        close_window_plan(&all, "h2"),
        Some(CloseStep { item_id: "h2".to_string(), action: CloseAction::Window { hwnd: 9 } })
    );
    assert_eq!(close_window_plan(&all, "missing"), None);
    assert_eq!(
        focus_target(&all, "t2"),
        FocusTarget::Tab { item_id: "t2".to_string(), process_name: "chrome.exe".to_string() }
    );
    assert_eq!(focus_target(&all, "h1"), FocusTarget::Window { hwnd: 8 });
    assert_eq!(focus_target(&all, "missing"), FocusTarget::NotFound);
}

#[test]
fn items_sort_most_recent_first_then_by_id() {
    let items = vec![
        app("b", "x.exe", "1", 1, "2024-01-01"),
        app("c", "x.exe", "2", 2, "2024-01-02"),
        app("a", "x.exe", "3", 3, "2024-01-01"),
    ];
    let sorted = sort_items(&items);
    assert_eq!(ids(&sorted), vec!["c", "a", "b"]);
    assert!(item_before(&items[1], &items[2]));
    assert!(item_before(&items[2], &items[0]));
    assert!(!item_before(&items[0], &items[0]));
    assert!(text_lt(&"ab".chars().collect(), &"b".chars().collect()));
    assert!(text_lt(&"a".chars().collect(), &"ab".chars().collect()));
    assert!(!text_lt(&"b".chars().collect(), &"ab".chars().collect()));
    assert!(!text_lt(&"".chars().collect(), &"".chars().collect()));
}

#[test]
fn search_scores() {
    let mut it = tab("t", "https://rust-lang.org", "1");
    it.title = "Rust".to_string();
    assert_eq!(match_score(&it, "rust"), 220);
    assert_eq!(match_score(&it, "RUST"), 220);
    assert_eq!(match_score(&it, "lang"), 40);
    assert_eq!(match_score(&it, "chrome"), 20);
    assert_eq!(match_score(&it, "zzz"), 0);
    assert_eq!(match_score(&it, ""), 140);
    let f = folder("e", Some("C:\\Work\\Rust"), 1, "1");
    assert_eq!(match_score(&f, "work"), 40);
    assert_eq!(match_score(&f, "folder"), 180);
}

#[test]
fn normalizing_twice_changes_nothing() {
    for u in [
        "https://Example.com/Path/?utm_source=x&q=1#frag",
        "http://x.com?",
        "https://a.com/?utm_medium=1&gclid=2",
        "http://a.com/x?fbclid=1&spm=2&a=b=c",
        "https://",
        "HTTPS://A.Com/Docs/ReadMe/",
        "MAILTO:Bob@Example.com",
    ] {
        let once = norm(u);
        assert_eq!(norm(&once), once);
    }
}

#[test]
fn query_case_does_not_change_scores() {
    let mut it = tab("t", "https://Rust-Lang.org/Learn", "1");
    it.title = "The Rust Book".to_string();
    for q in ["rust", "RUST", "Rust", "learn", "BOOK"] {
        assert_eq!(match_score(&it, q), match_score(&it, &q.to_ascii_lowercase()));
        assert_eq!(match_score(&it, q), match_score(&it, &q.to_ascii_uppercase()));
    }
}

#[test]
fn equal_items_keep_their_order_when_sorted() {
    let mut a = app("x", "a.exe", "1", 1, "2024-01-01");
    a.title = "first".to_string();
    let mut b = app("x", "a.exe", "2", 2, "2024-01-01");
    b.title = "second".to_string();
    let c = app("w", "a.exe", "3", 3, "2024-01-01");
    let sorted = sort_items(&vec![a.clone(), b.clone(), c]);
    assert_eq!(sorted.iter().map(|i| i.title.as_str()).collect::<Vec<_>>(), vec!["3", "first", "second"]);
    let reversed = sort_items(&vec![b, a]);
    assert_eq!(reversed.iter().map(|i| i.title.as_str()).collect::<Vec<_>>(), vec!["second", "first"]);
}

fn is_uuid(s: &str) -> bool {
    s.len() == 36
        && s.chars().enumerate().all(|(i, c)| {
            if [8, 13, 18, 23].contains(&i) {
                c == '-'
            } else {
                c.is_ascii_digit() || ('a'..='f').contains(&c)
            }
        })
}

#[test]
fn task_ids_are_fresh_uuids() {
    let a = new_task_id();
    let b = new_task_id();
    assert!(is_uuid(&a), "{}", a);
    assert!(is_uuid(&b), "{}", b);
    assert_ne!(a, b);
}
