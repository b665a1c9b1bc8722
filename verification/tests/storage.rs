use tabflow::db::{
    hydrate_items, key_migrations, like_pattern, merge_note_matches, stale_note_keys, stats_of,
    task_items, tasks_with_counts, TaskRow,
};
use tabflow::platform::{ItemType, TrackedItem};

fn it(id: &str, kind: ItemType, title: &str, url: Option<&str>, last: &str) -> TrackedItem {
    TrackedItem {
        id: id.to_string(),
        title: title.to_string(),
        url: url.map(|u| u.to_string()),
        path: None,
        process_name: "n.exe".to_string(),
        window_handle: Some(1),
        item_type: kind,
        browser_name: None,
        last_active_at: last.to_string(),
        icon: None,
        note: None,
        task_ids: Vec::new(),
    }
}

fn pair(a: &str, b: &str) -> (String, String) {
    (a.to_string(), b.to_string())
}

fn strings(v: &[&str]) -> Vec<String> {
    v.iter().map(|s| s.to_string()).collect()
}

fn ids(items: &[TrackedItem]) -> Vec<String> {
    items.iter().map(|i| i.id.clone()).collect()
}

#[test]
fn like_patterns_escape_wildcards() {
    assert_eq!(like_pattern("rust"), "%rust%");
    assert_eq!(like_pattern("50%_a\\b"), "%50\\%\\_a\\\\b%");
    assert_eq!(like_pattern(""), "%%");
}

#[test]
fn hydration_attaches_tasks_and_notes() {
    let items = vec![
        it("t1", ItemType::BrowserTab, "A", Some("https://a.com/"), "1"),
        it("h1", ItemType::AppWindow, "X", None, "1"),
    ];
    let assigns = vec![
        pair("url:http://a.com", "task1"),
        pair("app:n.exe:y", "task9"),
        pair("url:http://a.com", "task2"),
    ];
    let notes = vec![pair("app:n.exe:x", "n1"), pair("app:n.exe:x", "n2")];
    let out = hydrate_items(items, &assigns, &notes, &strings(&["url:http://zzz"]));
    assert_eq!(ids(&out), vec!["t1", "h1"]);
    assert_eq!(out[0].task_ids, strings(&["task1", "task2"]));
    assert_eq!(out[0].note, None);
    assert!(out[1].task_ids.is_empty());
    assert_eq!(out[1].note, Some("n2".to_string()));
}

#[test]
fn ignored_resources_stay_hidden() {
    let items = vec![
        it("t1", ItemType::BrowserTab, "A", Some("https://a.com"), "1"),
        it("t2", ItemType::BrowserTab, "A", Some("http://a.com/#top"), "1"),
        it("h1", ItemType::AppWindow, "X", None, "1"),
    ];
    let out = hydrate_items(items, &Vec::new(), &Vec::new(), &strings(&["url:http://a.com"]));
    assert_eq!(ids(&out), vec!["h1"]);
}

#[test]
fn task_counts_only_live_resources() {
    let rows = vec![
        TaskRow { id: "task1".to_string(), name: "Work".to_string(), color: "#f00".to_string(), sort_order: 0 },
        TaskRow { id: "task2".to_string(), name: "Home".to_string(), color: "#0f0".to_string(), sort_order: 1 },
    ];
    let assigns = vec![
        pair("task1", "url:http://a.com"),
        pair("task1", "url:http://gone.com"),
        pair("task2", "url:http://a.com"),
        pair("task1", "app:n.exe:x"),
    ];
    let items = vec![
        it("t1", ItemType::BrowserTab, "A", Some("https://a.com"), "1"),
        it("h1", ItemType::AppWindow, "X", None, "1"),
    ];
    let tasks = tasks_with_counts(&rows, &assigns, &items);
    assert_eq!(tasks.len(), 2);
    assert_eq!(tasks[0].id, "task1");
    assert_eq!(tasks[0].name, "Work");
    assert_eq!(tasks[0].color, "#f00");
    assert_eq!(tasks[0].sort_order, 0);
    assert_eq!(tasks[0].item_count, Some(2));
    assert_eq!(tasks[1].item_count, Some(1));
}

#[test]
fn task_items_keep_one_instance_per_resource() {
    let items = vec![
        it("t2", ItemType::BrowserTab, "A", Some("https://a.com"), "2"),
        it("t1", ItemType::BrowserTab, "A", Some("http://a.com/"), "1"),
        it("h1", ItemType::AppWindow, "X", None, "1"),
    ];
    let out = task_items(&items, &strings(&["url:http://a.com", "app:n.exe:zzz"]));
    assert_eq!(ids(&out), vec!["t2"]);
    assert!(task_items(&items, &Vec::new()).is_empty());
}

#[test]
fn overview_counts() {
    let items = vec![
        it("t1", ItemType::BrowserTab, "A", Some("https://a.com"), "1"),
        it("t2", ItemType::BrowserTab, "B", Some("https://b.com"), "1"),
        it("e1", ItemType::ExplorerWindow, "E", None, "1"),
        it("h1", ItemType::AppWindow, "X", None, "1"),
    ];
    let s = stats_of(&items, 3, 1);
    assert_eq!(s.total_items, 4);
    assert_eq!(s.browser_tabs, 2);
    assert_eq!(s.explorer_windows, 1);
    assert_eq!(s.app_windows, 1);
    assert_eq!(s.active_tasks, 3);
    assert_eq!(s.duplicate_count, 1);
    let empty = stats_of(&Vec::new(), 0, 0);
    assert_eq!(empty.total_items, 0);
}

#[test]
fn scans_migrate_changed_keys() {
    let old = vec![
        it("h1", ItemType::AppWindow, "old title", None, "1"),
        it("h2", ItemType::AppWindow, "same", None, "1"),
    ];
    let new = vec![
        it("h1", ItemType::AppWindow, "New Title", None, "2"),
        it("h2", ItemType::AppWindow, "same", None, "2"),
        it("h3", ItemType::AppWindow, "fresh", None, "2"),
    ];
    assert_eq!(
        key_migrations(&old, &new),
        vec![pair("app:n.exe:new title", "app:n.exe:old title")]
    );
    assert!(key_migrations(&old, &old).is_empty());
}

#[test]
fn notes_of_closed_resources_are_pruned() {
    let items = vec![it("t1", ItemType::BrowserTab, "A", Some("https://a.com"), "1")];
    assert_eq!(
        stale_note_keys(&strings(&["url:http://a.com", "app:x:y", "path:c:\\z"]), &items),
        strings(&["app:x:y", "path:c:\\z"])
    );
    assert!(stale_note_keys(&Vec::new(), &items).is_empty());
}

#[test]
fn note_matches_extend_search_results() {
    let t1 = it("t1", ItemType::BrowserTab, "A", Some("https://a.com"), "2024-01-01");
    let h1 = it("h1", ItemType::AppWindow, "X", None, "2024-01-02");
    let h2 = it("h2", ItemType::AppWindow, "Y", None, "2024-01-03");
    let all = vec![t1.clone(), h1.clone(), h2.clone()];
    let out = merge_note_matches(&vec![t1.clone()], &all, &strings(&["app:n.exe:x"]));
    assert_eq!(ids(&out), vec!["h1", "t1"]);
    let again = merge_note_matches(&vec![h1.clone()], &all, &strings(&["app:n.exe:x"]));
    assert_eq!(ids(&again), vec!["h1"]);
    let plain = merge_note_matches(&vec![t1.clone(), h2.clone()], &all, &Vec::new());
    assert_eq!(ids(&plain), vec!["h2", "t1"]);
}
