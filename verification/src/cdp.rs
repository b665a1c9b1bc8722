//! Browser tabs from the Chrome DevTools Protocol (browsers started with a
//! remote-debugging port): which ports are asked, how a browser is
//! recognized, which targets become tracked tabs, and the endpoint that
//! closes or activates a tab.

use crate::platform::{items_view, ItemType, ItemView, TrackedItem};
use crate::text::{
    chars_of, contains, contains_seq, is_prefix, lower, lowercase, push_all, push_i64, push_str,
    slice, starts_with_str, string_of,
};
use vstd::prelude::*;

verus! {

/// DevTools ports that are scanned.
pub open spec fn cdp_ports() -> Seq<i32> {
    seq![9222i32, 9223i32, 9224i32, 9225i32]
}

/// The DevTools ports, in scan order.
pub fn cdp_port_list() -> (r: Vec<i32>)
    ensures
        r@ == cdp_ports(),
{
    let mut r: Vec<i32> = Vec::new();
    r.push(9222);
    r.push(9223);
    r.push(9224);
    r.push(9225);
    assert(r@ =~= cdp_ports());
    r
}

/// A target as listed by the DevTools `/json` endpoint.
#[derive(Debug, Clone)]
pub struct CdpTab {
    pub id: String,
    pub title: String,
    pub url: String,
    pub tab_type: String,
    pub ws_url: Option<String>,
}

/// Process identifier of the browser behind a DevTools port, from the
/// `Browser` field of `/json/version` ("Edg/…", "Chrome/…", "OPR/…"), or
/// from the tab URLs when that field is empty.
pub open spec fn browser_of(version_browser: Seq<char>, tabs: Seq<CdpTab>) -> Seq<char> {
    let v = lowercase(version_browser);
    if contains_seq(v, "edg"@) {
        "msedge"@
    } else if contains_seq(v, "opr"@) {
        "opera"@
    } else if contains_seq(v, "vivaldi"@) {
        "vivaldi"@
    } else if contains_seq(v, "brave"@) {
        "brave"@
    } else if v.len() > 0 {
        "chrome"@
    } else if exists|i: int|
        0 <= i < tabs.len() && (is_prefix("edge://"@, #[trigger] tabs[i].url@) || is_prefix(
            "microsoft-edge://"@,
            tabs[i].url@,
        )) {
        "msedge"@
    } else {
        "chrome"@
    }
}

/// Map the `/json/version` browser string to a process identifier, falling
/// back to tab-URL heuristics when it is missing.
pub fn identify_browser(version_browser: &str, tabs: &Vec<CdpTab>) -> (r: &'static str)
    ensures
        r@ == browser_of(version_browser@, tabs@),
{
    let v = lower(&chars_of(version_browser));
    if contains(&v, &chars_of("edg")) {
        return "msedge";
    }
    if contains(&v, &chars_of("opr")) {
        return "opera";
    }
    if contains(&v, &chars_of("vivaldi")) {
        return "vivaldi";
    }
    if contains(&v, &chars_of("brave")) {
        return "brave";
    }
    if v.len() > 0 {
        return "chrome";
    }
    let mut i: usize = 0;
    while i < tabs.len()
        invariant
            i <= tabs@.len(),
            v@ == lowercase(version_browser@),
            v@.len() == 0,
            !contains_seq(v@, "edg"@),
            !contains_seq(v@, "opr"@),
            !contains_seq(v@, "vivaldi"@),
            !contains_seq(v@, "brave"@),
            forall|j: int|
                0 <= j < i ==> !(is_prefix("edge://"@, #[trigger] tabs@[j].url@) || is_prefix(
                    "microsoft-edge://"@,
                    tabs@[j].url@,
                )),
        decreases tabs.len() - i,
    {
        let u = chars_of(tabs[i].url.as_str());
        if starts_with_str(&u, "edge://") || starts_with_str(&u, "microsoft-edge://") {
            assert(is_prefix("edge://"@, tabs@[i as int].url@) || is_prefix("microsoft-edge://"@, tabs@[i as int].url@));
            return "msedge";
        }
        i += 1;
    }
    "chrome"
}

/// The tracked item for a DevTools page target.
pub open spec fn cdp_tab_item(tab: CdpTab, browser: Seq<char>, now: Seq<char>) -> ItemView {
    ItemView {
        id: "tab_"@ + tab.id@,
        title: tab.title@,
        url: Some(tab.url@),
        path: None,
        process_name: browser + ".exe"@,
        window_handle: None,
        item_type: ItemType::BrowserTab,
        browser_name: Some(browser),
        last_active_at: now,
        icon: None,
        note: None,
        task_ids: Seq::<Seq<char>>::empty(),
    }
}

/// Items for the page targets with a URL, in target order (extensions,
/// devtools and other non-page targets are skipped; internal pages count).
pub open spec fn cdp_items(tabs: Seq<CdpTab>, browser: Seq<char>, now: Seq<char>) -> Seq<ItemView>
    decreases tabs.len(),
{
    if tabs.len() == 0 {
        Seq::<ItemView>::empty()
    } else {
        let pre = cdp_items(tabs.drop_last(), browser, now);
        let t = tabs.last();
        if t.tab_type@ == "page"@ && t.url@.len() > 0 {
            pre.push(cdp_tab_item(t, browser, now))
        } else {
            pre
        }
    }
}

/// What one DevTools port answered: its targets and the `/json/version`
/// browser string (empty when that endpoint did not answer).
#[derive(Debug, Clone)]
pub struct CdpScanResult {
    pub tabs: Vec<CdpTab>,
    pub browser: String,
}

/// Items of all answering ports, port by port.
pub open spec fn scan_items(results: Seq<CdpScanResult>, now: Seq<char>) -> Seq<ItemView>
    decreases results.len(),
{
    if results.len() == 0 {
        Seq::<ItemView>::empty()
    } else {
        let r = results.last();
        scan_items(results.drop_last(), now) + cdp_items(
            r.tabs@,
            browser_of(r.browser@, r.tabs@),
            now,
        )
    }
}

/// Browser tabs from the scanned DevTools ports, stamped with `now` (one
/// timestamp for the whole scan).
pub fn browser_tabs_from_scan(results: &Vec<CdpScanResult>, now: &str) -> (r: Vec<TrackedItem>)
    ensures
        items_view(r@) == scan_items(results@, now@),
{
    let mut items: Vec<TrackedItem> = Vec::new();
    let mut k: usize = 0;
    assert(results@.subrange(0, 0) =~= Seq::<CdpScanResult>::empty());
    while k < results.len()
        invariant
            k <= results@.len(),
            items_view(items@) == scan_items(results@.subrange(0, k as int), now@),
        decreases results.len() - k,
    {
        let res = &results[k];
        let browser = identify_browser(res.browser.as_str(), &res.tabs);
        let ghost base = items_view(items@);
        let mut i: usize = 0;
        assert(res.tabs@.subrange(0, 0) =~= Seq::<CdpTab>::empty());
        assert(base =~= base + cdp_items(res.tabs@.subrange(0, 0), browser@, now@));
        while i < res.tabs.len()
            invariant
                i <= res.tabs@.len(),
                items_view(items@) == base + cdp_items(res.tabs@.subrange(0, i as int), browser@, now@),
            decreases res.tabs.len() - i,
        {
            let ghost sub = res.tabs@.subrange(0, i + 1);
            assert(sub.drop_last() =~= res.tabs@.subrange(0, i as int));
            let tab = &res.tabs[i];
            let is_page = crate::text::chars_eq(&chars_of(tab.tab_type.as_str()), &chars_of("page"));
            if is_page && !tab.url.as_str().is_empty() {
                let mut id: Vec<char> = Vec::new();
                push_str(&mut id, "tab_");
                push_str(&mut id, tab.id.as_str());
                let mut pn: Vec<char> = Vec::new();
                push_str(&mut pn, browser);
                push_str(&mut pn, ".exe");
                let item = TrackedItem {
                    id: string_of(&id),
                    title: tab.title.clone(),
                    url: Some(tab.url.clone()),
                    path: None,
                    process_name: string_of(&pn),
                    window_handle: None,
                    item_type: ItemType::BrowserTab,
                    browser_name: Some(string_of(&chars_of(browser))),
                    last_active_at: string_of(&chars_of(now)),
                    icon: None,
                    note: None,
                    task_ids: Vec::new(),
                };
                let ghost before = items_view(items@);
                assert(item@.task_ids =~= Seq::<Seq<char>>::empty());
                assert(item@ =~= cdp_tab_item(*tab, browser@, now@));
                items.push(item);
                assert(items_view(items@) =~= before.push(item@));
            }
            i += 1;
        }
        assert(res.tabs@.subrange(0, res.tabs@.len() as int) =~= res.tabs@);
        let ghost ksub = results@.subrange(0, k + 1);
        assert(ksub.drop_last() =~= results@.subrange(0, k as int));
        k += 1;
    }
    assert(results@.subrange(0, results@.len() as int) =~= results@);
    items
}

/// DevTools target id of a `tab_{id}` item id.
pub open spec fn cdp_target_of(item_id: Seq<char>) -> Option<Seq<char>> {
    if is_prefix("tab_"@, item_id) {
        Some(item_id.subrange("tab_"@.len() as int, item_id.len() as int))
    } else {
        None
    }
}

/// A DevTools tab command.
#[derive(Debug, Clone, Copy, PartialEq, Eq, Structural)]
pub enum CdpAction {
    Close,
    Activate,
}

/// URL of a DevTools endpoint on a local port.
pub open spec fn cdp_endpoint(port: i32, path: Seq<char>) -> Seq<char> {
    "http://127.0.0.1:"@ + crate::text::int_decimal(port as int) + path
}

/// The endpoint path of a tab command.
pub open spec fn action_path(action: CdpAction, target: Seq<char>) -> Seq<char> {
    match action {
        CdpAction::Close => "/json/close/"@ + target,
        CdpAction::Activate => "/json/activate/"@ + target,
    }
}

/// URL of a DevTools endpoint (`/json`, `/json/version`, …) on a local port.
pub fn cdp_url(port: i32, path: &str) -> (r: String)
    ensures
        r@ == cdp_endpoint(port, path@),
{
    let mut v: Vec<char> = Vec::new();
    push_str(&mut v, "http://127.0.0.1:");
    push_i64(&mut v, port as i64);
    push_str(&mut v, path);
    assert(v@ =~= cdp_endpoint(port, path@));
    string_of(&v)
}

/// The URLs to try for closing or activating a DevTools tab, one per
/// scanned port; `None` when the item id is not a DevTools tab id.
pub fn cdp_command_urls(item_id: &str, action: CdpAction) -> (r: Option<Vec<String>>)
    ensures
        match cdp_target_of(item_id@) {
            None => r is None,
            Some(t) => r matches Some(urls) && urls@.len() == cdp_ports().len() && forall|i: int|
                0 <= i < urls@.len() ==> (#[trigger] urls@[i])@ == cdp_endpoint(
                    cdp_ports()[i],
                    action_path(action, t),
                ),
        },
{
    let v = chars_of(item_id);
    if !starts_with_str(&v, "tab_") {
        return None;
    }
    let target = slice(&v, chars_of("tab_").len(), v.len());
    let mut path: Vec<char> = Vec::new();
    match action {
        CdpAction::Close => push_str(&mut path, "/json/close/"),
        CdpAction::Activate => push_str(&mut path, "/json/activate/"),
    }
    push_all(&mut path, &target);
    let path_s = string_of(&path);
    let ports = cdp_port_list();
    let mut urls: Vec<String> = Vec::new();
    let mut i: usize = 0;
    while i < ports.len()
        invariant
            i <= ports@.len(),
            ports@ == cdp_ports(),
            path_s@ == action_path(action, target@),
            target@ == cdp_target_of(item_id@)->0,
            urls@.len() == i,
            forall|j: int|
                0 <= j < i ==> (#[trigger] urls@[j])@ == cdp_endpoint(
                    cdp_ports()[j],
                    action_path(action, target@),
                ),
        decreases ports.len() - i,
    {
        urls.push(cdp_url(ports[i], path_s.as_str()));
        i += 1;
    }
    Some(urls)
}

} // verus!
