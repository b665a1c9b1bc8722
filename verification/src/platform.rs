//! The data model shared by every part of TabFlow: tracked windows and tabs,
//! their kind, duplicate groups, tasks and the overview statistics.

use crate::text::{chars_eq, chars_of};
use vstd::prelude::*;

verus! {

/// Kind of a tracked item.
#[derive(Debug, Clone, Copy, PartialEq, Eq, Structural)]
pub enum ItemType {
    BrowserTab,
    ExplorerWindow,
    AppWindow,
}

/// The stored name of an item kind.
pub open spec fn item_type_name(t: ItemType) -> Seq<char> {
    match t {
        ItemType::BrowserTab => "browser_tab"@,
        ItemType::ExplorerWindow => "explorer_window"@,
        ItemType::AppWindow => "app_window"@,
    }
}

/// The item kind a stored name denotes; unknown names denote an app window.
pub open spec fn item_type_of(s: Seq<char>) -> ItemType {
    if s == "browser_tab"@ {
        ItemType::BrowserTab
    } else if s == "explorer_window"@ {
        ItemType::ExplorerWindow
    } else {
        ItemType::AppWindow
    }
}

impl ItemType {
    /// The name under which the kind is stored.
    pub fn as_str(&self) -> (r: &'static str)
        ensures
            r@ == item_type_name(*self),
    {
        match self {
            ItemType::BrowserTab => "browser_tab",
            ItemType::ExplorerWindow => "explorer_window",
            ItemType::AppWindow => "app_window",
        }
    }

    /// The kind a stored name denotes (unknown names read as an app window).
    pub fn from_str(s: &str) -> (r: Self)
        ensures
            r == item_type_of(s@),
    {
        let v = chars_of(s);
        if chars_eq(&v, &chars_of("browser_tab")) {
            ItemType::BrowserTab
        } else if chars_eq(&v, &chars_of("explorer_window")) {
            ItemType::ExplorerWindow
        } else {
            ItemType::AppWindow
        }
    }
}

/// Reading back the stored name of a kind gives the kind.
pub proof fn lemma_item_type_roundtrip(t: ItemType)
    ensures
        item_type_of(item_type_name(t)) == t,
{
    reveal_strlit("browser_tab");
    reveal_strlit("explorer_window");
    reveal_strlit("app_window");
    assert("app_window"@[0] != "browser_tab"@[0]);
    assert("app_window"@[0] != "explorer_window"@[0]);
    assert("explorer_window"@[0] != "browser_tab"@[0]);
}

/// A tracked window or tab.
#[derive(Debug, Clone, PartialEq)]
pub struct TrackedItem {
    pub id: String,
    pub title: String,
    pub url: Option<String>,
    pub path: Option<String>,
    pub process_name: String,
    pub window_handle: Option<i64>,
    pub item_type: ItemType,
    pub browser_name: Option<String>,
    pub last_active_at: String,
    pub icon: Option<String>,
    pub note: Option<String>,
    pub task_ids: Vec<String>,
}

/// The view of a tracked item: every text field as a character sequence.
#[verifier::ext_equal]
pub struct ItemView {
    pub id: Seq<char>,
    pub title: Seq<char>,
    pub url: Option<Seq<char>>,
    pub path: Option<Seq<char>>,
    pub process_name: Seq<char>,
    pub window_handle: Option<i64>,
    pub item_type: ItemType,
    pub browser_name: Option<Seq<char>>,
    pub last_active_at: Seq<char>,
    pub icon: Option<Seq<char>>,
    pub note: Option<Seq<char>>,
    pub task_ids: Seq<Seq<char>>,
}

/// A hyphenated UUID text: 36 characters, `-` at positions 8, 13, 18 and
/// 23, lowercase hexadecimal digits everywhere else.
pub open spec fn is_uuid_text(s: Seq<char>) -> bool {
    &&& s.len() == 36
    &&& forall|i: int|
        0 <= i < 36 ==> if i == 8 || i == 13 || i == 18 || i == 23 {
            s[i] == '-'
        } else {
            crate::browser::is_lower_hex_digit(#[trigger] s[i])
        }
}

/// A fresh random id: `uuid::Uuid::new_v4().to_string()`. The id's
/// `Display` writes its hyphenated form (8-4-4-4-12 digits) in lowercase
/// hexadecimal; which digits is left unsaid, as the id is random.
#[verifier::external_body]
pub(crate) fn new_uuid_text() -> (r: String)
    ensures
        is_uuid_text(r@),
{
    uuid::Uuid::new_v4().to_string()
}

/// The view of an optional string.
pub open spec fn opt_view(o: Option<String>) -> Option<Seq<char>> {
    match o {
        Some(s) => Some(s@),
        None => None,
    }
}

/// The views of a list of strings.
pub open spec fn strings_view(v: Seq<String>) -> Seq<Seq<char>> {
    v.map_values(|s: String| s@)
}

impl View for TrackedItem {
    type V = ItemView;

    open spec fn view(&self) -> ItemView {
        ItemView {
            id: self.id@,
            title: self.title@,
            url: opt_view(self.url),
            path: opt_view(self.path),
            process_name: self.process_name@,
            window_handle: self.window_handle,
            item_type: self.item_type,
            browser_name: opt_view(self.browser_name),
            last_active_at: self.last_active_at@,
            icon: opt_view(self.icon),
            note: opt_view(self.note),
            task_ids: strings_view(self.task_ids@),
        }
    }
}

/// The views of a sequence of items.
pub open spec fn items_view(s: Seq<TrackedItem>) -> Seq<ItemView> {
    s.map_values(|t: TrackedItem| t@)
}

/// A copy of an optional string.
pub fn copy_opt(o: &Option<String>) -> (r: Option<String>)
    ensures
        r == *o,
{
    match o {
        Some(s) => Some(s.clone()),
        None => None,
    }
}

/// A copy of a list of strings.
pub fn copy_strings(v: &Vec<String>) -> (r: Vec<String>)
    ensures
        r@ == v@,
{
    let mut r: Vec<String> = Vec::new();
    let mut i: usize = 0;
    while i < v.len()
        invariant
            i <= v.len(),
            r@ == v@.subrange(0, i as int),
        decreases v.len() - i,
    {
        r.push(v[i].clone());
        i += 1;
        assert(r@ =~= v@.subrange(0, i as int));
    }
    assert(v@.subrange(0, v.len() as int) =~= v@);
    r
}

impl TrackedItem {
    /// A field-for-field copy.
    pub fn copy(&self) -> (r: Self)
        ensures
            r@ == self@,
    {
        let task_ids = copy_strings(&self.task_ids);
        assert(strings_view(task_ids@) =~= strings_view(self.task_ids@));
        TrackedItem {
            id: self.id.clone(),
            title: self.title.clone(),
            url: copy_opt(&self.url),
            path: copy_opt(&self.path),
            process_name: self.process_name.clone(),
            window_handle: self.window_handle,
            item_type: self.item_type,
            browser_name: copy_opt(&self.browser_name),
            last_active_at: self.last_active_at.clone(),
            icon: copy_opt(&self.icon),
            note: copy_opt(&self.note),
            task_ids,
        }
    }
}

/// A group of items that show the same resource.
#[derive(Debug, Clone)]
pub struct DuplicateGroup {
    pub id: String,
    pub match_type: String,
    pub match_pattern: String,
    pub items: Vec<TrackedItem>,
    pub count: usize,
}

/// A task (category) that resources can be assigned to.
#[derive(Debug, Clone)]
pub struct Task {
    pub id: String,
    pub name: String,
    pub color: String,
    pub sort_order: i32,
    pub item_count: Option<i32>,
}

/// Overview numbers.
#[derive(Debug, Clone, Copy, PartialEq, Eq, Structural)]
pub struct Stats {
    pub total_items: i64,
    pub duplicate_count: i64,
    pub browser_tabs: i64,
    pub explorer_windows: i64,
    pub app_windows: i64,
    pub active_tasks: i64,
}

/// A resource the user removed from tracking.
#[derive(Debug, Clone)]
pub struct IgnoredResource {
    pub resource_key: String,
    pub title: String,
    pub created_at: String,
}

/// Window enumeration on platforms without a native implementation: no
/// windows are reported.
pub fn enumerate_windows() -> (r: Vec<TrackedItem>)
    ensures
        r@.len() == 0,
{
    Vec::new()
}

} // verus!
