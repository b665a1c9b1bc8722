//! Browser tabs reported by the companion extension.
//!
//! The extension connects over a local WebSocket, says hello with a pairing
//! token and then pushes full tab snapshots. This module holds the decisions
//! of that protocol (token check, snapshot bookkeeping, which connection owns
//! a browser), the tab list derived from the snapshots, and the item ids that
//! route close/focus commands back to the right browser.

use crate::order::{sort_items, sorted_items, stable_sorted_items};
use crate::platform::{items_view, opt_view, ItemType, ItemView, TrackedItem};
use crate::text::{
    chars_eq, chars_of, int_decimal, is_prefix, last_index, lemma_int_decimal_chars,
    lemma_parse_int_decimal, parse_i64, parse_i64_spec, push_i64, push_str,
    rfind_char, slice, starts_with_str, string_of,
};
use vstd::prelude::*;

verus! {

broadcast use vstd::seq_lib::group_to_multiset_ensures;

/// Local port the extension server listens on.
pub const EXTENSION_PORT: u16 = 19876;

/// One tab as reported by the extension.
#[derive(Clone, Debug, PartialEq)]
pub struct ExtTab {
    pub tab_id: i64,
    pub window_id: i64,
    pub url: String,
    pub title: String,
    pub active: bool,
}

impl ExtTab {
    /// A field-for-field copy.
    pub fn copy(&self) -> (r: Self)
        ensures
            r == *self,
    {
        ExtTab {
            tab_id: self.tab_id,
            window_id: self.window_id,
            url: self.url.clone(),
            title: self.title.clone(),
            active: self.active,
        }
    }
}

// ─── Item ids ───────────────────────────────────────────────

/// The item id of an extension tab: `ext_{browser}_{tabId}`.
pub open spec fn ext_id_of(browser: Seq<char>, tab_id: i64) -> Seq<char> {
    "ext_"@ + browser + seq!['_'] + int_decimal(tab_id as int)
}

/// What an item id names: the browser and tab of an `ext_{browser}_{tabId}`
/// id (split at the last `_`, non-empty browser, tab id an `i64`).
pub open spec fn ext_id_parts(id: Seq<char>) -> Option<(Seq<char>, i64)> {
    if !is_prefix("ext_"@, id) {
        None
    } else {
        let rest = id.subrange("ext_"@.len() as int, id.len() as int);
        match last_index(rest, '_') {
            None => None,
            Some(j) => {
                let browser = rest.subrange(0, j);
                match parse_i64_spec(rest.subrange(j + 1, rest.len() as int)) {
                    None => None,
                    Some(t) => if browser.len() == 0 {
                        None
                    } else {
                        Some((browser, t))
                    },
                }
            },
        }
    }
}

/// Build the item id of an extension tab.
pub fn ext_item_id(browser: &str, tab_id: i64) -> (r: String)
    ensures
        r@ == ext_id_of(browser@, tab_id),
{
    let mut out: Vec<char> = Vec::new();
    push_str(&mut out, "ext_");
    push_str(&mut out, browser);
    out.push('_');
    push_i64(&mut out, tab_id);
    proof {
        assert(out@ =~= ext_id_of(browser@, tab_id));
    }
    string_of(&out)
}

/// Split an extension item id into browser and tab id.
pub fn parse_ext_id(id: &str) -> (r: Option<(String, i64)>)
    ensures
        match r {
            Some((b, t)) => ext_id_parts(id@) == Some((b@, t)),
            None => ext_id_parts(id@) is None,
        },
{
    let v = chars_of(id);
    if !starts_with_str(&v, "ext_") {
        return None;
    }
    let pre = chars_of("ext_");
    let rest = slice(&v, pre.len(), v.len());
    match rfind_char(&rest, '_') {
        None => None,
        Some(j) => {
            let tab = slice(&rest, j + 1, rest.len());
            match parse_i64(&tab) {
                None => None,
                Some(t) => {
                    if j == 0 {
                        None
                    } else {
                        let browser = slice(&rest, 0, j);
                        Some((string_of(&browser), t))
                    }
                },
            }
        },
    }
}

/// Reading an extension item id back gives the browser and tab it was built
/// from, for every non-empty browser name and every tab id.
pub proof fn lemma_ext_id_roundtrip(browser: Seq<char>, tab_id: i64)
    requires
        browser.len() > 0,
    ensures
        ext_id_parts(ext_id_of(browser, tab_id)) == Some((browser, tab_id)),
{
    reveal_strlit("ext_");
    let id = ext_id_of(browser, tab_id);
    let d = int_decimal(tab_id as int);
    let rest = id.subrange(4, id.len() as int);
    assert(rest =~= browser + seq!['_'] + d);
    assert(id.subrange(0, 4) =~= "ext_"@);
    lemma_int_decimal_chars(tab_id as int, '_');
    let j = browser.len() as int;
    assert(rest[j] == '_');
    assert forall|k: int| j < k < rest.len() implies rest[k] != '_' by {
        assert(rest[k] == d[k - j - 1]);
        assert(!d.contains('_'));
    }
    assert(crate::text::is_last_index(rest, '_', j));
    let c = choose|i: int| crate::text::is_last_index(rest, '_', i);
    assert(c == j) by {
        if c < j {
        } else if c > j {
        }
    }
    assert(rest.subrange(0, j) =~= browser);
    assert(rest.subrange(j + 1, rest.len() as int) =~= d);
    lemma_parse_int_decimal(tab_id);
}

/// Process image stem of a browser id.
pub open spec fn browser_exe_name(browser: Seq<char>) -> Seq<char> {
    if browser == "edge"@ {
        "msedge"@
    } else if browser == "firefox"@ {
        "firefox"@
    } else if browser == "opera"@ {
        "opera"@
    } else if browser == "brave"@ {
        "brave"@
    } else if browser == "vivaldi"@ {
        "vivaldi"@
    } else {
        "chrome"@
    }
}

/// Process image stem of a browser id (`edge` runs as `msedge`, unknown
/// browsers count as Chrome).
pub fn browser_exe(browser: &str) -> (r: &'static str)
    ensures
        r@ == browser_exe_name(browser@),
{
    let b = chars_of(browser);
    if chars_eq(&b, &chars_of("edge")) {
        "msedge"
    } else if chars_eq(&b, &chars_of("firefox")) {
        "firefox"
    } else if chars_eq(&b, &chars_of("opera")) {
        "opera"
    } else if chars_eq(&b, &chars_of("brave")) {
        "brave"
    } else if chars_eq(&b, &chars_of("vivaldi")) {
        "vivaldi"
    } else {
        "chrome"
    }
}

/// Browser-internal pages (empty, `about:`, browser and extension pages).
pub open spec fn internal_url(url: Seq<char>) -> bool {
    ||| url.len() == 0
    ||| url == "about:blank"@
    ||| is_prefix("chrome://"@, url)
    ||| is_prefix("edge://"@, url)
    ||| is_prefix("about:"@, url)
    ||| is_prefix("chrome-extension://"@, url)
    ||| is_prefix("moz-extension://"@, url)
}

/// Is the URL a browser-internal page (empty, `about:`, `chrome://`, …)?
pub fn is_internal_url(url: &str) -> (r: bool)
    ensures
        r == internal_url(url@),
{
    let u = chars_of(url);
    u.len() == 0 || chars_eq(&u, &chars_of("about:blank")) || starts_with_str(&u, "chrome://")
        || starts_with_str(&u, "edge://") || starts_with_str(&u, "about:") || starts_with_str(
        &u,
        "chrome-extension://",
    ) || starts_with_str(&u, "moz-extension://")
}

/// Where a close or focus command for a browser tab goes.
#[derive(Debug, Clone, Copy, PartialEq, Eq, Structural)]
pub enum TabChannel {
    Extension,
    DevTools,
}

/// Route a tab by its item id: `ext_*` ids belong to the extension channel,
/// all others to the DevTools protocol.
pub fn tab_channel(item_id: &str) -> (r: TabChannel)
    ensures
        r == (if is_prefix("ext_"@, item_id@) {
            TabChannel::Extension
        } else {
            TabChannel::DevTools
        }),
{
    if starts_with_str(&chars_of(item_id), "ext_") {
        TabChannel::Extension
    } else {
        TabChannel::DevTools
    }
}

// ─── Items from tabs ────────────────────────────────────────

/// The tracked item for one extension tab.
pub open spec fn ext_tab_item(browser: Seq<char>, tab: ExtTab, now: Seq<char>) -> ItemView {
    ItemView {
        id: ext_id_of(browser, tab.tab_id),
        title: if tab.title@.len() == 0 {
            tab.url@
        } else {
            tab.title@
        },
        url: Some(tab.url@),
        path: None,
        process_name: browser_exe_name(browser) + ".exe"@,
        window_handle: None,
        item_type: ItemType::BrowserTab,
        browser_name: Some(browser),
        last_active_at: now,
        icon: None,
        note: None,
        task_ids: Seq::<Seq<char>>::empty(),
    }
}

/// Items for the tabs of one browser that have a URL, in tab order
/// (internal pages such as a new tab or the settings are real tabs and
/// count; only URL-less tabs are left out).
pub open spec fn ext_tab_items(browser: Seq<char>, tabs: Seq<ExtTab>, now: Seq<char>) -> Seq<
    ItemView,
>
    decreases tabs.len(),
{
    if tabs.len() == 0 {
        Seq::<ItemView>::empty()
    } else {
        let pre = ext_tab_items(browser, tabs.drop_last(), now);
        if tabs.last().url@.len() == 0 {
            pre
        } else {
            pre.push(ext_tab_item(browser, tabs.last(), now))
        }
    }
}

fn tab_item(browser: &str, tab: &ExtTab, now: &str) -> (r: TrackedItem)
    ensures
        r@ == ext_tab_item(browser@, *tab, now@),
{
    let mut pn: Vec<char> = Vec::new();
    push_str(&mut pn, browser_exe(browser));
    push_str(&mut pn, ".exe");
    let t = TrackedItem {
        id: ext_item_id(browser, tab.tab_id),
        title: if tab.title.as_str().is_empty() {
            tab.url.clone()
        } else {
            tab.title.clone()
        },
        url: Some(tab.url.clone()),
        path: None,
        process_name: string_of(&pn),
        window_handle: None,
        item_type: ItemType::BrowserTab,
        browser_name: Some(string_of(&chars_of(browser))),
        last_active_at: string_of(&chars_of(now)),
        icon: None,
        note: None,
        task_ids: Vec::new(),
    };
    assert(t@.task_ids =~= Seq::<Seq<char>>::empty());
    t
}

// ─── Connections ────────────────────────────────────────────

/// One live extension connection.
#[derive(Debug)]
pub struct Connection {
    pub browser: String,
    pub conn_id: u64,
    pub tabs: Vec<ExtTab>,
}

/// Status row for the pairing UI.
#[derive(Debug, Clone)]
pub struct ConnectedBrowser {
    pub browser: String,
    pub tab_count: usize,
}

/// Status for the pairing UI.
#[derive(Debug, Clone)]
pub struct ExtensionStatus {
    pub port: u16,
    pub token: String,
    pub connected: Vec<ConnectedBrowser>,
}

/// The registry of extension connections, keyed by browser id ("chrome",
/// "edge", …). A newer connection for a browser replaces the older one.
#[derive(Debug)]
pub struct ExtensionHub {
    token: String,
    conns: Vec<Connection>,
}

/// Index of the connection for `browser`.
pub open spec fn conn_index(conns: Seq<Connection>, browser: Seq<char>) -> Option<int> {
    if exists|i: int| 0 <= i < conns.len() && conns[i].browser@ == browser {
        Some(choose|i: int| 0 <= i < conns.len() && conns[i].browser@ == browser)
    } else {
        None
    }
}

/// Items for every connection's tabs, connection by connection.
pub open spec fn hub_items(conns: Seq<Connection>, now: Seq<char>) -> Seq<ItemView>
    decreases conns.len(),
{
    if conns.len() == 0 {
        Seq::<ItemView>::empty()
    } else {
        hub_items(conns.drop_last(), now) + ext_tab_items(
            conns.last().browser@,
            conns.last().tabs@,
            now,
        )
    }
}

/// A lowercase hexadecimal digit (`0-9`, `a-f`).
pub open spec fn is_lower_hex_digit(c: char) -> bool {
    ('0' <= c && c <= '9') || ('a' <= c && c <= 'f')
}

/// The shape of a pairing token: 32 lowercase hexadecimal digits.
pub open spec fn is_pairing_token(s: Seq<char>) -> bool {
    s.len() == 32 && forall|i: int| 0 <= i < s.len() ==> is_lower_hex_digit(#[trigger] s[i])
}

/// A random pairing token: `Uuid::new_v4().simple().to_string()`. The
/// simple format writes the 16 bytes of the id as 32 lowercase hexadecimal
/// digits (its `Display` is its `LowerHex`); which digits is left unsaid, as
/// the id is random.
#[verifier::external_body]
fn new_pairing_token() -> (r: String)
    ensures
        is_pairing_token(r@),
{
    uuid::Uuid::new_v4().simple().to_string()
}

/// The current time as an RFC 3339 text (`chrono::Utc::now().to_rfc3339()`).
/// Nothing is stated of the value: it is the clock's.
#[verifier::external_body]
pub(crate) fn now_rfc3339() -> (r: String) {
    chrono::Utc::now().to_rfc3339()
}

/// At most one connection per browser.
pub open spec fn distinct_browsers(conns: Seq<Connection>) -> bool {
    forall|i: int, j: int|
        0 <= i < j < conns.len() ==> #[trigger] conns[i].browser@ != #[trigger] conns[j].browser@
}

/// `new` is `old` after registering connection `conn_id` for `browser`: it
/// replaces the browser's connection (in place) or is added, with no tabs;
/// every other connection stays.
pub open spec fn registered(
    old: Seq<Connection>,
    new: Seq<Connection>,
    browser: Seq<char>,
    conn_id: u64,
) -> bool {
    &&& distinct_browsers(new)
    &&& match conn_index(old, browser) {
        Some(i) => new.len() == old.len() && (forall|j: int|
            0 <= j < old.len() && j != i ==> #[trigger] new[j] == old[j]),
        None => new.len() == old.len() + 1 && (forall|j: int|
            0 <= j < old.len() ==> #[trigger] new[j] == old[j]),
    }
    &&& conn_index(new, browser) is Some
    &&& new[conn_index(new, browser)->0].conn_id == conn_id
    &&& new[conn_index(new, browser)->0].tabs@.len() == 0
}

/// `new` is `old` after connection `conn_id` of `browser` went away: it is
/// removed (`removed`) exactly when it is still the browser's registered
/// connection; otherwise nothing changes.
pub open spec fn deregistered(
    old: Seq<Connection>,
    new: Seq<Connection>,
    browser: Seq<char>,
    conn_id: u64,
    removed: bool,
) -> bool {
    &&& distinct_browsers(new)
    &&& removed == (conn_index(old, browser) matches Some(i) && old[i].conn_id == conn_id)
    &&& removed ==> new == old.remove(conn_index(old, browser)->0)
    &&& !removed ==> new == old
    &&& removed ==> conn_index(new, browser) is None
}

/// A connection that went away after a newer one registered for the same
/// browser leaves the newer one in place.
pub proof fn lemma_stale_disconnect_keeps_newer(
    s0: Seq<Connection>,
    s1: Seq<Connection>,
    s2: Seq<Connection>,
    browser: Seq<char>,
    stale: u64,
    newer: u64,
    removed: bool,
)
    requires
        registered(s0, s1, browser, newer),
        deregistered(s1, s2, browser, stale, removed),
        stale != newer,
    ensures
        !removed,
        conn_index(s2, browser) is Some,
        s2[conn_index(s2, browser)->0].conn_id == newer,
{
}

/// A connection that registered and then went away leaves its browser
/// disconnected.
pub proof fn lemma_disconnect_after_register(
    s0: Seq<Connection>,
    s1: Seq<Connection>,
    s2: Seq<Connection>,
    browser: Seq<char>,
    conn_id: u64,
    removed: bool,
)
    requires
        registered(s0, s1, browser, conn_id),
        deregistered(s1, s2, browser, conn_id, removed),
    ensures
        removed,
        conn_index(s2, browser) is None,
{
}

impl ExtensionHub {
    /// The live connections, one per browser, in registration order.
    pub closed spec fn conns_view(&self) -> Seq<Connection> {
        self.conns@
    }

    /// The pairing token an extension must present.
    pub closed spec fn token_view(&self) -> Seq<char> {
        self.token@
    }

    /// At most one connection per browser.
    #[verifier::type_invariant]
    spec fn one_per_browser(&self) -> bool {
        distinct_browsers(self.conns@)
    }

    /// The pairing token an extension must present.
    pub fn token(&self) -> (r: &str)
        ensures
            r@ == self.token_view(),
    {
        self.token.as_str()
    }

    /// A hub with a fresh random pairing token (32 lowercase hexadecimal
    /// digits) and no connection.
    pub fn with_new_token() -> (r: Self)
        ensures
            r.conns_view().len() == 0,
            is_pairing_token(r.token_view()),
    {
        Self::new(new_pairing_token())
    }

    /// A hub with the given pairing token and no connection.
    pub fn new(token: String) -> (r: Self)
        ensures
            r.token_view() == token@,
            r.conns_view().len() == 0,
    {
        ExtensionHub { token, conns: Vec::new() }
    }

    fn find(&self, browser: &str) -> (r: Option<usize>)
        ensures
            match r {
                Some(i) => i < self.conns_view().len() && self.conns_view()[i as int].browser@ == browser@
                    && conn_index(self.conns_view(), browser@) == Some(i as int),
                None => conn_index(self.conns_view(), browser@) is None,
            },
    {
        proof {
            use_type_invariant(self);
        }
        let b = chars_of(browser);
        let mut i: usize = 0;
        while i < self.conns.len()
            invariant
                i <= self.conns@.len(),
                distinct_browsers(self.conns@),
                b@ == browser@,
                forall|j: int| 0 <= j < i ==> self.conns@[j].browser@ != browser@,
            decreases self.conns.len() - i,
        {
            if chars_eq(&chars_of(self.conns[i].browser.as_str()), &b) {
                proof {
                    let k = choose|k: int|
                        0 <= k < self.conns@.len() && self.conns@[k].browser@ == browser@;
                    assert(k == i) by {
                        if k != i {
                            if k < i {
                            } else {
                                assert(self.conns@[i as int].browser@ != self.conns@[k].browser@);
                            }
                        }
                    }
                }
                return Some(i);
            }
            i += 1;
        }
        None
    }

    /// Register a connection for `browser` (after a valid hello). A
    /// connection already registered for the browser is replaced; the new one
    /// starts with no tabs.
    pub fn register(&mut self, browser: String, conn_id: u64)
        ensures
            final(self).token_view() == old(self).token_view(),
            registered(old(self).conns_view(), final(self).conns_view(), browser@, conn_id),
    {
        proof {
            use_type_invariant(&*self);
        }
        let ghost old_conns = self.conns@;
        let found = self.find(browser.as_str());
        let mut conns: Vec<Connection> = Vec::new();
        std::mem::swap(&mut conns, &mut self.conns);
        match found {
            Some(i) => {
                let ghost bv = browser@;
                conns.set(i, Connection { browser, conn_id, tabs: Vec::new() });
                proof {
                    assert forall|x: int, y: int|
                        0 <= x < y < conns@.len() implies #[trigger] conns@[x].browser@
                        != #[trigger] conns@[y].browser@ by {
                        if x == i {
                            assert(old_conns[i as int].browser@ == bv);
                            assert(old_conns[i as int].browser@ != old_conns[y].browser@);
                        } else if y == i {
                            assert(old_conns[i as int].browser@ == bv);
                            assert(old_conns[x].browser@ != old_conns[i as int].browser@);
                        }
                    }
                    assert(conns@[i as int].browser@ == bv);
                    let k = choose|k: int|
                        0 <= k < conns@.len() && conns@[k].browser@ == bv;
                    assert(k == i) by {
                        if k != i {
                            if k < i {
                                assert(conns@[k].browser@ != conns@[i as int].browser@);
                            } else {
                                assert(conns@[i as int].browser@ != conns@[k].browser@);
                            }
                        }
                    }
                }
            },
            None => {
                let ghost bv = browser@;
                conns.push(Connection { browser, conn_id, tabs: Vec::new() });
                proof {
                    let n = old_conns.len() as int;
                    assert(conns@[n].browser@ == bv);
                    assert forall|x: int, y: int|
                        0 <= x < y < conns@.len() implies #[trigger] conns@[x].browser@
                        != #[trigger] conns@[y].browser@ by {
                        if y == n {
                            assert(conns@[x] == old_conns[x]);
                        }
                    }
                    let k = choose|k: int|
                        0 <= k < conns@.len() && conns@[k].browser@ == bv;
                    assert(k == n) by {
                        if k < n {
                            assert(conns@[k] == old_conns[k]);
                        }
                    }
                }
            },
        }
        self.conns = conns;
    }

    /// Store a tab snapshot for `browser` if it is connected.
    pub fn set_tabs(&mut self, browser: &str, tabs: Vec<ExtTab>)
        ensures
            final(self).token_view() == old(self).token_view(),
            final(self).conns_view().len() == old(self).conns_view().len(),
            match conn_index(old(self).conns_view(), browser@) {
                Some(i) => (forall|j: int|
                    0 <= j < old(self).conns_view().len() && j != i ==> #[trigger] final(self).conns_view()[j]
                        == old(self).conns_view()[j]) && final(self).conns_view()[i].browser
                    == old(self).conns_view()[i].browser && final(self).conns_view()[i].conn_id
                    == old(self).conns_view()[i].conn_id && final(self).conns_view()[i].tabs@ == tabs@,
                None => final(self).conns_view() == old(self).conns_view(),
            },
    {
        proof {
            use_type_invariant(&*self);
        }
        match self.find(browser) {
            Some(i) => {
                let ghost old_conns = self.conns@;
                let mut conns: Vec<Connection> = Vec::new();
                std::mem::swap(&mut conns, &mut self.conns);
                let mut c = conns.remove(i);
                c.tabs = tabs;
                conns.insert(i, c);
                proof {
                    assert forall|j: int| 0 <= j < old_conns.len() && j != i implies #[trigger] conns@[j]
                        == old_conns[j] by {
                        if j < i {
                        } else {
                        }
                    }
                    assert forall|x: int, y: int|
                        0 <= x < y < conns@.len() implies #[trigger] conns@[x].browser@
                        != #[trigger] conns@[y].browser@ by {
                        assert(old_conns[x].browser@ != old_conns[y].browser@);
                        if x == i {
                            assert(conns@[y] == old_conns[y]);
                        } else if y == i {
                            assert(conns@[x] == old_conns[x]);
                        } else {
                            assert(conns@[x] == old_conns[x]);
                            assert(conns@[y] == old_conns[y]);
                        }
                    }
                }
                self.conns = conns;
            },
            None => {},
        }
    }

    /// Drop the connection of `browser`, but only when `conn_id` is still the
    /// registered connection (a newer connection for the same browser stays).
    /// Returns whether a connection was removed.
    pub fn deregister(&mut self, browser: &str, conn_id: u64) -> (removed: bool)
        ensures
            final(self).token_view() == old(self).token_view(),
            deregistered(old(self).conns_view(), final(self).conns_view(), browser@, conn_id, removed),
    {
        proof {
            use_type_invariant(&*self);
        }
        match self.find(browser) {
            Some(i) => {
                if self.conns[i].conn_id == conn_id {
                    let ghost old_conns = self.conns@;
                    let mut conns: Vec<Connection> = Vec::new();
                    std::mem::swap(&mut conns, &mut self.conns);
                    let _gone = conns.remove(i);
                    proof {
                        assert(conns@ =~= old_conns.remove(i as int));
                        assert forall|x: int, y: int|
                            0 <= x < y < conns@.len() implies #[trigger] conns@[x].browser@
                            != #[trigger] conns@[y].browser@ by {
                            let ox = if x < i {
                                x
                            } else {
                                x + 1
                            };
                            let oy = if y < i {
                                y
                            } else {
                                y + 1
                            };
                            assert(conns@[x] == old_conns[ox]);
                            assert(conns@[y] == old_conns[oy]);
                            assert(old_conns[ox].browser@ != old_conns[oy].browser@);
                        }
                        if exists|k: int|
                            0 <= k < conns@.len() && conns@[k].browser@ == browser@ {
                            let k = choose|k: int|
                                0 <= k < conns@.len() && conns@[k].browser@ == browser@;
                            let ok = if k < i {
                                k
                            } else {
                                k + 1
                            };
                            assert(conns@[k] == old_conns[ok]);
                            if ok < i {
                                assert(old_conns[ok].browser@ != old_conns[i as int].browser@);
                            } else {
                                assert(old_conns[i as int].browser@ != old_conns[ok].browser@);
                            }
                        }
                    }
                    self.conns = conns;
                    true
                } else {
                    false
                }
            },
            None => false,
        }
    }

    /// Browsers with a live extension connection (even if they currently
    /// report no tab), each once.
    pub fn connected_browsers(&self) -> (r: Vec<String>)
        ensures
            r@.len() == self.conns_view().len(),
            forall|i: int| 0 <= i < r@.len() ==> #[trigger] r@[i] == self.conns_view()[i].browser,
    {
        let mut r: Vec<String> = Vec::new();
        let mut i: usize = 0;
        while i < self.conns.len()
            invariant
                i <= self.conns@.len(),
                r@.len() == i,
                forall|j: int| 0 <= j < i ==> #[trigger] r@[j] == self.conns@[j].browser,
            decreases self.conns.len() - i,
        {
            r.push(self.conns[i].browser.clone());
            i += 1;
        }
        r
    }

    /// The live connection id for `browser`, where commands for it are sent.
    pub fn connection_for(&self, browser: &str) -> (r: Option<u64>)
        ensures
            match conn_index(self.conns_view(), browser@) {
                Some(i) => r == Some(self.conns_view()[i].conn_id),
                None => r is None,
            },
    {
        match self.find(browser) {
            Some(i) => Some(self.conns[i].conn_id),
            None => None,
        }
    }

    /// All tabs reported by connected extensions, as tracked items stamped
    /// with `now`: every tab with a URL (internal pages included), ordered by item id.
    pub fn extension_tabs_at(&self, now: &str) -> (r: Vec<TrackedItem>)
        ensures
            items_view(r@) == stable_sorted_items(hub_items(self.conns_view(), now@)),
            items_view(r@).to_multiset() == hub_items(self.conns_view(), now@).to_multiset(),
            sorted_items(items_view(r@)),
            forall|i: int| 0 <= i < r@.len() ==> (#[trigger] r@[i])@.last_active_at == now@,
    {
        let mut items: Vec<TrackedItem> = Vec::new();
        let mut c: usize = 0;
        assert(self.conns@.subrange(0, 0) =~= Seq::<Connection>::empty());
        while c < self.conns.len()
            invariant
                c <= self.conns@.len(),
                items_view(items@) == hub_items(self.conns@.subrange(0, c as int), now@),
            decreases self.conns.len() - c,
        {
            let conn = &self.conns[c];
            let ghost base = items_view(items@);
            let mut t: usize = 0;
            assert(conn.tabs@.subrange(0, 0) =~= Seq::<ExtTab>::empty());
            assert(base =~= base + ext_tab_items(conn.browser@, conn.tabs@.subrange(0, 0), now@));
            while t < conn.tabs.len()
                invariant
                    t <= conn.tabs@.len(),
                    items_view(items@) == base + ext_tab_items(
                        conn.browser@,
                        conn.tabs@.subrange(0, t as int),
                        now@,
                    ),
                decreases conn.tabs.len() - t,
            {
                let ghost sub = conn.tabs@.subrange(0, t + 1);
                assert(sub.drop_last() =~= conn.tabs@.subrange(0, t as int));
                let tab = &conn.tabs[t];
                if !tab.url.as_str().is_empty() {
                    let ghost before = items_view(items@);
                    let it = tab_item(conn.browser.as_str(), tab, now);
                    items.push(it);
                    assert(items_view(items@) =~= before.push(
                        ext_tab_item(conn.browser@, *tab, now@),
                    ));
                }
                t += 1;
            }
            assert(conn.tabs@.subrange(0, conn.tabs@.len() as int) =~= conn.tabs@);
            let ghost csub = self.conns@.subrange(0, c + 1);
            assert(csub.drop_last() =~= self.conns@.subrange(0, c as int));
            c += 1;
        }
        assert(self.conns@.subrange(0, self.conns@.len() as int) =~= self.conns@);
        let ghost unsorted = items_view(items@);
        assert forall|i: int| 0 <= i < items@.len() implies (#[trigger] items@[i])@.last_active_at
            == now@ by {
            lemma_hub_items_now(self.conns@, now@, i);
            assert(unsorted[i] == items@[i]@);
        }
        let r = sort_items(&items);
        assert forall|i: int| 0 <= i < r@.len() implies (#[trigger] r@[i])@.last_active_at
            == now@ by {
            let v = items_view(r@)[i];
            assert(items_view(r@).to_multiset().contains(v));
            assert(unsorted.to_multiset().contains(v));
            let k = choose|k: int| 0 <= k < unsorted.len() && unsorted[k] == v;
            assert(items@[k]@.last_active_at == now@);
        }
        r
    }

    /// All tabs reported by connected extensions, as tracked items stamped
    /// with the current time.
    pub fn get_extension_tabs(&self) -> (r: Vec<TrackedItem>)
        ensures
            exists|now: Seq<char>|
                items_view(r@) == stable_sorted_items(hub_items(self.conns_view(), now))
                    && items_view(r@).to_multiset() == hub_items(self.conns_view(), now).to_multiset(),
            sorted_items(items_view(r@)),
    {
        let now = now_rfc3339();
        self.extension_tabs_at(now.as_str())
    }

    /// Status for the pairing UI: port, token and each connected browser
    /// with its tab count.
    pub fn status(&self) -> (r: ExtensionStatus)
        ensures
            r.port == EXTENSION_PORT,
            r.token@ == self.token_view(),
            r.connected@.len() == self.conns_view().len(),
            forall|i: int|
                0 <= i < r.connected@.len() ==> (#[trigger] r.connected@[i]).browser
                    == self.conns_view()[i].browser && r.connected@[i].tab_count
                    == self.conns_view()[i].tabs@.len(),
    {
        let mut connected: Vec<ConnectedBrowser> = Vec::new();
        let mut i: usize = 0;
        while i < self.conns.len()
            invariant
                i <= self.conns@.len(),
                connected@.len() == i,
                forall|j: int|
                    0 <= j < i ==> (#[trigger] connected@[j]).browser == self.conns@[j].browser
                        && connected@[j].tab_count == self.conns@[j].tabs@.len(),
            decreases self.conns.len() - i,
        {
            connected.push(
                ConnectedBrowser {
                    browser: self.conns[i].browser.clone(),
                    tab_count: self.conns[i].tabs.len(),
                },
            );
            i += 1;
        }
        ExtensionStatus { port: EXTENSION_PORT, token: self.token.clone(), connected }
    }
}

proof fn lemma_ext_tab_items_now(browser: Seq<char>, tabs: Seq<ExtTab>, now: Seq<char>, i: int)
    requires
        0 <= i < ext_tab_items(browser, tabs, now).len(),
    ensures
        ext_tab_items(browser, tabs, now)[i].last_active_at == now,
    decreases tabs.len(),
{
    if tabs.len() > 0 {
        let pre = ext_tab_items(browser, tabs.drop_last(), now);
        if i < pre.len() {
            lemma_ext_tab_items_now(browser, tabs.drop_last(), now, i);
        }
    }
}

proof fn lemma_hub_items_now(conns: Seq<Connection>, now: Seq<char>, i: int)
    requires
        0 <= i < hub_items(conns, now).len(),
    ensures
        hub_items(conns, now)[i].last_active_at == now,
    decreases conns.len(),
{
    if conns.len() > 0 {
        let pre = hub_items(conns.drop_last(), now);
        if i < pre.len() {
            lemma_hub_items_now(conns.drop_last(), now, i);
        } else {
            lemma_ext_tab_items_now(conns.last().browser@, conns.last().tabs@, now, i - pre.len());
        }
    }
}

// ─── Protocol decisions ─────────────────────────────────────

/// What to do with a hello message.
#[derive(Debug, Clone, PartialEq)]
pub enum HelloOutcome {
    /// Answer with an error message and drop the connection.
    Rejected { message: String },
    /// Register the connection for this browser and acknowledge.
    Accepted { browser: String },
}

/// The view of an optional text.
pub open spec fn str_opt(o: Option<&str>) -> Option<Seq<char>> {
    match o {
        Some(t) => Some(t@),
        None => None,
    }
}

/// `r` is the decision on a first message whose string fields `type`,
/// `token` and `browser` are `msg_type`, `token` and `browser` (absent or
/// not a string: `None`), against the pairing token `expected`. A message
/// that is not a hello is answered "expected hello"; a wrong token "invalid
/// token" (an absent token counts as empty); otherwise the browser (default
/// "unknown") is accepted.
pub open spec fn hello_decided(
    r: HelloOutcome,
    expected: Seq<char>,
    msg_type: Option<Seq<char>>,
    token: Option<Seq<char>>,
    browser: Option<Seq<char>>,
) -> bool {
    match r {
        HelloOutcome::Rejected { message } => {
            if msg_type == Some("hello"@) {
                &&& message@ == "invalid token"@
                &&& token != Some(expected)
                &&& !(token is None && expected.len() == 0)
            } else {
                message@ == "expected hello"@
            }
        },
        HelloOutcome::Accepted { browser: b } => {
            &&& msg_type == Some("hello"@)
            &&& token == Some(expected) || (token is None && expected.len() == 0)
            &&& b@ == (match browser {
                Some(x) => x,
                None => "unknown"@,
            })
        },
    }
}

/// Decide on the first message of a connection, given its string fields
/// `msg_type`, `token` and `browser` (absent or not a string: `None`).
pub fn check_hello(
    expected_token: &str,
    msg_type: Option<&str>,
    token: Option<&str>,
    browser: Option<&str>,
) -> (r: HelloOutcome)
    ensures
        hello_decided(r, expected_token@, str_opt(msg_type), str_opt(token), str_opt(browser)),
{
    let is_hello = match msg_type {
        Some(t) => chars_eq(&chars_of(t), &chars_of("hello")),
        None => false,
    };
    if !is_hello {
        return HelloOutcome::Rejected { message: string_of(&chars_of("expected hello")) };
    }
    let tok = match token {
        Some(k) => chars_of(k),
        None => Vec::new(),
    };
    if !chars_eq(&tok, &chars_of(expected_token)) {
        proof {
            if token is None && expected_token@.len() == 0 {
                assert(tok@ =~= expected_token@);
            }
        }
        return HelloOutcome::Rejected { message: string_of(&chars_of("invalid token")) };
    }
    let b = match browser {
        Some(x) => string_of(&chars_of(x)),
        None => string_of(&chars_of("unknown")),
    };
    HelloOutcome::Accepted { browser: b }
}

/// What `serde_json` reads from a frame: `None` when the text is not JSON,
/// else the top-level string value at `key` (`None` when the key is absent,
/// its value is not a string, or the JSON is not an object).
pub uninterp spec fn json_str_field(text: Seq<char>, key: Seq<char>) -> Option<Option<Seq<char>>>;

/// A string field of a frame; absent too when the frame is not JSON.
pub open spec fn frame_field(text: Seq<char>, key: Seq<char>) -> Option<Seq<char>> {
    match json_str_field(text, key) {
        Some(f) => f,
        None => None,
    }
}

/// `serde_json::from_str::<Value>(text)`, then `Value::get(key)` and
/// `Value::as_str`: `None` when the text is not JSON, else the field as an
/// optional string. What it reads is named `json_str_field`; the JSON
/// grammar itself is left to `serde_json`.
#[verifier::external_body]
fn frame_str_field(text: &str, key: &str) -> (r: Option<Option<String>>)
    ensures
        match r {
            None => json_str_field(text@, key@) is None,
            Some(f) => json_str_field(text@, key@) == Some(opt_view(f)),
        },
{
    match serde_json::from_str::<serde_json::Value>(text) {
        Ok(v) => Some(v.get(key).and_then(serde_json::Value::as_str).map(String::from)),
        Err(_) => None,
    }
}

/// Borrow an optional string as an optional text.
fn as_str_opt(o: &Option<String>) -> (r: Option<&str>)
    ensures
        str_opt(r) == opt_view(*o),
{
    match o {
        Some(s) => Some(s.as_str()),
        None => None,
    }
}

/// Decide on the raw first frame of a connection: `None` (drop the
/// connection without an answer) when it is not JSON, else the hello
/// decision on its `type`, `token` and `browser` fields.
pub fn check_hello_frame(expected_token: &str, text: &str) -> (r: Option<HelloOutcome>)
    ensures
        match json_str_field(text@, "type"@) {
            None => r is None,
            Some(t) => r matches Some(o) && hello_decided(
                o,
                expected_token@,
                t,
                frame_field(text@, "token"@),
                frame_field(text@, "browser"@),
            ),
        },
{
    let t = match frame_str_field(text, "type") {
        Some(f) => f,
        None => return None,
    };
    let k = match frame_str_field(text, "token") {
        Some(f) => f,
        None => None,
    };
    let b = match frame_str_field(text, "browser") {
        Some(f) => f,
        None => None,
    };
    Some(check_hello(expected_token, as_str_opt(&t), as_str_opt(&k), as_str_opt(&b)))
}

/// What a later frame of a connection is.
#[derive(Debug, Clone, Copy, PartialEq, Eq)]
pub enum FrameKind {
    /// Not JSON: skipped.
    Invalid,
    /// A tab snapshot (`"type": "tabs"`).
    Tabs,
    /// Anything else (keepalive replies included): ignored.
    Other,
}

/// Classify a later frame by its `type` field.
pub fn frame_kind(text: &str) -> (r: FrameKind)
    ensures
        match json_str_field(text@, "type"@) {
            None => r == FrameKind::Invalid,
            Some(t) => if t == Some("tabs"@) {
                r == FrameKind::Tabs
            } else {
                r == FrameKind::Other
            },
        },
{
    match frame_str_field(text, "type") {
        None => FrameKind::Invalid,
        Some(Some(t)) => {
            if chars_eq(&chars_of(t.as_str()), &chars_of("tabs")) {
                FrameKind::Tabs
            } else {
                FrameKind::Other
            }
        },
        Some(None) => FrameKind::Other,
    }
}

/// Tabs ordered by tab id.
pub open spec fn sorted_by_tab_id(s: Seq<ExtTab>) -> bool {
    forall|i: int, j: int| 0 <= i < j < s.len() ==> (#[trigger] s[i]).tab_id <= (#[trigger] s[j]).tab_id
}

/// `s` with `x` inserted behind every tab whose id is at most its own, so
/// behind the tabs with the same id.
pub open spec fn insert_tab(s: Seq<ExtTab>, x: ExtTab) -> Seq<ExtTab>
    decreases s.len(),
{
    if s.len() == 0 {
        seq![x]
    } else if s.last().tab_id <= x.tab_id {
        s.push(x)
    } else {
        insert_tab(s.drop_last(), x).push(s.last())
    }
}

/// The stable sort of tabs by tab id: each tab in turn is inserted behind the
/// tabs whose id is at most its own, so tabs with equal ids keep their input
/// order.
pub open spec fn stable_sorted_tabs(s: Seq<ExtTab>) -> Seq<ExtTab>
    decreases s.len(),
{
    if s.len() == 0 {
        s
    } else {
        insert_tab(stable_sorted_tabs(s.drop_last()), s.last())
    }
}

/// In a list sorted by id, inserting behind the tabs with an id at most
/// `x`'s inserts at the first position with a larger id.
proof fn lemma_insert_tab_at(s: Seq<ExtTab>, x: ExtTab, p: int)
    requires
        sorted_by_tab_id(s),
        0 <= p <= s.len(),
        forall|q: int| 0 <= q < p ==> (#[trigger] s[q]).tab_id <= x.tab_id,
        p < s.len() ==> x.tab_id < s[p].tab_id,
    ensures
        insert_tab(s, x) == s.insert(p, x),
    decreases s.len(),
{
    if s.len() == 0 {
        assert(s.insert(p, x) =~= seq![x]);
    } else if p == s.len() {
        assert(s[s.len() - 1].tab_id <= x.tab_id);
        assert(s.insert(p, x) =~= s.push(x));
    } else {
        let n = s.len() - 1;
        if p < n {
            assert(s[p].tab_id <= s[n].tab_id);
        }
        let d = s.drop_last();
        assert(sorted_by_tab_id(d)) by {
            assert forall|a: int, b: int| 0 <= a < b < d.len() implies (#[trigger] d[a]).tab_id
                <= (#[trigger] d[b]).tab_id by {
                assert(d[a] == s[a] && d[b] == s[b]);
            }
        }
        assert forall|q: int| 0 <= q < p implies (#[trigger] d[q]).tab_id <= x.tab_id by {
            assert(d[q] == s[q]);
        }
        if p < d.len() {
            assert(d[p] == s[p]);
        }
        lemma_insert_tab_at(d, x, p);
        assert(d.insert(p, x).push(s.last()) =~= s.insert(p, x));
    }
}

/// Sort tabs by tab id, stably: tabs with equal ids keep their order.
pub fn sort_tabs(tabs: &Vec<ExtTab>) -> (r: Vec<ExtTab>)
    ensures
        r@ == stable_sorted_tabs(tabs@),
        sorted_by_tab_id(r@),
        r@.to_multiset() == tabs@.to_multiset(),
        r@.len() == tabs@.len(),
{
    let mut r: Vec<ExtTab> = Vec::new();
    let mut i: usize = 0;
    while i < tabs.len()
        invariant
            i <= tabs.len(),
            r@.len() == i,
            sorted_by_tab_id(r@),
            r@.to_multiset() == tabs@.subrange(0, i as int).to_multiset(),
            r@ == stable_sorted_tabs(tabs@.subrange(0, i as int)),
        decreases tabs.len() - i,
    {
        let x = tabs[i].copy();
        let mut p: usize = 0;
        while p < r.len() && r[p].tab_id <= x.tab_id
            invariant
                p <= r.len(),
                forall|q: int| 0 <= q < p ==> (#[trigger] r@[q]).tab_id <= x.tab_id,
            decreases r.len() - p,
        {
            p += 1;
        }
        let ghost old_r = r@;
        proof {
            lemma_insert_tab_at(old_r, x, p as int);
        }
        r.insert(p, x);
        assert(r@ =~= old_r.insert(p as int, x));
        assert(tabs@.subrange(0, i + 1).drop_last() =~= tabs@.subrange(0, i as int));
        assert(sorted_by_tab_id(r@)) by {
            assert forall|a: int, b: int| 0 <= a < b < r@.len() implies (#[trigger] r@[a]).tab_id
                <= (#[trigger] r@[b]).tab_id by {
                if b < p {
                    assert(r@[a] == old_r[a] && r@[b] == old_r[b]);
                } else if b == p {
                    assert(r@[a] == old_r[a]);
                } else if a == p {
                    assert(r@[b] == old_r[b - 1]);
                    if b - 1 > p {
                        assert(old_r[p as int].tab_id <= old_r[b - 1].tab_id);
                    }
                } else if a < p {
                    assert(r@[a] == old_r[a] && r@[b] == old_r[b - 1]);
                } else {
                    assert(r@[a] == old_r[a - 1] && r@[b] == old_r[b - 1]);
                }
            }
        }
        assert(tabs@.subrange(0, i + 1) =~= tabs@.subrange(0, i as int).push(x));
        i += 1;
    }
    assert(tabs@.subrange(0, tabs.len() as int) =~= tabs@);
    r
}

/// No two tabs share a tab id.
pub open spec fn distinct_tab_ids(s: Seq<ExtTab>) -> bool {
    forall|i: int, j: int| 0 <= i < j < s.len() ==> (#[trigger] s[i]).tab_id != (#[trigger] s[j]).tab_id
}

/// A reordering of tabs with distinct ids has distinct ids.
proof fn lemma_distinct_ids_reordered(t: Seq<ExtTab>, s: Seq<ExtTab>)
    requires
        distinct_tab_ids(t),
        s.to_multiset() == t.to_multiset(),
    ensures
        distinct_tab_ids(s),
{
    assert(t.no_duplicates()) by {
        assert forall|i: int, j: int| 0 <= i < t.len() && 0 <= j < t.len() && i != j implies t[i]
            != t[j] by {
            if i < j {
                assert(t[i].tab_id != t[j].tab_id);
            } else {
                assert(t[j].tab_id != t[i].tab_id);
            }
        }
    }
    t.lemma_multiset_has_no_duplicates();
    s.lemma_multiset_has_no_duplicates_conv();
    assert forall|i: int, j: int| 0 <= i < j < s.len() implies (#[trigger] s[i]).tab_id != (
    #[trigger] s[j]).tab_id by {
        assert(s[i] != s[j]);
        assert(s.contains(s[i]) && s.contains(s[j]));
        assert(s.to_multiset().count(s[i]) > 0 && s.to_multiset().count(s[j]) > 0);
        assert(t.contains(s[i]) && t.contains(s[j]));
        let p = choose|p: int| 0 <= p < t.len() && t[p] == s[i];
        let q = choose|q: int| 0 <= q < t.len() && t[q] == s[j];
        if p < q {
            assert(t[p].tab_id != t[q].tab_id);
        } else if q < p {
            assert(t[q].tab_id != t[p].tab_id);
        }
    }
}

/// Tabs sorted by distinct ids are determined by which tabs they are.
proof fn lemma_sorted_tabs_unique(a: Seq<ExtTab>, b: Seq<ExtTab>)
    requires
        sorted_by_tab_id(a),
        sorted_by_tab_id(b),
        distinct_tab_ids(a),
        distinct_tab_ids(b),
        a.to_multiset() == b.to_multiset(),
    ensures
        a == b,
    decreases a.len(),
{
    assert(a.len() == a.to_multiset().len() && b.len() == b.to_multiset().len());
    if a.len() == 0 {
        assert(a =~= b);
    } else {
        assert(a.to_multiset().count(a[0]) > 0);
        assert(b.contains(a[0]));
        let j = choose|j: int| 0 <= j < b.len() && b[j] == a[0];
        assert(b.to_multiset().count(b[0]) > 0);
        assert(a.contains(b[0]));
        let k = choose|k: int| 0 <= k < a.len() && a[k] == b[0];
        if j > 0 {
            assert(b[0].tab_id <= b[j].tab_id && b[0].tab_id != b[j].tab_id);
            if k > 0 {
                assert(a[0].tab_id <= a[k].tab_id);
            }
        }
        assert(a[0] == b[0]);
        let ta = a.drop_first();
        let tb = b.drop_first();
        assert(a.remove(0) =~= ta);
        assert(b.remove(0) =~= tb);
        assert(ta.to_multiset() == tb.to_multiset());
        assert(sorted_by_tab_id(ta) && distinct_tab_ids(ta)) by {
            assert forall|x: int, y: int| 0 <= x < y < ta.len() implies (#[trigger] ta[x]).tab_id
                <= (#[trigger] ta[y]).tab_id && ta[x].tab_id != ta[y].tab_id by {
                assert(ta[x] == a[x + 1] && ta[y] == a[y + 1]);
            }
        }
        assert(sorted_by_tab_id(tb) && distinct_tab_ids(tb)) by {
            assert forall|x: int, y: int| 0 <= x < y < tb.len() implies (#[trigger] tb[x]).tab_id
                <= (#[trigger] tb[y]).tab_id && tb[x].tab_id != tb[y].tab_id by {
                assert(tb[x] == b[x + 1] && tb[y] == b[y + 1]);
            }
        }
        lemma_sorted_tabs_unique(ta, tb);
        assert forall|i: int| 0 <= i < a.len() implies a[i] == b[i] by {
            if i > 0 {
                assert(a[i] == ta[i - 1] && b[i] == tb[i - 1]);
            }
        }
        assert(a =~= b);
    }
}

/// Reporting the same tabs again, in any order, is no change: when the
/// reported tab ids are distinct, two reports of the same tabs sort to the
/// same tabs and so to the same snapshot (`take_snapshot` then reports
/// `changed == false`).
pub proof fn lemma_same_tabs_same_snapshot(
    t1: Seq<ExtTab>,
    t2: Seq<ExtTab>,
    s1: Seq<ExtTab>,
    s2: Seq<ExtTab>,
)
    requires
        distinct_tab_ids(t1),
        t2.to_multiset() == t1.to_multiset(),
        sorted_by_tab_id(s1),
        s1.to_multiset() == t1.to_multiset(),
        sorted_by_tab_id(s2),
        s2.to_multiset() == t2.to_multiset(),
    ensures
        s1 == s2,
        snapshot_of(s1) == snapshot_of(s2),
{
    lemma_distinct_ids_reordered(t1, s1);
    lemma_distinct_ids_reordered(t1, s2);
    lemma_sorted_tabs_unique(s1, s2);
}

/// The (tab id, URL) pairs of a snapshot, compared to detect changes.
pub open spec fn snapshot_of(tabs: Seq<ExtTab>) -> Seq<(i64, Seq<char>)> {
    tabs.map_values(|t: ExtTab| (t.tab_id, t.url@))
}

/// The (tab id, URL) views of a stored snapshot.
pub open spec fn snapshot_view(s: Seq<(i64, String)>) -> Seq<(i64, Seq<char>)> {
    s.map_values(|p: (i64, String)| (p.0, p.1@))
}

/// Result of taking in a tab snapshot.
#[derive(Debug)]
pub struct SnapshotUpdate {
    /// The tabs ordered by tab id, to store for the browser.
    pub tabs: Vec<ExtTab>,
    /// (tab id, URL) of each tab, to compare with the next snapshot.
    pub snapshot: Vec<(i64, String)>,
    /// Whether the (tab id, URL) list differs from the previous one, so the
    /// window list must be refreshed.
    pub changed: bool,
}

/// Take in a tab snapshot: order the tabs by id and tell whether anything
/// visible (tab ids or URLs) changed since `prev`.
pub fn take_snapshot(prev: &Vec<(i64, String)>, tabs: Vec<ExtTab>) -> (r: SnapshotUpdate)
    ensures
        r.tabs@ == stable_sorted_tabs(tabs@),
        sorted_by_tab_id(r.tabs@),
        r.tabs@.to_multiset() == tabs@.to_multiset(),
        snapshot_view(r.snapshot@) == snapshot_of(r.tabs@),
        r.changed == (snapshot_of(r.tabs@) != snapshot_view(prev@)),
{
    let sorted = sort_tabs(&tabs);
    let mut snap: Vec<(i64, String)> = Vec::new();
    let mut i: usize = 0;
    while i < sorted.len()
        invariant
            i <= sorted@.len(),
            snapshot_view(snap@) == snapshot_of(sorted@.subrange(0, i as int)),
        decreases sorted.len() - i,
    {
        let ghost before = snap@;
        let u = sorted[i].url.clone();
        assert(u@ == sorted@[i as int].url@);
        snap.push((sorted[i].tab_id, u));
        assert(snap@ =~= before.push((sorted@[i as int].tab_id, u)));
        assert(snapshot_view(snap@) =~= snapshot_view(before).push((sorted@[i as int].tab_id, u@)));
        assert(sorted@.subrange(0, i + 1) =~= sorted@.subrange(0, i as int).push(sorted@[i as int]));
        assert(snapshot_view(snap@) =~= snapshot_of(sorted@.subrange(0, i + 1)));
        i += 1;
    }
    assert(sorted@.subrange(0, sorted@.len() as int) =~= sorted@);
    let mut same = snap.len() == prev.len();
    let mut j: usize = 0;
    while same && j < snap.len()
        invariant
            j <= snap@.len(),
            same ==> snap@.len() == prev@.len(),
            same ==> forall|k: int| 0 <= k < j ==> snapshot_view(snap@)[k] == snapshot_view(prev@)[k],
            !same ==> snapshot_view(snap@) != snapshot_view(prev@),
        decreases snap.len() - j + (if same {
            1int
        } else {
            0int
        }),
    {
        if snap[j].0 != prev[j].0 || !chars_eq(
            &chars_of(snap[j].1.as_str()),
            &chars_of(prev[j].1.as_str()),
        ) {
            assert(snapshot_view(snap@)[j as int] != snapshot_view(prev@)[j as int]);
            same = false;
        } else {
            j += 1;
        }
    }
    if same {
        assert(snapshot_view(snap@) =~= snapshot_view(prev@));
    }
    SnapshotUpdate { tabs: sorted, snapshot: snap, changed: !same }
}

} // verus!
