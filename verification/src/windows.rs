//! Top-level windows: which ones are tracked, and what kind of item each is.
//!
//! The desktop shell reports every top-level window with its handle, title,
//! class and owning process. This module filters out noise (invisible,
//! untitled, tiny and system windows, overlay processes), leaves browser main
//! windows to the tab sources, recognizes Explorer windows, and derives a
//! page pseudo-URL from a browser window title.

use crate::platform::{opt_view, ItemType, ItemView, TrackedItem};
use crate::text::{
    chars_eq, chars_of, contains, contains_seq, ends_with, is_suffix, lower, lowercase, push_all,
    push_i64, push_str, slice, string_of, trim, trim_chars,
};
use vstd::prelude::*;

verus! {

/// `char::is_control`: general category Cc.
pub open spec fn is_control(c: char) -> bool {
    (c as u32) <= 0x1f || (0x7f <= (c as u32) && (c as u32) <= 0x9f)
}

/// Characters kept in a cleaned title: no control characters other than
/// newline, carriage return and tab, and no zero-width characters.
pub open spec fn keeps_char(c: char) -> bool {
    &&& (!is_control(c) || c == '\n' || c == '\r' || c == '\t')
    &&& (c as u32) != 0x200b
    &&& (c as u32) != 0x200c
    &&& (c as u32) != 0x200d
    &&& (c as u32) != 0xfeff
}

/// The title without invisible characters.
pub open spec fn clean_title(s: Seq<char>) -> Seq<char>
    decreases s.len(),
{
    if s.len() == 0 {
        s
    } else if keeps_char(s.last()) {
        clean_title(s.drop_last()).push(s.last())
    } else {
        clean_title(s.drop_last())
    }
}

/// Window-title suffixes a browser appends to the page title.
pub open spec fn title_suffixes(browser: Seq<char>) -> Seq<Seq<char>> {
    if browser == "chrome"@ {
        seq![" - Google Chrome"@]
    } else if browser == "edge"@ {
        seq![" - Microsoft Edge"@, " - Microsoft\u{200B}Edge"@]
    } else if browser == "firefox"@ {
        seq![" \u{2014} Mozilla Firefox"@]
    } else {
        Seq::<Seq<char>>::empty()
    }
}

/// The page pseudo-URL from a cleaned title, trying the suffixes in order.
pub open spec fn page_from(clean: Seq<char>, suffixes: Seq<Seq<char>>) -> Option<Seq<char>>
    decreases suffixes.len(),
{
    if suffixes.len() == 0 {
        None
    } else {
        let s = suffixes[0];
        let page = trim(clean.subrange(0, clean.len() - s.len()));
        if is_suffix(s, clean) && page.len() > 0 {
            Some("page:"@ + lowercase(page))
        } else {
            page_from(clean, suffixes.drop_first())
        }
    }
}

/// The page pseudo-URL (`page:` and the lowercased page title) that a browser
/// window title carries, if its browser suffix is there and the page title
/// is not empty.
pub open spec fn title_page_url(title: Seq<char>, browser: Seq<char>) -> Option<Seq<char>> {
    page_from(clean_title(title), title_suffixes(browser))
}

fn keep_char(c: char) -> (r: bool)
    ensures
        r == keeps_char(c),
{
    let u = c as u32;
    let control = u <= 0x1f || (0x7f <= u && u <= 0x9f);
    (!control || c == '\n' || c == '\r' || c == '\t') && u != 0x200b && u != 0x200c && u != 0x200d
        && u != 0xfeff
}

fn strip_invisible(s: &Vec<char>) -> (r: Vec<char>)
    ensures
        r@ == clean_title(s@),
{
    let mut r: Vec<char> = Vec::new();
    let mut i: usize = 0;
    assert(s@.subrange(0, 0) =~= Seq::<char>::empty());
    while i < s.len()
        invariant
            i <= s@.len(),
            r@ == clean_title(s@.subrange(0, i as int)),
        decreases s.len() - i,
    {
        let ghost sub = s@.subrange(0, i + 1);
        assert(sub.drop_last() =~= s@.subrange(0, i as int));
        if keep_char(s[i]) {
            r.push(s[i]);
        }
        i += 1;
    }
    assert(s@.subrange(0, s@.len() as int) =~= s@);
    r
}

fn try_suffixes(clean: &Vec<char>, suffixes: &Vec<Vec<char>>) -> (r: Option<String>)
    ensures
        match r {
            Some(u) => page_from(clean@, views_of(suffixes@)) == Some(u@),
            None => page_from(clean@, views_of(suffixes@)) is None,
        },
{
    let mut k: usize = 0;
    let ghost all = views_of(suffixes@);
    assert(all.skip(0) =~= all);
    while k < suffixes.len()
        invariant
            k <= suffixes@.len(),
            all == views_of(suffixes@),
            page_from(clean@, all) == page_from(clean@, all.skip(k as int)),
        decreases suffixes.len() - k,
    {
        let ghost rest = all.skip(k as int);
        assert(rest[0] == suffixes@[k as int]@);
        assert(rest.drop_first() =~= all.skip(k + 1));
        let s = &suffixes[k];
        if ends_with(clean, s) {
            let stripped = slice(clean, 0, clean.len() - s.len());
            let page = trim_chars(&stripped);
            if page.len() > 0 {
                let mut out: Vec<char> = Vec::new();
                push_str(&mut out, "page:");
                let l = lower(&page);
                push_all(&mut out, &l);
                return Some(string_of(&out));
            }
        }
        k += 1;
    }
    None
}

/// The character sequences of a list of character vectors.
pub open spec fn views_of(v: Seq<Vec<char>>) -> Seq<Seq<char>> {
    v.map_values(|x: Vec<char>| x@)
}

/// Extract a page pseudo-URL from a browser window title
/// ("Foo - Bar - Google Chrome" gives `page:foo - bar`). Only the page
/// title is known, not the real URL; `None` when no suffix of the browser
/// matches or the page title is empty.
pub fn extract_url_from_title(title: &str, browser: &str) -> (r: Option<String>)
    ensures
        match r {
            Some(u) => title_page_url(title@, browser@) == Some(u@),
            None => title_page_url(title@, browser@) is None,
        },
{
    let b = chars_of(browser);
    let mut suffixes: Vec<Vec<char>> = Vec::new();
    if chars_eq(&b, &chars_of("chrome")) {
        suffixes.push(chars_of(" - Google Chrome"));
    } else if chars_eq(&b, &chars_of("edge")) {
        suffixes.push(chars_of(" - Microsoft Edge"));
        suffixes.push(chars_of(" - Microsoft\u{200B}Edge"));
    } else if chars_eq(&b, &chars_of("firefox")) {
        suffixes.push(chars_of(" \u{2014} Mozilla Firefox"));
    }
    assert(views_of(suffixes@) =~= title_suffixes(browser@));
    let clean = strip_invisible(&chars_of(title));
    try_suffixes(&clean, &suffixes)
}

/// Kind, browser and pseudo-URL of a window by its process: the three known
/// browsers give a browser window, everything else an app window.
pub open spec fn classify_spec(title: Seq<char>, process_name: Seq<char>) -> (
    ItemType,
    Option<Seq<char>>,
    Option<Seq<char>>,
) {
    let p = lowercase(process_name);
    if p == "chrome.exe"@ {
        (ItemType::BrowserTab, Some("chrome"@), title_page_url(title, "chrome"@))
    } else if p == "msedge.exe"@ {
        (ItemType::BrowserTab, Some("edge"@), title_page_url(title, "edge"@))
    } else if p == "firefox.exe"@ {
        (ItemType::BrowserTab, Some("firefox"@), title_page_url(title, "firefox"@))
    } else {
        (ItemType::AppWindow, None, None)
    }
}

/// Classify a window by its (real) process image name.
pub fn classify_window(title: &str, process_name: &str) -> (r: (
    ItemType,
    Option<String>,
    Option<String>,
))
    ensures
        (r.0, opt_view(r.1), opt_view(r.2)) == classify_spec(title@, process_name@),
{
    let p = lower(&chars_of(process_name));
    if chars_eq(&p, &chars_of("chrome.exe")) {
        let url = extract_url_from_title(title, "chrome");
        (ItemType::BrowserTab, Some(string_of(&chars_of("chrome"))), url)
    } else if chars_eq(&p, &chars_of("msedge.exe")) {
        let url = extract_url_from_title(title, "edge");
        (ItemType::BrowserTab, Some(string_of(&chars_of("edge"))), url)
    } else if chars_eq(&p, &chars_of("firefox.exe")) {
        let url = extract_url_from_title(title, "firefox");
        (ItemType::BrowserTab, Some(string_of(&chars_of("firefox"))), url)
    } else {
        (ItemType::AppWindow, None, None)
    }
}

// ─── Window filter ──────────────────────────────────────────

/// A top-level window as the desktop shell reports it.
#[derive(Debug, Clone)]
pub struct RawWindow {
    pub hwnd: i64,
    pub visible: bool,
    /// The window belongs to this application's own process.
    pub own_process: bool,
    /// The window text as read (not yet trimmed).
    pub title: String,
    pub class_name: String,
    /// Image name of the owning process, when it could be read.
    pub process_name: Option<String>,
    /// Window rectangle (left, top, right, bottom), when it could be read.
    pub rect: Option<(i32, i32, i32, i32)>,
}

/// System and overlay window classes that are never tracked.
pub open spec fn is_noise_class(c: Seq<char>) -> bool {
    ||| c == "Windows.UI.Core.CoreWindow"@
    ||| c == "ApplicationFrameWindow"@
    ||| c == "Shell_TrayWnd"@
    ||| c == "Progman"@
    ||| c == "WorkerW"@
    ||| c == "TaskSwitcherWnd"@
    ||| c == "SysListView32"@
    ||| c == "Button"@
    ||| c == "Static"@
    ||| c == "ToolbarWindow32"@
    ||| c == "msctls_statusbar32"@
    ||| c == "#32770"@
    ||| c == "CEF-OSC-WIDGET"@
    ||| c == "pcm_h5_msg"@
    ||| c == "GDI+ Hook Window"@
    ||| c == "Dwm"@
    ||| c == "Msgr"@
    ||| c == "IME"@
    ||| c == "CiceroUIWndFrame"@
    ||| c == "OfficeTooltip"@
    ||| c == "tooltips_class32"@
    ||| c == "SysShadow"@
}

/// Background processes whose windows are never tracked (by a part of the
/// lowercased process name).
pub open spec fn is_noise_process(p: Seq<char>) -> bool {
    let l = lowercase(p);
    contains_seq(l, "nvidia"@) || contains_seq(l, "nvcontainer"@) || contains_seq(l, "cef-osc"@)
        || contains_seq(l, "pcm_h5"@)
}

/// The process name recorded for a window: its image name, or `app:` and
/// the window class when the image name could not be read.
pub open spec fn window_process(w: RawWindow) -> Seq<char> {
    match w.process_name {
        Some(p) => p@,
        None => "app:"@ + w.class_name@,
    }
}

/// The window has no area.
pub open spec fn is_empty_rect(rect: Option<(i32, i32, i32, i32)>) -> bool {
    match rect {
        Some((l, t, r, b)) => r - l <= 0 || b - t <= 0,
        None => false,
    }
}

/// The tracked item for a window, if it is tracked: visible, not ours,
/// titled, with an area, not a noise class or process, and not a browser
/// main window (browser tabs come from the tab sources). Explorer windows
/// use their title as path.
pub open spec fn window_item_spec(w: RawWindow, now: Seq<char>) -> Option<ItemView> {
    let title = trim(w.title@);
    let process = window_process(w);
    let (kind, browser, url) = classify_spec(title, process);
    if !w.visible || w.own_process || w.title@.len() == 0 || title.len() == 0 || is_empty_rect(
        w.rect,
    ) || is_noise_class(w.class_name@) || is_noise_process(process) || kind
        == ItemType::BrowserTab {
        None
    } else {
        let explorer = w.class_name@ == "CabinetWClass"@ || w.class_name@ == "ExploreWClass"@;
        Some(
            ItemView {
                id: "hwnd_"@ + crate::text::int_decimal(w.hwnd as int),
                title,
                url,
                path: if explorer {
                    Some(title)
                } else {
                    None
                },
                process_name: process,
                window_handle: Some(w.hwnd),
                item_type: if explorer {
                    ItemType::ExplorerWindow
                } else {
                    kind
                },
                browser_name: browser,
                last_active_at: now,
                icon: None,
                note: None,
                task_ids: Seq::<Seq<char>>::empty(),
            },
        )
    }
}

fn eq_lit(v: &Vec<char>, lit: &str) -> (r: bool)
    ensures
        r == (v@ == lit@),
{
    chars_eq(v, &chars_of(lit))
}

fn noise_class(c: &Vec<char>) -> (r: bool)
    ensures
        r == is_noise_class(c@),
{
    eq_lit(c, "Windows.UI.Core.CoreWindow") || eq_lit(c, "ApplicationFrameWindow") || eq_lit(
        c,
        "Shell_TrayWnd",
    ) || eq_lit(c, "Progman") || eq_lit(c, "WorkerW") || eq_lit(c, "TaskSwitcherWnd") || eq_lit(
        c,
        "SysListView32",
    ) || eq_lit(c, "Button") || eq_lit(c, "Static") || eq_lit(c, "ToolbarWindow32") || eq_lit(
        c,
        "msctls_statusbar32",
    ) || eq_lit(c, "#32770") || eq_lit(c, "CEF-OSC-WIDGET") || eq_lit(c, "pcm_h5_msg") || eq_lit(
        c,
        "GDI+ Hook Window",
    ) || eq_lit(c, "Dwm") || eq_lit(c, "Msgr") || eq_lit(c, "IME") || eq_lit(
        c,
        "CiceroUIWndFrame",
    ) || eq_lit(c, "OfficeTooltip") || eq_lit(c, "tooltips_class32") || eq_lit(c, "SysShadow")
}

fn noise_process(p: &Vec<char>) -> (r: bool)
    ensures
        r == is_noise_process(p@),
{
    let l = lower(p);
    contains(&l, &chars_of("nvidia")) || contains(&l, &chars_of("nvcontainer")) || contains(
        &l,
        &chars_of("cef-osc"),
    ) || contains(&l, &chars_of("pcm_h5"))
}

/// Decide whether a top-level window is tracked and build its item, stamped
/// with `now`.
pub fn window_item(w: &RawWindow, now: &str) -> (r: Option<TrackedItem>)
    ensures
        match r {
            Some(it) => window_item_spec(*w, now@) == Some(it@),
            None => window_item_spec(*w, now@) is None,
        },
{
    if !w.visible || w.own_process {
        return None;
    }
    let raw = chars_of(w.title.as_str());
    if raw.len() == 0 {
        return None;
    }
    let title = trim_chars(&raw);
    if title.len() == 0 {
        return None;
    }
    match w.rect {
        Some((l, t, r, b)) => {
            if (r as i64) - (l as i64) <= 0 || (b as i64) - (t as i64) <= 0 {
                return None;
            }
        },
        None => {},
    }
    let class = chars_of(w.class_name.as_str());
    if noise_class(&class) {
        return None;
    }
    let process: String = match &w.process_name {
        Some(p) => p.clone(),
        None => {
            let mut v: Vec<char> = Vec::new();
            push_str(&mut v, "app:");
            push_all(&mut v, &class);
            string_of(&v)
        },
    };
    let pv = chars_of(process.as_str());
    if noise_process(&pv) {
        return None;
    }
    let title_s = string_of(&title);
    let (kind, browser, url) = classify_window(title_s.as_str(), process.as_str());
    match kind {
        ItemType::BrowserTab => {
            return None;
        },
        _ => {},
    }
    let explorer = eq_lit(&class, "CabinetWClass") || eq_lit(&class, "ExploreWClass");
    let mut id: Vec<char> = Vec::new();
    push_str(&mut id, "hwnd_");
    push_i64(&mut id, w.hwnd);
    let item = TrackedItem {
        id: string_of(&id),
        title: string_of(&title),
        url,
        path: if explorer {
            Some(string_of(&title))
        } else {
            None
        },
        process_name: process,
        window_handle: Some(w.hwnd),
        item_type: if explorer {
            ItemType::ExplorerWindow
        } else {
            kind
        },
        browser_name: browser,
        last_active_at: string_of(&chars_of(now)),
        icon: None,
        note: None,
        task_ids: Vec::new(),
    };
    assert(item@.task_ids =~= Seq::<Seq<char>>::empty());
    assert(item@ =~= window_item_spec(*w, now@)->0);
    Some(item)
}

/// Window `w` is a visible window of another process whose image name is
/// `image` (compared lowercased).
pub open spec fn is_process_window(w: RawWindow, image: Seq<char>) -> bool {
    &&& w.visible
    &&& !w.own_process
    &&& w.process_name matches Some(p) && lowercase(p@) == lowercase(image)
}

/// The handle of the first visible top-level window (in enumeration order)
/// that belongs to a process with the given image name, not this
/// application's own: the main window of a browser, focused when its tab
/// cannot be activated.
pub fn find_process_window(windows: &Vec<RawWindow>, image_name: &str) -> (r: Option<i64>)
    ensures
        match r {
            Some(h) => exists|i: int|
                0 <= i < windows@.len() && is_process_window(windows@[i], image_name@)
                    && windows@[i].hwnd == h && forall|j: int|
                    0 <= j < i ==> !is_process_window(#[trigger] windows@[j], image_name@),
            None => forall|i: int|
                0 <= i < windows@.len() ==> !is_process_window(#[trigger] windows@[i], image_name@),
        },
{
    let target = lower(&chars_of(image_name));
    let mut i: usize = 0;
    while i < windows.len()
        invariant
            i <= windows@.len(),
            target@ == lowercase(image_name@),
            forall|j: int| 0 <= j < i ==> !is_process_window(#[trigger] windows@[j], image_name@),
        decreases windows.len() - i,
    {
        let w = &windows[i];
        if w.visible && !w.own_process {
            match &w.process_name {
                Some(p) => {
                    if chars_eq(&lower(&chars_of(p.as_str())), &target) {
                        assert(is_process_window(windows@[i as int], image_name@));
                        return Some(w.hwnd);
                    }
                },
                None => {},
            }
        }
        i += 1;
    }
    None
}

/// The last component of a process image path (after the last `\\` or
/// `/`), i.e. the image name.
pub open spec fn image_name_spec(path: Seq<char>) -> Seq<char>
    decreases path.len(),
{
    if path.len() == 0 {
        path
    } else if path.last() == '\\' || path.last() == '/' {
        Seq::<char>::empty()
    } else {
        image_name_spec(path.drop_last()).push(path.last())
    }
}

/// Image name of a full process image path (`C:\\…\\chrome.exe` gives
/// `chrome.exe`).
pub fn image_name(path: &str) -> (r: String)
    ensures
        r@ == image_name_spec(path@),
{
    let v = chars_of(path);
    let mut start: usize = v.len();
    assert(v@.subrange(0, v@.len() as int) =~= v@);
    assert(v@.subrange(v@.len() as int, v@.len() as int) =~= Seq::<char>::empty());
    while start > 0 && v[start - 1] != '\\' && v[start - 1] != '/'
        invariant
            start <= v@.len(),
            image_name_spec(v@) == image_name_spec(v@.subrange(0, start as int)) + v@.subrange(start as int, v@.len() as int),
        decreases start,
    {
        let ghost pre = v@.subrange(0, start as int);
        assert(pre.drop_last() =~= v@.subrange(0, start - 1));
        assert(image_name_spec(pre) == image_name_spec(pre.drop_last()).push(pre.last()));
        assert(v@.subrange(start - 1, v@.len() as int) =~= seq![v@[start - 1]] + v@.subrange(start as int, v@.len() as int));
        start -= 1;
    }
    if start > 0 {
        let ghost pre = v@.subrange(0, start as int);
        assert(pre.last() == v@[start - 1]);
    } else {
        assert(v@.subrange(0, 0) =~= Seq::<char>::empty());
    }
    string_of(&slice(&v, start, v.len()))
}

} // verus!
