//! File Explorer windows and tabs.
//!
//! Every Explorer tab (and every classic Explorer window) is an entry of the
//! shell's window collection with a handle, a display name and a location
//! URL. Tabs of one window share the handle. This module turns those entries
//! into tracked items with real paths and stable per-tab ids, and decides
//! when closing the window handle would close only the one tab.

use crate::order::{sort_items, sorted_items, stable_sorted_items};
use crate::platform::{items_view, ItemType, ItemView, TrackedItem};
use crate::text::{
    chars_eq, chars_of, int_decimal, is_prefix, lemma_nat_decimal, lower, lowercase, nat_decimal,
    push_i64, push_str, push_u64, replace, replace_char, slice, starts_with_str,
    string_of,
};
use vstd::prelude::*;
use vstd::utf8::{decode_utf8, encode_utf8, valid_utf8};

verus! {

broadcast use vstd::seq_lib::group_to_multiset_ensures;

// ─── Percent decoding ───────────────────────────────────────

/// Value of a hexadecimal digit byte.
pub open spec fn hex_value(b: u8) -> Option<u8> {
    if 48 <= b <= 57 {
        Some((b - 48) as u8)
    } else if 97 <= b <= 102 {
        Some((b - 97 + 10) as u8)
    } else if 65 <= b <= 70 {
        Some((b - 65 + 10) as u8)
    } else {
        None
    }
}

/// Percent-decoding of bytes: `%` and two hex digits stand for one byte;
/// a `%` without two hex digits after it fails.
pub open spec fn percent_decoded(input: Seq<u8>) -> Option<Seq<u8>>
    decreases input.len(),
{
    if input.len() == 0 {
        Some(Seq::<u8>::empty())
    } else if input[0] == 37 {
        if input.len() < 3 {
            None
        } else {
            match (hex_value(input[1]), hex_value(input[2])) {
                (Some(hi), Some(lo)) => match percent_decoded(input.skip(3)) {
                    Some(rest) => Some(seq![(hi * 16 + lo) as u8] + rest),
                    None => None,
                },
                _ => None,
            }
        }
    } else {
        match percent_decoded(input.skip(1)) {
            Some(rest) => Some(seq![input[0]] + rest),
            None => None,
        }
    }
}

/// The hexadecimal digit byte of `d` (`0 <= d < 16`), in upper or lower
/// case.
pub open spec fn hex_digit(d: int, upper: bool) -> u8 {
    if d < 10 {
        (48 + d) as u8
    } else if upper {
        (55 + d) as u8
    } else {
        (87 + d) as u8
    }
}

/// One byte percent-encoded: `%` and its two hex digits when it is `%` or
/// chosen to be escaped, the byte itself otherwise.
pub open spec fn encoded_byte(b: u8, escape: bool, upper: bool) -> Seq<u8> {
    if escape || b == 37 {
        seq![37u8, hex_digit((b / 16) as int, upper), hex_digit((b % 16) as int, upper)]
    } else {
        seq![b]
    }
}

/// Percent-encoding of bytes: byte `i` is escaped when it is `%` or
/// `escape[i]` holds, with hex digits in upper case when `upper[i]` holds.
pub open spec fn percent_encoded(v: Seq<u8>, escape: Seq<bool>, upper: Seq<bool>) -> Seq<u8>
    decreases v.len(),
{
    if v.len() == 0 {
        Seq::<u8>::empty()
    } else {
        encoded_byte(v[0], escape[0], upper[0]) + percent_encoded(
            v.drop_first(),
            escape.drop_first(),
            upper.drop_first(),
        )
    }
}

/// Decoding undoes encoding: whichever bytes are escaped, and in whichever
/// case their hex digits are written, percent-decoding gives the bytes back.
pub proof fn lemma_percent_decode_inverts(v: Seq<u8>, escape: Seq<bool>, upper: Seq<bool>)
    requires
        escape.len() == v.len(),
        upper.len() == v.len(),
    ensures
        percent_decoded(percent_encoded(v, escape, upper)) == Some(v),
    decreases v.len(),
{
    let e = percent_encoded(v, escape, upper);
    if v.len() == 0 {
        assert(e.len() == 0);
        assert(v =~= Seq::<u8>::empty());
    } else {
        let rest = v.drop_first();
        let tail = percent_encoded(rest, escape.drop_first(), upper.drop_first());
        lemma_percent_decode_inverts(rest, escape.drop_first(), upper.drop_first());
        let b = v[0];
        let piece = encoded_byte(b, escape[0], upper[0]);
        assert(e == piece + tail);
        if escape[0] || b == 37 {
            let hi = b / 16;
            let lo = b % 16;
            assert(hex_value(hex_digit(hi as int, upper[0])) == Some(hi as u8));
            assert(hex_value(hex_digit(lo as int, upper[0])) == Some(lo as u8));
            assert(e[0] == 37 && e[1] == piece[1] && e[2] == piece[2]);
            assert(e.skip(3) =~= tail);
            assert((hi * 16 + lo) as u8 == b);
            assert(seq![b] + rest =~= v);
        } else {
            assert(e[0] == b);
            assert(e.skip(1) =~= tail);
            assert(seq![b] + rest =~= v);
        }
    }
}

/// Value of a hexadecimal digit byte.
pub fn hex_val(b: u8) -> (r: Option<u8>)
    ensures
        r == hex_value(b),
{
    if 48 <= b && b <= 57 {
        Some(b - 48)
    } else if 97 <= b && b <= 102 {
        Some(b - 97 + 10)
    } else if 65 <= b && b <= 70 {
        Some(b - 65 + 10)
    } else {
        None
    }
}

/// Minimal percent-decoder for file URLs (UTF-8 bytes).
pub fn percent_decode(input: &[u8]) -> (r: Option<Vec<u8>>)
    ensures
        match r {
            Some(v) => percent_decoded(input@) == Some(v@),
            None => percent_decoded(input@) is None,
        },
{
    let mut out: Vec<u8> = Vec::new();
    let mut i: usize = 0;
    assert(input@.skip(0) =~= input@);
    while i < input.len()
        invariant
            i <= input@.len(),
            match percent_decoded(input@.skip(i as int)) {
                Some(rest) => percent_decoded(input@) == Some(out@ + rest),
                None => percent_decoded(input@) is None,
            },
        decreases input.len() - i,
    {
        let ghost tail = input@.skip(i as int);
        if input[i] == 37 {
            if input.len() - i < 3 {
                assert(tail.len() < 3);
                return None;
            }
            let hi = hex_val(input[i + 1]);
            let lo = hex_val(input[i + 2]);
            assert(tail[1] == input@[i + 1] && tail[2] == input@[i + 2]);
            match (hi, lo) {
                (Some(h), Some(l)) => {
                    let byte: u8 = h * 16 + l;
                    assert(tail.skip(3) =~= input@.skip(i + 3));
                    let ghost old_out = out@;
                    out.push(byte);
                    proof {
                        match percent_decoded(input@.skip(i + 3)) {
                            Some(rest) => {
                                assert(out@ + rest =~= old_out + (seq![byte] + rest));
                            },
                            None => {},
                        }
                    }
                    i += 3;
                },
                _ => {
                    return None;
                },
            }
        } else {
            assert(tail.skip(1) =~= input@.skip(i + 1));
            let ghost old_out = out@;
            out.push(input[i]);
            proof {
                match percent_decoded(input@.skip(i + 1)) {
                    Some(rest) => {
                        assert(out@ + rest =~= old_out + (seq![input@[i as int]] + rest));
                    },
                    None => {},
                }
            }
            i += 1;
        }
    }
    assert(input@.skip(i as int) =~= Seq::<u8>::empty());
    assert(out@ + Seq::<u8>::empty() =~= out@);
    Some(out)
}

/// `String::from_utf8`: `Some` exactly for valid UTF-8, holding the decoded
/// characters (the UTF-8 definitions of `vstd::utf8`).
#[verifier::external_body]
fn utf8_string(bytes: Vec<u8>) -> (r: Option<String>)
    ensures
        r is Some <==> valid_utf8(bytes@),
        r matches Some(s) ==> s@ == decode_utf8(bytes@),
{
    String::from_utf8(bytes).ok()
}

/// The Windows path of a `file:///` location URL.
pub open spec fn file_url_path(url: Seq<char>) -> Option<Seq<char>> {
    if !is_prefix("file:///"@, url) {
        None
    } else {
        match percent_decoded(encode_utf8(url.subrange("file:///"@.len() as int, url.len() as int))) {
            None => None,
            Some(bytes) => if !valid_utf8(bytes) {
                None
            } else {
                let s = decode_utf8(bytes);
                if s.len() == 0 {
                    None
                } else {
                    Some(replace_char(s, '/', '\\'))
                }
            },
        }
    }
}

/// Convert a `file:///C:/foo%20bar` location URL into a Windows path
/// (`C:\foo bar`); `None` for other URLs, undecodable ones and the bare root.
pub fn file_url_to_path(url: &str) -> (r: Option<String>)
    ensures
        match r {
            Some(p) => file_url_path(url@) == Some(p@),
            None => file_url_path(url@) is None,
        },
{
    let v = chars_of(url);
    if !starts_with_str(&v, "file:///") {
        return None;
    }
    let n = chars_of("file:///").len();
    let rest = slice(&v, n, v.len());
    let rest_str = string_of(&rest);
    let bytes = vstd::slice::slice_to_vec(rest_str.as_str().as_bytes());
    let decoded = match percent_decode(bytes.as_slice()) {
        Some(d) => d,
        None => return None,
    };
    let s = match utf8_string(decoded) {
        Some(s) => s,
        None => return None,
    };
    let sv = chars_of(s.as_str());
    if sv.len() == 0 {
        return None;
    }
    let p = replace(&sv, '/', '\\');
    Some(string_of(&p))
}

// ─── Item ids ───────────────────────────────────────────────

/// Id of an Explorer tab: `explorer_{hwnd}_{identity}`, and for the 2nd and
/// later tab showing the same folder in the same window `…_{occurrence}`.
pub open spec fn explorer_id_of(hwnd: i64, identity: Seq<char>, occurrence: nat) -> Seq<char> {
    if occurrence == 0 {
        "explorer_"@ + int_decimal(hwnd as int) + seq!['_'] + identity
    } else {
        "explorer_"@ + int_decimal(hwnd as int) + seq!['_'] + identity + seq!['_'] + nat_decimal(
            occurrence,
        )
    }
}

/// Item id for an Explorer tab. Occurrence 0 keeps the plain form (stable
/// for the common single-tab case); 2nd and later tabs of the same folder in
/// the same window get `_n`.
pub fn explorer_item_id(hwnd: i64, identity: &str, occurrence: usize) -> (r: String)
    ensures
        r@ == explorer_id_of(hwnd, identity@, occurrence as nat),
{
    let mut out: Vec<char> = Vec::new();
    push_str(&mut out, "explorer_");
    push_i64(&mut out, hwnd);
    out.push('_');
    push_str(&mut out, identity);
    if occurrence != 0 {
        out.push('_');
        push_u64(&mut out, occurrence as u64);
    }
    proof {
        assert(out@ =~= explorer_id_of(hwnd, identity@, occurrence as nat));
    }
    string_of(&out)
}

/// Different occurrences of one folder in one window get different ids.
pub proof fn lemma_explorer_ids_distinct(hwnd: i64, identity: Seq<char>, n: nat, m: nat)
    requires
        n != m,
    ensures
        explorer_id_of(hwnd, identity, n) != explorer_id_of(hwnd, identity, m),
{
    let base = "explorer_"@ + int_decimal(hwnd as int) + seq!['_'] + identity;
    lemma_nat_decimal(n);
    lemma_nat_decimal(m);
    if n != 0 && m != 0 {
        let a = base + seq!['_'] + nat_decimal(n);
        let b = base + seq!['_'] + nat_decimal(m);
        if a == b {
            assert(a.subrange(base.len() + 1int, a.len() as int) =~= nat_decimal(n));
            assert(b.subrange(base.len() + 1int, b.len() as int) =~= nat_decimal(m));
        }
    } else if n == 0 {
        assert(explorer_id_of(hwnd, identity, m).len() > base.len());
    } else {
        assert(explorer_id_of(hwnd, identity, n).len() > base.len());
    }
}

/// The same folder in different windows gets different ids.
pub proof fn lemma_explorer_ids_distinct_windows(h1: i64, h2: i64, identity: Seq<char>, n: nat)
    requires
        h1 != h2,
    ensures
        explorer_id_of(h1, identity, n) != explorer_id_of(h2, identity, n),
{
    let d1 = int_decimal(h1 as int);
    let d2 = int_decimal(h2 as int);
    let tail = if n == 0 {
        seq!['_'] + identity
    } else {
        seq!['_'] + identity + seq!['_'] + nat_decimal(n)
    };
    let a = explorer_id_of(h1, identity, n);
    let b = explorer_id_of(h2, identity, n);
    assert(a =~= "explorer_"@ + d1 + tail);
    assert(b =~= "explorer_"@ + d2 + tail);
    if a == b {
        let p = "explorer_"@.len() as int;
        assert(d1.len() == d2.len());
        assert(a.subrange(p, p + d1.len()) =~= d1);
        assert(b.subrange(p, p + d2.len()) =~= d2);
        crate::text::lemma_parse_int_decimal(h1);
        crate::text::lemma_parse_int_decimal(h2);
    }
}

// ─── Closing ────────────────────────────────────────────────

/// Number of Explorer items on the window `hwnd`.
pub open spec fn explorer_tabs_on(items: Seq<ItemView>, hwnd: i64) -> nat
    decreases items.len(),
{
    if items.len() == 0 {
        0
    } else {
        explorer_tabs_on(items.drop_last(), hwnd) + (if items.last().item_type
            == ItemType::ExplorerWindow && items.last().window_handle == Some(hwnd) {
            1nat
        } else {
            0nat
        })
    }
}

/// Closing an Explorer tab means closing its window handle, which would kill
/// sibling tabs of the same window: allow it only when this is the only tab.
pub fn can_close_explorer_window(hwnd: i64, items: &[TrackedItem]) -> (r: bool)
    ensures
        r == (explorer_tabs_on(items_view(items@), hwnd) <= 1),
{
    let ghost all = items_view(items@);
    let mut count: usize = 0;
    let mut i: usize = 0;
    assert(all.subrange(0, 0) =~= Seq::<ItemView>::empty());
    while i < items.len()
        invariant
            i <= items@.len(),
            all == items_view(items@),
            count == explorer_tabs_on(all.subrange(0, i as int), hwnd),
            count <= i,
        decreases items.len() - i,
    {
        let ghost sub = all.subrange(0, i + 1);
        assert(sub.drop_last() =~= all.subrange(0, i as int));
        assert(sub.last() == items@[i as int]@);
        let it = &items[i];
        let is_tab = match it.item_type {
            ItemType::ExplorerWindow => match it.window_handle {
                Some(h) => h == hwnd,
                None => false,
            },
            _ => false,
        };
        if is_tab {
            count += 1;
        }
        i += 1;
    }
    assert(all.subrange(0, items@.len() as int) =~= all);
    count <= 1
}

// ─── Items from shell entries ───────────────────────────────

/// One entry of the shell's window collection.
#[derive(Debug, Clone)]
pub struct ShellEntry {
    /// Handle of the top-level window that hosts the entry.
    pub hwnd: i64,
    /// Window class of that window.
    pub class_name: String,
    /// Display name of the location.
    pub title: String,
    /// Location URL (`file:///…` for real folders).
    pub url: String,
}

/// Window classes of real Explorer windows (not the desktop or IE).
pub open spec fn is_explorer_class(class: Seq<char>) -> bool {
    class == "CabinetWClass"@ || class == "ExploreWClass"@
}

/// Identity of an entry within its window: its lowercased path (or title
/// for virtual folders) with forward slashes; `None` when the entry is not
/// tracked (not an Explorer window, or neither title nor path).
pub open spec fn entry_identity(e: ShellEntry) -> Option<Seq<char>> {
    if !is_explorer_class(e.class_name@) {
        None
    } else {
        let path = file_url_path(e.url@);
        if e.title@.len() == 0 && path is None {
            None
        } else {
            let basis = match path {
                Some(p) => p,
                None => e.title@,
            };
            Some(replace_char(lowercase(basis), '\\', '/'))
        }
    }
}

/// Number of tracked entries with the given window and identity.
pub open spec fn same_entries(entries: Seq<ShellEntry>, hwnd: i64, identity: Seq<char>) -> nat
    decreases entries.len(),
{
    if entries.len() == 0 {
        0
    } else {
        same_entries(entries.drop_last(), hwnd, identity) + (if entries.last().hwnd == hwnd
            && entry_identity(entries.last()) == Some(identity) {
            1nat
        } else {
            0nat
        })
    }
}

/// The item for entry `e`, the `occurrence`-th with its window and identity.
pub open spec fn shell_item(e: ShellEntry, identity: Seq<char>, occurrence: nat, now: Seq<char>) -> ItemView {
    let path = file_url_path(e.url@);
    ItemView {
        id: explorer_id_of(e.hwnd, identity, occurrence),
        title: if e.title@.len() == 0 {
            match path {
                Some(p) => p,
                None => Seq::<char>::empty(),
            }
        } else {
            e.title@
        },
        url: None,
        path,
        process_name: "explorer.exe"@,
        window_handle: Some(e.hwnd),
        item_type: ItemType::ExplorerWindow,
        browser_name: None,
        last_active_at: now,
        icon: None,
        note: None,
        task_ids: Seq::<Seq<char>>::empty(),
    }
}

/// The items of the tracked entries, in entry order.
pub open spec fn shell_items(entries: Seq<ShellEntry>, now: Seq<char>) -> Seq<ItemView>
    decreases entries.len(),
{
    if entries.len() == 0 {
        Seq::<ItemView>::empty()
    } else {
        let pre = shell_items(entries.drop_last(), now);
        let e = entries.last();
        match entry_identity(e) {
            None => pre,
            Some(identity) => pre.push(
                shell_item(e, identity, same_entries(entries.drop_last(), e.hwnd, identity), now),
            ),
        }
    }
}

/// The identity an Explorer item was counted under: its lowercased path
/// (its title, for a virtual folder) with forward slashes.
pub open spec fn item_identity(v: ItemView) -> Seq<char> {
    replace_char(
        lowercase(
            match v.path {
                Some(p) => p,
                None => v.title,
            },
        ),
        '\\',
        '/',
    )
}

/// Number of items on window `hwnd` with identity `identity`.
pub open spec fn count_same(items: Seq<ItemView>, hwnd: i64, identity: Seq<char>) -> nat
    decreases items.len(),
{
    if items.len() == 0 {
        0
    } else {
        count_same(items.drop_last(), hwnd, identity) + (if items.last().window_handle == Some(
            hwnd,
        ) && item_identity(items.last()) == identity {
            1nat
        } else {
            0nat
        })
    }
}

/// The items count the tracked entries: per window and identity, as many
/// items as entries.
proof fn lemma_count_same_entries(entries: Seq<ShellEntry>, now: Seq<char>, h: i64, d: Seq<char>)
    ensures
        count_same(shell_items(entries, now), h, d) == same_entries(entries, h, d),
    decreases entries.len(),
{
    if entries.len() > 0 {
        let pre = entries.drop_last();
        lemma_count_same_entries(pre, now, h, d);
        let e = entries.last();
        if let Some(d0) = entry_identity(e) {
            let item = shell_item(e, d0, same_entries(pre, e.hwnd, d0), now);
            assert(shell_items(entries, now).drop_last() =~= shell_items(pre, now));
            assert(item_identity(item) == d0);
        }
    }
}

/// Every item of the entries of a window is numbered by the items before it
/// with the same window and identity.
proof fn lemma_shell_item_numbering(entries: Seq<ShellEntry>, now: Seq<char>, k: int)
    requires
        0 <= k < shell_items(entries, now).len(),
    ensures
        shell_items(entries, now)[k].window_handle is Some,
        shell_items(entries, now)[k].id == explorer_id_of(
            shell_items(entries, now)[k].window_handle->0,
            item_identity(shell_items(entries, now)[k]),
            count_same(
                shell_items(entries, now).subrange(0, k),
                shell_items(entries, now)[k].window_handle->0,
                item_identity(shell_items(entries, now)[k]),
            ),
        ),
    decreases entries.len(),
{
    let pre = entries.drop_last();
    let items = shell_items(entries, now);
    let pre_items = shell_items(pre, now);
    if k < pre_items.len() {
        lemma_shell_item_numbering(pre, now, k);
        assert(items.subrange(0, k) =~= pre_items.subrange(0, k));
    } else {
        let e = entries.last();
        let d0 = entry_identity(e)->0;
        lemma_count_same_entries(pre, now, e.hwnd, d0);
        assert(items.subrange(0, k) =~= pre_items);
        assert(item_identity(items[k]) == d0);
    }
}

/// Counting over a longer prefix counts at least as many.
proof fn lemma_count_same_prefix(items: Seq<ItemView>, i: int, j: int, h: i64, d: Seq<char>)
    requires
        0 <= i <= j <= items.len(),
    ensures
        count_same(items.subrange(0, i), h, d) <= count_same(items.subrange(0, j), h, d),
    decreases j - i,
{
    if i < j {
        lemma_count_same_prefix(items, i, j - 1, h, d);
        assert(items.subrange(0, j).drop_last() =~= items.subrange(0, j - 1));
    }
}

/// Two Explorer tabs showing the same folder in the same window stay two
/// items: entries with the same window and identity get different ids.
pub proof fn lemma_same_folder_tabs_distinct(entries: Seq<ShellEntry>, now: Seq<char>, i: int, j: int)
    requires
        0 <= i < j < shell_items(entries, now).len(),
        shell_items(entries, now)[i].window_handle == shell_items(entries, now)[j].window_handle,
        item_identity(shell_items(entries, now)[i]) == item_identity(shell_items(entries, now)[j]),
    ensures
        shell_items(entries, now)[i].id != shell_items(entries, now)[j].id,
{
    let items = shell_items(entries, now);
    lemma_shell_item_numbering(entries, now, i);
    lemma_shell_item_numbering(entries, now, j);
    let h = items[i].window_handle->0;
    let d = item_identity(items[i]);
    lemma_count_same_prefix(items, i + 1, j, h, d);
    assert(items.subrange(0, i + 1).drop_last() =~= items.subrange(0, i));
    lemma_explorer_ids_distinct(
        h,
        d,
        count_same(items.subrange(0, i), h, d),
        count_same(items.subrange(0, j), h, d),
    );
}

fn is_explorer_window_class(class: &str) -> (r: bool)
    ensures
        r == is_explorer_class(class@),
{
    let c = chars_of(class);
    chars_eq(&c, &chars_of("CabinetWClass")) || chars_eq(&c, &chars_of("ExploreWClass"))
}

/// Explorer tabs and windows from the shell's window collection, stamped
/// with `now`. Entries of other windows (the desktop, IE) and entries with
/// neither title nor path are left out; a title falls back to the path.
/// Items come in id order, so duplicate grouping keeps first-item semantics.
pub fn explorer_items(entries: &Vec<ShellEntry>, now: &str) -> (r: Vec<TrackedItem>)
    ensures
        items_view(r@) == stable_sorted_items(shell_items(entries@, now@)),
        items_view(r@).to_multiset() == shell_items(entries@, now@).to_multiset(),
        sorted_items(items_view(r@)),
{
    let mut items: Vec<TrackedItem> = Vec::new();
    let mut seen: Vec<(i64, Vec<char>)> = Vec::new();
    let mut i: usize = 0;
    assert(entries@.subrange(0, 0) =~= Seq::<ShellEntry>::empty());
    while i < entries.len()
        invariant
            i <= entries@.len(),
            items_view(items@) == shell_items(entries@.subrange(0, i as int), now@),
            forall|h: i64, id: Seq<char>|
                #[trigger] same_entries(entries@.subrange(0, i as int), h, id) == count_seen(
                    seen@,
                    h,
                    id,
                ),
        decreases entries.len() - i,
    {
        let e = &entries[i];
        let ghost pre = entries@.subrange(0, i as int);
        let ghost sub = entries@.subrange(0, i + 1);
        assert(sub.drop_last() =~= pre);
        assert(sub.last() == *e);
        if is_explorer_window_class(e.class_name.as_str()) {
            let path = file_url_to_path(e.url.as_str());
            let title_empty = e.title.as_str().is_empty();
            let skip = title_empty && path.is_none();
            if !skip {
                let basis = match &path {
                    Some(p) => chars_of(p.as_str()),
                    None => chars_of(e.title.as_str()),
                };
                let lowered = lower(&basis);
                let identity = replace(&lowered, '\\', '/');
                assert(entry_identity(*e) == Some(identity@));
                let occurrence = seen_count(&seen, e.hwnd, &identity);
                let ident_str = string_of(&identity);
                let id = explorer_item_id(e.hwnd, ident_str.as_str(), occurrence);
                let title = if title_empty {
                    match &path {
                        Some(p) => p.clone(),
                        None => string_of(&Vec::new()),
                    }
                } else {
                    e.title.clone()
                };
                let item = TrackedItem {
                    id,
                    title,
                    url: None,
                    path,
                    process_name: string_of(&chars_of("explorer.exe")),
                    window_handle: Some(e.hwnd),
                    item_type: ItemType::ExplorerWindow,
                    browser_name: None,
                    last_active_at: string_of(&chars_of(now)),
                    icon: None,
                    note: None,
                    task_ids: Vec::new(),
                };
                let ghost before = items_view(items@);
                assert(item@.task_ids =~= Seq::<Seq<char>>::empty());
                assert(item@ =~= shell_item(*e, identity@, occurrence as nat, now@));
                items.push(item);
                assert(items_view(items@) =~= before.push(item@));
                let ghost old_seen = seen@;
                let ghost iv = identity@;
                seen.push((e.hwnd, identity));
                proof {
                    assert(seen@.last().1@ == iv);
                    assert(seen@.last().0 == e.hwnd);
                    assert forall|h: i64, id: Seq<char>|
                        #[trigger] same_entries(sub, h, id) == count_seen(seen@, h, id) by {
                        assert(seen@.drop_last() =~= old_seen);
                        assert(same_entries(pre, h, id) == count_seen(old_seen, h, id));
                        assert(entry_identity(sub.last()) == Some(iv));
                    }
                }
            } else {
                proof {
                    assert forall|h: i64, id: Seq<char>|
                        #[trigger] same_entries(sub, h, id) == count_seen(seen@, h, id) by {
                        assert(same_entries(sub, h, id) == same_entries(pre, h, id));
                        assert(same_entries(pre, h, id) == count_seen(seen@, h, id));
                    }
                }
            }
        } else {
            proof {
                assert forall|h: i64, id: Seq<char>|
                    #[trigger] same_entries(sub, h, id) == count_seen(seen@, h, id) by {
                    assert(same_entries(sub, h, id) == same_entries(pre, h, id));
                    assert(same_entries(pre, h, id) == count_seen(seen@, h, id));
                }
            }
        }
        i += 1;
    }
    assert(entries@.subrange(0, entries@.len() as int) =~= entries@);
    sort_items(&items)
}

/// Number of seen (window, identity) pairs equal to `(hwnd, identity)`.
pub open spec fn count_seen(seen: Seq<(i64, Vec<char>)>, hwnd: i64, identity: Seq<char>) -> nat
    decreases seen.len(),
{
    if seen.len() == 0 {
        0
    } else {
        count_seen(seen.drop_last(), hwnd, identity) + (if seen.last().0 == hwnd && seen.last().1@
            == identity {
            1nat
        } else {
            0nat
        })
    }
}

fn seen_count(seen: &Vec<(i64, Vec<char>)>, hwnd: i64, identity: &Vec<char>) -> (r: usize)
    ensures
        r == count_seen(seen@, hwnd, identity@),
{
    let mut n: usize = 0;
    let mut i: usize = 0;
    assert(seen@.subrange(0, 0) =~= Seq::<(i64, Vec<char>)>::empty());
    while i < seen.len()
        invariant
            i <= seen@.len(),
            n == count_seen(seen@.subrange(0, i as int), hwnd, identity@),
            n <= i,
        decreases seen.len() - i,
    {
        let ghost sub = seen@.subrange(0, i + 1);
        assert(sub.drop_last() =~= seen@.subrange(0, i as int));
        if seen[i].0 == hwnd && chars_eq(&seen[i].1, identity) {
            n += 1;
        }
        i += 1;
    }
    assert(seen@.subrange(0, seen@.len() as int) =~= seen@);
    n
}

} // verus!
