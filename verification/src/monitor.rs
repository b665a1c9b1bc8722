//! One scan's sources merged into the tracked list.

use crate::platform::{items_view, ItemType, ItemView, TrackedItem};
use vstd::prelude::*;

verus! {

/// The items not of the given kind, in order.
pub open spec fn without_kind(items: Seq<ItemView>, kind: ItemType) -> Seq<ItemView>
    decreases items.len(),
{
    if items.len() == 0 {
        items
    } else {
        let pre = without_kind(items.drop_last(), kind);
        if items.last().item_type == kind {
            pre
        } else {
            pre.push(items.last())
        }
    }
}

/// Browser windows read as app windows (usable through their handle).
pub open spec fn promoted(items: Seq<ItemView>) -> Seq<ItemView> {
    items.map_values(
        |v: ItemView|
            if v.item_type == ItemType::BrowserTab {
                ItemView { item_type: ItemType::AppWindow, ..v }
            } else {
                v
            },
    )
}

/// The tracked list of one scan. When the shell's Explorer collection was
/// read (`explorer` is `Some`), it replaces the Explorer windows of the
/// window enumeration. When DevTools reported tabs, they are the browser
/// tabs and browser windows are left out; otherwise browser windows stay
/// as app windows. Explorer tabs come last.
pub open spec fn merged_scan(
    cdp_tabs: Seq<ItemView>,
    windows: Seq<ItemView>,
    explorer: Option<Seq<ItemView>>,
) -> Seq<ItemView> {
    let w = if explorer is Some {
        without_kind(windows, ItemType::ExplorerWindow)
    } else {
        windows
    };
    let base = if cdp_tabs.len() > 0 {
        cdp_tabs + without_kind(w, ItemType::BrowserTab)
    } else {
        promoted(w)
    };
    match explorer {
        Some(e) => base + e,
        None => base,
    }
}

/// Leaving out a kind keeps items of the list, none of that kind.
proof fn lemma_without_kind_items(s: Seq<ItemView>, kind: ItemType)
    ensures
        without_kind(s, kind).len() <= s.len(),
        forall|i: int|
            0 <= i < without_kind(s, kind).len() ==> (#[trigger] without_kind(s, kind)[i]).item_type
                != kind && s.contains(without_kind(s, kind)[i]),
    decreases s.len(),
{
    if s.len() > 0 {
        let d = s.drop_last();
        lemma_without_kind_items(d, kind);
        let pre = without_kind(d, kind);
        assert forall|i: int|
            0 <= i < without_kind(s, kind).len() implies (#[trigger] without_kind(s, kind)[i]).item_type
            != kind && s.contains(without_kind(s, kind)[i]) by {
            if i < pre.len() {
                assert(without_kind(s, kind)[i] == pre[i]);
                let j = choose|j: int| 0 <= j < d.len() && d[j] == pre[i];
                assert(s[j] == d[j]);
            } else {
                assert(s[s.len() - 1] == s.last());
            }
        }
    }
}

/// When the shell's Explorer collection was read, it supersedes the Explorer
/// windows of the window enumeration, whether or not DevTools reported
/// tabs: the merged list ends with the shell's Explorer tabs, and before
/// them the only Explorer windows are ones DevTools itself reported; every
/// other item there is an enumerated window that is not an Explorer window.
pub proof fn lemma_shell_supersedes_enumeration(
    cdp_tabs: Seq<ItemView>,
    windows: Seq<ItemView>,
    explorer: Seq<ItemView>,
)
    ensures
        merged_scan(cdp_tabs, windows, Some(explorer)).len() >= explorer.len(),
        merged_scan(cdp_tabs, windows, Some(explorer)).subrange(
            merged_scan(cdp_tabs, windows, Some(explorer)).len() - explorer.len(),
            merged_scan(cdp_tabs, windows, Some(explorer)).len() as int,
        ) == explorer,
        forall|i: int|
            0 <= i < merged_scan(cdp_tabs, windows, Some(explorer)).len() - explorer.len()
                && !cdp_tabs.contains(#[trigger] merged_scan(cdp_tabs, windows, Some(explorer))[i])
                ==> merged_scan(cdp_tabs, windows, Some(explorer))[i].item_type
                != ItemType::ExplorerWindow && exists|j: int|
                0 <= j < windows.len() && windows[j].item_type != ItemType::ExplorerWindow
                    && windows[j].id == merged_scan(cdp_tabs, windows, Some(explorer))[i].id,
{
    let m = merged_scan(cdp_tabs, windows, Some(explorer));
    let w = without_kind(windows, ItemType::ExplorerWindow);
    lemma_without_kind_items(windows, ItemType::ExplorerWindow);
    let base = if cdp_tabs.len() > 0 {
        cdp_tabs + without_kind(w, ItemType::BrowserTab)
    } else {
        promoted(w)
    };
    assert(m == base + explorer);
    assert(m.subrange(m.len() - explorer.len(), m.len() as int) =~= explorer);
    assert forall|i: int|
        0 <= i < m.len() - explorer.len() && !cdp_tabs.contains(#[trigger] m[i]) implies m[i].item_type
        != ItemType::ExplorerWindow && exists|j: int|
        0 <= j < windows.len() && windows[j].item_type != ItemType::ExplorerWindow && windows[j].id
            == m[i].id by {
        assert(m[i] == base[i]);
        if cdp_tabs.len() > 0 {
            let r = without_kind(w, ItemType::BrowserTab);
            lemma_without_kind_items(w, ItemType::BrowserTab);
            if i < cdp_tabs.len() {
                assert(cdp_tabs.contains(base[i]));
            } else {
                let x = r[i - cdp_tabs.len()];
                assert(base[i] == x);
                assert(w.contains(x));
                let k = choose|k: int| 0 <= k < w.len() && w[k] == x;
                assert(w[k].item_type != ItemType::ExplorerWindow);
                let j = choose|j: int| 0 <= j < windows.len() && windows[j] == w[k];
            }
        } else {
            assert(base[i] == promoted(w)[i]);
            assert(w[i].item_type != ItemType::ExplorerWindow);
            let j = choose|j: int| 0 <= j < windows.len() && windows[j] == w[i];
        }
    }
}

fn drop_kind(items: Vec<TrackedItem>, kind: ItemType) -> (r: Vec<TrackedItem>)
    ensures
        items_view(r@) == without_kind(items_view(items@), kind),
{
    let ghost all = items_view(items@);
    let mut r: Vec<TrackedItem> = Vec::new();
    let mut i: usize = 0;
    assert(all.subrange(0, 0) =~= Seq::<ItemView>::empty());
    while i < items.len()
        invariant
            i <= items@.len(),
            all == items_view(items@),
            items_view(r@) == without_kind(all.subrange(0, i as int), kind),
        decreases items.len() - i,
    {
        let ghost sub = all.subrange(0, i + 1);
        assert(sub.drop_last() =~= all.subrange(0, i as int));
        assert(sub.last() == items@[i as int]@);
        if items[i].item_type != kind {
            let ghost before = items_view(r@);
            r.push(items[i].copy());
            assert(items_view(r@) =~= before.push(items@[i as int]@));
        }
        i += 1;
    }
    assert(all.subrange(0, items@.len() as int) =~= all);
    r
}

fn append(out: &mut Vec<TrackedItem>, more: Vec<TrackedItem>)
    ensures
        items_view(final(out)@) == items_view(old(out)@) + items_view(more@),
{
    let ghost start = items_view(out@);
    let mut i: usize = 0;
    while i < more.len()
        invariant
            i <= more@.len(),
            items_view(out@) == start + items_view(more@).subrange(0, i as int),
        decreases more.len() - i,
    {
        let ghost before = items_view(out@);
        out.push(more[i].copy());
        assert(items_view(out@) =~= before.push(more@[i as int]@));
        assert(items_view(more@).subrange(0, i + 1) =~= items_view(more@).subrange(0, i as int).push(more@[i as int]@));
        i += 1;
    }
    assert(items_view(more@).subrange(0, more@.len() as int) =~= items_view(more@));
}

/// Merge DevTools tabs, enumerated windows and (when the shell collection
/// could be read) Explorer tabs into the list that is stored.
pub fn merge_scan(
    cdp_tabs: Vec<TrackedItem>,
    windows: Vec<TrackedItem>,
    explorer: Option<Vec<TrackedItem>>,
) -> (r: Vec<TrackedItem>)
    ensures
        items_view(r@) == merged_scan(
            items_view(cdp_tabs@),
            items_view(windows@),
            match explorer {
                Some(e) => Some(items_view(e@)),
                None => None,
            },
        ),
{
    let w = match &explorer {
        Some(_) => drop_kind(windows, ItemType::ExplorerWindow),
        None => windows,
    };
    let mut all: Vec<TrackedItem> = Vec::new();
    if cdp_tabs.len() > 0 {
        append(&mut all, cdp_tabs);
        let rest = drop_kind(w, ItemType::BrowserTab);
        append(&mut all, rest);
    } else {
        let ghost wv = items_view(w@);
        let mut i: usize = 0;
        while i < w.len()
            invariant
                i <= w@.len(),
                wv == items_view(w@),
                items_view(all@) == promoted(wv.subrange(0, i as int)),
            decreases w.len() - i,
        {
            let mut it = w[i].copy();
            if it.item_type == ItemType::BrowserTab {
                it.item_type = ItemType::AppWindow;
            }
            let ghost before = items_view(all@);
            all.push(it);
            assert(items_view(all@) =~= before.push(it@));
            assert(promoted(wv.subrange(0, i + 1)) =~= promoted(wv.subrange(0, i as int)).push(it@));
            i += 1;
        }
        assert(wv.subrange(0, w@.len() as int) =~= wv);
        assert(items_view(Seq::<TrackedItem>::empty()) =~= Seq::<ItemView>::empty());
    }
    match explorer {
        Some(e) => append(&mut all, e),
        None => {},
    }
    all
}

} // verus!
