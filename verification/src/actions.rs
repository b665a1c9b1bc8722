//! What focusing or closing an item means: the decisions behind the focus,
//! close and duplicate-cleanup commands, as steps the desktop shell carries
//! out.

use crate::duplicate::find_duplicates;
use crate::explorer::{can_close_explorer_window, explorer_tabs_on};
use crate::platform::{items_view, DuplicateGroup, ItemType, ItemView, TrackedItem};
use crate::text::{chars_eq, chars_of, string_of};
use vstd::prelude::*;

verus! {

/// How one item is closed.
#[derive(Debug, Clone, PartialEq)]
pub enum CloseAction {
    /// A browser tab, through the extension or DevTools channel.
    BrowserTab { item_id: String },
    /// One tab of a multi-tab Explorer window (closing the shared window
    /// handle would kill its sibling tabs).
    ExplorerTab { hwnd: i64, title: String },
    /// A window, through its handle.
    Window { hwnd: i64 },
    /// Nothing can close it (no handle).
    Nothing,
}

/// `a` is how `item` is closed when `all` is the tracked list.
pub open spec fn is_close_action(a: CloseAction, item: ItemView, all: Seq<ItemView>) -> bool {
    if item.item_type == ItemType::BrowserTab {
        a matches CloseAction::BrowserTab { item_id } && item_id@ == item.id
    } else {
        match item.window_handle {
            Some(h) => if item.item_type == ItemType::ExplorerWindow && !(explorer_tabs_on(all, h)
                <= 1) {
                a matches CloseAction::ExplorerTab { hwnd, title } && hwnd == h && title@
                    == item.title
            } else {
                a == CloseAction::Window { hwnd: h }
            },
            None => a == CloseAction::Nothing,
        }
    }
}

/// How to close `item`: browser tabs through their channel, Explorer tabs
/// of multi-tab windows one by one, other windows by handle.
pub fn close_action(item: &TrackedItem, all: &[TrackedItem]) -> (r: CloseAction)
    ensures
        is_close_action(r, item@, items_view(all@)),
{
    match item.item_type {
        ItemType::BrowserTab => CloseAction::BrowserTab { item_id: item.id.clone() },
        _ => match item.window_handle {
            Some(h) => {
                let explorer = match item.item_type {
                    ItemType::ExplorerWindow => true,
                    _ => false,
                };
                if explorer && !can_close_explorer_window(h, all) {
                    CloseAction::ExplorerTab { hwnd: h, title: item.title.clone() }
                } else {
                    CloseAction::Window { hwnd: h }
                }
            },
            None => CloseAction::Nothing,
        },
    }
}

/// One item to close (its row is deleted afterwards in any case).
#[derive(Debug, Clone, PartialEq)]
pub struct CloseStep {
    pub item_id: String,
    pub action: CloseAction,
}

/// The cleanup of one duplicate group.
#[derive(Debug, Clone, PartialEq)]
pub struct GroupClose {
    pub group_id: String,
    pub steps: Vec<CloseStep>,
}

/// `keep_ids` names items to keep explicitly (a non-empty list).
pub open spec fn explicit_keeps(keep_ids: Option<Seq<Seq<char>>>) -> bool {
    keep_ids matches Some(k) && k.len() > 0
}

/// Whether the `i`-th item of a group stays open: an explicitly kept item,
/// or without an explicit list the first item.
pub open spec fn kept(item: ItemView, i: int, keep_ids: Option<Seq<Seq<char>>>) -> bool {
    if explicit_keeps(keep_ids) {
        keep_ids->0.contains(item.id)
    } else {
        i == 0
    }
}

/// `steps` close every item of `group` that is not kept, in group order.
pub open spec fn group_steps(
    group: Seq<ItemView>,
    steps: Seq<CloseStep>,
    all: Seq<ItemView>,
    keep_ids: Option<Seq<Seq<char>>>,
) -> bool
    decreases group.len(),
{
    if group.len() == 0 {
        steps.len() == 0
    } else {
        let i = group.len() - 1;
        let it = group.last();
        if kept(it, i, keep_ids) {
            group_steps(group.drop_last(), steps, all, keep_ids)
        } else {
            steps.len() > 0 && steps.last().item_id@ == it.id && is_close_action(
                steps.last().action,
                it,
                all,
            ) && group_steps(group.drop_last(), steps.drop_last(), all, keep_ids)
        }
    }
}

/// Without an explicit keep list, cleaning a group keeps its first item
/// open and closes all the others, in group order.
pub proof fn lemma_first_item_kept(
    group: Seq<ItemView>,
    steps: Seq<CloseStep>,
    all: Seq<ItemView>,
    keep_ids: Option<Seq<Seq<char>>>,
)
    requires
        !explicit_keeps(keep_ids),
        group.len() > 0,
        group_steps(group, steps, all, keep_ids),
    ensures
        steps.len() == group.len() - 1,
        forall|k: int| 0 <= k < steps.len() ==> (#[trigger] steps[k]).item_id@ == group[k + 1].id,
    decreases group.len(),
{
    let n = group.len() - 1;
    if n == 0 {
        assert(kept(group.last(), n, keep_ids));
        assert(group_steps(group.drop_last(), steps, all, keep_ids));
    } else {
        assert(!kept(group.last(), n, keep_ids));
        let rest = steps.drop_last();
        lemma_first_item_kept(group.drop_last(), rest, all, keep_ids);
        assert forall|k: int| 0 <= k < steps.len() implies (#[trigger] steps[k]).item_id@ == group[k
            + 1].id by {
            if k < rest.len() {
                assert(rest[k] == steps[k]);
                assert(group.drop_last()[k + 1] == group[k + 1]);
            }
        }
    }
}

/// A group is selected by its id or by its key (stable across recomputes).
pub open spec fn selected(g: DuplicateGroup, group_ids: Seq<Seq<char>>) -> bool {
    group_ids.contains(g.id@) || group_ids.contains(g.match_pattern@)
}

/// `plan` is the cleanup of the selected groups, in group order.
pub open spec fn cleanup_plan(
    groups: Seq<DuplicateGroup>,
    plan: Seq<GroupClose>,
    all: Seq<ItemView>,
    group_ids: Seq<Seq<char>>,
    keep_ids: Option<Seq<Seq<char>>>,
) -> bool
    decreases groups.len(),
{
    if groups.len() == 0 {
        plan.len() == 0
    } else {
        let g = groups.last();
        if selected(g, group_ids) {
            plan.len() > 0 && plan.last().group_id == g.id && group_steps(
                items_view(g.items@),
                plan.last().steps@,
                all,
                keep_ids,
            ) && cleanup_plan(groups.drop_last(), plan.drop_last(), all, group_ids, keep_ids)
        } else {
            cleanup_plan(groups.drop_last(), plan, all, group_ids, keep_ids)
        }
    }
}

fn listed(ids: &Vec<String>, id: &str) -> (r: bool)
    ensures
        r == crate::platform::strings_view(ids@).contains(id@),
{
    let v = chars_of(id);
    let mut i: usize = 0;
    while i < ids.len()
        invariant
            i <= ids@.len(),
            v@ == id@,
            forall|j: int| 0 <= j < i ==> ids@[j]@ != id@,
        decreases ids.len() - i,
    {
        if chars_eq(&chars_of(ids[i].as_str()), &v) {
            assert(crate::platform::strings_view(ids@)[i as int] == id@);
            return true;
        }
        i += 1;
    }
    assert forall|j: int|
        0 <= j < crate::platform::strings_view(ids@).len() implies crate::platform::strings_view(
        ids@,
    )[j] != id@ by {
        assert(crate::platform::strings_view(ids@)[j] == ids@[j]@);
    }
    false
}

/// The view of an optional list of strings.
pub open spec fn opt_strings(o: Option<Vec<String>>) -> Option<Seq<Seq<char>>> {
    match o {
        Some(v) => Some(crate::platform::strings_view(v@)),
        None => None,
    }
}

/// Steps that close the duplicates of the groups selected by `group_ids`
/// (by id or key). `keep_ids`, when it names any item, lists the items to
/// keep; otherwise each group keeps its first item. `all` is the full
/// tracked list (an Explorer tab is closed alone when its window has other
/// tabs).
pub fn plan_cleanup(
    groups: &Vec<DuplicateGroup>,
    all: &[TrackedItem],
    group_ids: &Vec<String>,
    keep_ids: &Option<Vec<String>>,
) -> (r: Vec<GroupClose>)
    ensures
        cleanup_plan(
            groups@,
            r@,
            items_view(all@),
            crate::platform::strings_view(group_ids@),
            opt_strings(*keep_ids),
        ),
{
    let explicit = match keep_ids {
        Some(k) => k.len() > 0,
        None => false,
    };
    let ghost keeps = opt_strings(*keep_ids);
    let ghost gids = crate::platform::strings_view(group_ids@);
    let ghost av = items_view(all@);
    let mut plan: Vec<GroupClose> = Vec::new();
    let mut g: usize = 0;
    assert(groups@.subrange(0, 0) =~= Seq::<DuplicateGroup>::empty());
    while g < groups.len()
        invariant
            g <= groups@.len(),
            explicit == explicit_keeps(keeps),
            keeps == opt_strings(*keep_ids),
            gids == crate::platform::strings_view(group_ids@),
            av == items_view(all@),
            cleanup_plan(groups@.subrange(0, g as int), plan@, av, gids, keeps),
        decreases groups.len() - g,
    {
        let group = &groups[g];
        let ghost gsub = groups@.subrange(0, g + 1);
        assert(gsub.drop_last() =~= groups@.subrange(0, g as int));
        if listed(group_ids, group.id.as_str()) || listed(group_ids, group.match_pattern.as_str()) {
            let ghost gv = items_view(group.items@);
            let mut steps: Vec<CloseStep> = Vec::new();
            let mut i: usize = 0;
            assert(gv.subrange(0, 0) =~= Seq::<ItemView>::empty());
            while i < group.items.len()
                invariant
                    i <= group.items@.len(),
                    gv == items_view(group.items@),
                    explicit == explicit_keeps(keeps),
                    keeps == opt_strings(*keep_ids),
                    av == items_view(all@),
                    group_steps(gv.subrange(0, i as int), steps@, av, keeps),
                decreases group.items.len() - i,
            {
                let item = &group.items[i];
                let ghost sub = gv.subrange(0, i + 1);
                assert(sub.drop_last() =~= gv.subrange(0, i as int));
                assert(sub.last() == item@);
                let keep = if explicit {
                    match keep_ids {
                        Some(k) => listed(k, item.id.as_str()),
                        None => false,
                    }
                } else {
                    i == 0
                };
                if !keep {
                    let action = close_action(item, all);
                    let ghost before = steps@;
                    steps.push(CloseStep { item_id: item.id.clone(), action });
                    assert(steps@.drop_last() =~= before);
                }
                i += 1;
            }
            assert(gv.subrange(0, group.items@.len() as int) =~= gv);
            let ghost before_plan = plan@;
            plan.push(GroupClose { group_id: group.id.clone(), steps });
            assert(plan@.drop_last() =~= before_plan);
        }
        g += 1;
    }
    assert(groups@.subrange(0, groups@.len() as int) =~= groups@);
    plan
}

/// Close the duplicates of the selected groups: groups are recomputed from
/// the live list (each gets a fresh id, so a caller selects by key), then
/// planned as `plan_cleanup` does.
pub fn close_duplicates_plan(
    all: &Vec<TrackedItem>,
    group_ids: &Vec<String>,
    keep_ids: &Option<Vec<String>>,
) -> (r: Vec<GroupClose>)
    ensures
        exists|groups: Seq<DuplicateGroup>|
            crate::duplicate::duplicate_groups_of(items_view(all@), groups) && cleanup_plan(
                groups,
                r@,
                items_view(all@),
                crate::platform::strings_view(group_ids@),
                opt_strings(*keep_ids),
            ),
{
    let groups = find_duplicates(all.as_slice());
    plan_cleanup(&groups, all.as_slice(), group_ids, keep_ids)
}

/// Position of the first item with the given id.
pub open spec fn first_with_id(items: Seq<ItemView>, id: Seq<char>) -> Option<int> {
    if exists|i: int| 0 <= i < items.len() && items[i].id == id && forall|j: int|
        0 <= j < i ==> items[j].id != id {
        Some(
            choose|i: int|
                0 <= i < items.len() && items[i].id == id && forall|j: int|
                    0 <= j < i ==> items[j].id != id,
        )
    } else {
        None
    }
}

fn find_item(items: &[TrackedItem], id: &str) -> (r: Option<usize>)
    ensures
        match r {
            Some(i) => first_with_id(items_view(items@), id@) == Some(i as int),
            None => first_with_id(items_view(items@), id@) is None,
        },
{
    let v = chars_of(id);
    let ghost av = items_view(items@);
    let mut i: usize = 0;
    while i < items.len()
        invariant
            i <= items@.len(),
            v@ == id@,
            av == items_view(items@),
            forall|j: int| 0 <= j < i ==> av[j].id != id@,
        decreases items.len() - i,
    {
        if chars_eq(&chars_of(items[i].id.as_str()), &v) {
            proof {
                assert(av[i as int].id == id@);
                let k = choose|k: int|
                    0 <= k < av.len() && av[k].id == id@ && forall|j: int|
                        0 <= j < k ==> av[j].id != id@;
                assert(k == i) by {
                    if k < i {
                    } else if k > i {
                    }
                }
            }
            return Some(i);
        }
        i += 1;
    }
    None
}

/// Closing a single item by id: the close step of the first tracked item
/// with that id, or `None` when no item has it.
pub fn close_window_plan(items: &[TrackedItem], item_id: &str) -> (r: Option<CloseStep>)
    ensures
        match first_with_id(items_view(items@), item_id@) {
            Some(i) => r matches Some(step) && step.item_id@ == item_id@ && is_close_action(
                step.action,
                items_view(items@)[i],
                items_view(items@),
            ),
            None => r is None,
        },
{
    match find_item(items, item_id) {
        Some(i) => {
            let action = close_action(&items[i], items);
            Some(CloseStep { item_id: string_of(&chars_of(item_id)), action })
        },
        None => None,
    }
}

/// Where focusing an item goes.
#[derive(Debug, Clone, PartialEq)]
pub enum FocusTarget {
    /// A browser tab: activate it through its channel; failing that, bring
    /// up the main window of its browser process.
    Tab { item_id: String, process_name: String },
    /// A window by handle.
    Window { hwnd: i64 },
    /// No such item, or nothing to focus it by.
    NotFound,
}

/// Focusing an item by id: the first tracked item with that id, by its
/// kind.
pub fn focus_target(items: &[TrackedItem], item_id: &str) -> (r: FocusTarget)
    ensures
        match first_with_id(items_view(items@), item_id@) {
            Some(i) => {
                let it = items_view(items@)[i];
                if it.item_type == ItemType::BrowserTab {
                    r matches FocusTarget::Tab { item_id: id, process_name } && id@ == it.id
                        && process_name@ == it.process_name
                } else {
                    match it.window_handle {
                        Some(h) => r == FocusTarget::Window { hwnd: h },
                        None => r == FocusTarget::NotFound,
                    }
                }
            },
            None => r == FocusTarget::NotFound,
        },
{
    match find_item(items, item_id) {
        Some(i) => {
            let it = &items[i];
            match it.item_type {
                ItemType::BrowserTab => FocusTarget::Tab {
                    item_id: it.id.clone(),
                    process_name: it.process_name.clone(),
                },
                _ => match it.window_handle {
                    Some(h) => FocusTarget::Window { hwnd: h },
                    None => FocusTarget::NotFound,
                },
            }
        },
        None => FocusTarget::NotFound,
    }
}

} // verus!
