//! The rules behind the stored data: how rows become the item list every
//! view reads (task assignments and notes attached by resource key, ignored
//! resources left out), the search pattern, task and overview counts, and
//! what a fresh scan carries over or prunes. The SQL itself runs outside.

use crate::duplicate::{resource_key, resource_key_of};
use crate::order::{sort_items, sorted_items, stable_sorted_items};
use crate::platform::{is_uuid_text, items_view, new_uuid_text, strings_view, ItemType, ItemView, Stats, Task, TrackedItem};
use crate::text::{chars_eq, chars_of, non_blank, string_of, trim};
use vstd::prelude::*;

verus! {

broadcast use vstd::seq_lib::group_to_multiset_ensures;

// ─── Task ids ───────────────────────────────────────────────

/// The id of a new task: a fresh random hyphenated UUID.
pub fn new_task_id() -> (r: String)
    ensures
        is_uuid_text(r@),
{
    new_uuid_text()
}

// ─── Search pattern ─────────────────────────────────────────

/// LIKE escaping: `\`, `%` and `_` each get a `\` in front.
pub open spec fn like_escaped(s: Seq<char>) -> Seq<char>
    decreases s.len(),
{
    if s.len() == 0 {
        s
    } else {
        let c = s.last();
        like_escaped(s.drop_last()) + (if c == '\\' || c == '%' || c == '_' {
            seq!['\\', c]
        } else {
            seq![c]
        })
    }
}

/// The LIKE pattern matching the query anywhere, with wildcards in the query
/// taken literally.
pub fn like_pattern(query: &str) -> (r: String)
    ensures
        r@ == seq!['%'] + like_escaped(query@) + seq!['%'],
{
    let q = chars_of(query);
    let mut out: Vec<char> = Vec::new();
    out.push('%');
    let mut i: usize = 0;
    assert(q@.subrange(0, 0) =~= Seq::<char>::empty());
    while i < q.len()
        invariant
            i <= q@.len(),
            out@ == seq!['%'] + like_escaped(q@.subrange(0, i as int)),
        decreases q.len() - i,
    {
        let c = q[i];
        let ghost sub = q@.subrange(0, i + 1);
        assert(sub.drop_last() =~= q@.subrange(0, i as int));
        if c == '\\' || c == '%' || c == '_' {
            out.push('\\');
        }
        out.push(c);
        assert(out@ =~= seq!['%'] + like_escaped(sub));
        i += 1;
    }
    assert(q@.subrange(0, q@.len() as int) =~= q@);
    out.push('%');
    string_of(&out)
}

// ─── Notes ──────────────────────────────────────────────────

/// The note to store for a resource: the text trimmed; `None` (a blank
/// text) clears the note.
pub fn note_update(note: &str) -> (r: Option<String>)
    ensures
        match r {
            Some(t) => t@ == trim(note@) && t@.len() > 0,
            None => trim(note@).len() == 0,
        },
{
    non_blank(note)
}

// ─── Hydration ──────────────────────────────────────────────

/// Task ids assigned to a resource key, in assignment order.
pub open spec fn task_ids_for(assigns: Seq<(String, String)>, key: Seq<char>) -> Seq<Seq<char>>
    decreases assigns.len(),
{
    if assigns.len() == 0 {
        Seq::<Seq<char>>::empty()
    } else {
        let pre = task_ids_for(assigns.drop_last(), key);
        if assigns.last().0@ == key {
            pre.push(assigns.last().1@)
        } else {
            pre
        }
    }
}

/// The note stored for a resource key (the last row for it).
pub open spec fn note_for(notes: Seq<(String, String)>, key: Seq<char>) -> Option<Seq<char>>
    decreases notes.len(),
{
    if notes.len() == 0 {
        None
    } else if notes.last().0@ == key {
        Some(notes.last().1@)
    } else {
        note_for(notes.drop_last(), key)
    }
}

/// An item with its assigned task ids and its note, by resource key.
pub open spec fn annotated(
    item: ItemView,
    assigns: Seq<(String, String)>,
    notes: Seq<(String, String)>,
) -> ItemView {
    let key = resource_key_of(item);
    let ids = task_ids_for(assigns, key);
    ItemView {
        task_ids: if ids.len() > 0 {
            ids
        } else {
            item.task_ids
        },
        note: match note_for(notes, key) {
            Some(n) => Some(n),
            None => item.note,
        },
        ..item
    }
}

/// The items every view reads: ignored resources left out, the others with
/// task ids and note attached, in stored order.
pub open spec fn hydrated(
    items: Seq<ItemView>,
    assigns: Seq<(String, String)>,
    notes: Seq<(String, String)>,
    ignored: Seq<Seq<char>>,
) -> Seq<ItemView>
    decreases items.len(),
{
    if items.len() == 0 {
        Seq::<ItemView>::empty()
    } else {
        let pre = hydrated(items.drop_last(), assigns, notes, ignored);
        if ignored.contains(resource_key_of(items.last())) {
            pre
        } else {
            pre.push(annotated(items.last(), assigns, notes))
        }
    }
}

/// Ignored resources stay out of every view: no hydrated item has an
/// ignored resource key, and every hydrated item is a stored item with only
/// its task ids and note filled in.
pub proof fn lemma_ignored_stay_hidden(
    items: Seq<ItemView>,
    assigns: Seq<(String, String)>,
    notes: Seq<(String, String)>,
    ignored: Seq<Seq<char>>,
    i: int,
)
    requires
        0 <= i < hydrated(items, assigns, notes, ignored).len(),
    ensures
        !ignored.contains(resource_key_of(hydrated(items, assigns, notes, ignored)[i])),
        exists|j: int|
            0 <= j < items.len() && hydrated(items, assigns, notes, ignored)[i] == annotated(
                items[j],
                assigns,
                notes,
            ),
    decreases items.len(),
{
    let pre = hydrated(items.drop_last(), assigns, notes, ignored);
    if i < pre.len() {
        lemma_ignored_stay_hidden(items.drop_last(), assigns, notes, ignored, i);
        let j = choose|j: int|
            0 <= j < items.drop_last().len() && pre[i] == annotated(
                items.drop_last()[j],
                assigns,
                notes,
            );
        assert(items[j] == items.drop_last()[j]);
    } else {
        let it = items.last();
        assert(resource_key_of(annotated(it, assigns, notes)) == resource_key_of(it));
        assert(items[items.len() - 1] == it);
    }
}

fn task_ids_of(assigns: &Vec<(String, String)>, key: &Vec<char>) -> (r: Vec<String>)
    ensures
        strings_view(r@) == task_ids_for(assigns@, key@),
{
    let mut r: Vec<String> = Vec::new();
    let mut i: usize = 0;
    assert(assigns@.subrange(0, 0) =~= Seq::<(String, String)>::empty());
    while i < assigns.len()
        invariant
            i <= assigns@.len(),
            strings_view(r@) == task_ids_for(assigns@.subrange(0, i as int), key@),
        decreases assigns.len() - i,
    {
        let ghost sub = assigns@.subrange(0, i + 1);
        assert(sub.drop_last() =~= assigns@.subrange(0, i as int));
        if chars_eq(&chars_of(assigns[i].0.as_str()), key) {
            let ghost before = strings_view(r@);
            r.push(assigns[i].1.clone());
            assert(strings_view(r@) =~= before.push(assigns@[i as int].1@));
        }
        i += 1;
    }
    assert(assigns@.subrange(0, assigns@.len() as int) =~= assigns@);
    r
}

fn note_of(notes: &Vec<(String, String)>, key: &Vec<char>) -> (r: Option<String>)
    ensures
        crate::platform::opt_view(r) == note_for(notes@, key@),
{
    let mut i: usize = notes.len();
    assert(notes@.subrange(0, notes@.len() as int) =~= notes@);
    while i > 0
        invariant
            i <= notes@.len(),
            note_for(notes@, key@) == note_for(notes@.subrange(0, i as int), key@),
        decreases i,
    {
        let ghost sub = notes@.subrange(0, i as int);
        assert(sub.drop_last() =~= notes@.subrange(0, i - 1));
        if chars_eq(&chars_of(notes[i - 1].0.as_str()), key) {
            return Some(notes[i - 1].1.clone());
        }
        i -= 1;
    }
    None
}

fn key_listed(keys: &Vec<String>, key: &Vec<char>) -> (r: bool)
    ensures
        r == strings_view(keys@).contains(key@),
{
    let mut i: usize = 0;
    while i < keys.len()
        invariant
            i <= keys@.len(),
            forall|j: int| 0 <= j < i ==> keys@[j]@ != key@,
        decreases keys.len() - i,
    {
        if chars_eq(&chars_of(keys[i].as_str()), key) {
            assert(strings_view(keys@)[i as int] == key@);
            return true;
        }
        i += 1;
    }
    assert forall|j: int| 0 <= j < strings_view(keys@).len() implies strings_view(keys@)[j] != key@ by {
        assert(strings_view(keys@)[j] == keys@[j]@);
    }
    false
}

/// Post-process stored rows into the list every consumer (list,
/// duplicates, search, stats) reads: drop ignored resources, attach task
/// assignments and notes, both matched by resource key.
pub fn hydrate_items(
    items: Vec<TrackedItem>,
    assigns: &Vec<(String, String)>,
    notes: &Vec<(String, String)>,
    ignored: &Vec<String>,
) -> (r: Vec<TrackedItem>)
    ensures
        items_view(r@) == hydrated(items_view(items@), assigns@, notes@, strings_view(ignored@)),
{
    let ghost all = items_view(items@);
    let mut out: Vec<TrackedItem> = Vec::new();
    let mut i: usize = 0;
    assert(all.subrange(0, 0) =~= Seq::<ItemView>::empty());
    while i < items.len()
        invariant
            i <= items@.len(),
            all == items_view(items@),
            items_view(out@) == hydrated(all.subrange(0, i as int), assigns@, notes@, strings_view(ignored@)),
        decreases items.len() - i,
    {
        let ghost sub = all.subrange(0, i + 1);
        assert(sub.drop_last() =~= all.subrange(0, i as int));
        assert(sub.last() == items@[i as int]@);
        let key_s = resource_key(&items[i]);
        let key = chars_of(key_s.as_str());
        if !key_listed(ignored, &key) {
            let mut it = items[i].copy();
            let ids = task_ids_of(assigns, &key);
            if ids.len() > 0 {
                it.task_ids = ids;
            }
            match note_of(notes, &key) {
                Some(n) => {
                    it.note = Some(n);
                },
                None => {},
            }
            let ghost before = items_view(out@);
            assert(it@ =~= annotated(items@[i as int]@, assigns@, notes@));
            out.push(it);
            assert(items_view(out@) =~= before.push(it@));
        }
        i += 1;
    }
    assert(all.subrange(0, items@.len() as int) =~= all);
    out
}

// ─── Tasks ──────────────────────────────────────────────────

/// Number of assignments of `task_id` whose resource is among `live_keys`.
pub open spec fn live_assignments(
    assigns: Seq<(String, String)>,
    task_id: Seq<char>,
    live_keys: Seq<Seq<char>>,
) -> nat
    decreases assigns.len(),
{
    if assigns.len() == 0 {
        0
    } else {
        live_assignments(assigns.drop_last(), task_id, live_keys) + (if assigns.last().0@
            == task_id && live_keys.contains(assigns.last().1@) {
            1nat
        } else {
            0nat
        })
    }
}

/// A stored task row: id, name, color, sort order.
#[derive(Debug, Clone)]
pub struct TaskRow {
    pub id: String,
    pub name: String,
    pub color: String,
    pub sort_order: i32,
}

/// Tasks with their live item counts: for each task row (in row order), the
/// number of its assignments (`(task_id, resource_key)`) whose resource is
/// open among `items`.
pub fn tasks_with_counts(
    rows: &Vec<TaskRow>,
    assigns: &Vec<(String, String)>,
    items: &Vec<TrackedItem>,
) -> (r: Vec<Task>)
    ensures
        r@.len() == rows@.len(),
        forall|i: int|
            0 <= i < r@.len() ==> {
                let t = #[trigger] r@[i];
                &&& t.id == rows@[i].id
                &&& t.name == rows@[i].name
                &&& t.color == rows@[i].color
                &&& t.sort_order == rows@[i].sort_order
                &&& t.item_count == Some(
                    live_assignments(
                        assigns@,
                        rows@[i].id@,
                        items_view(items@).map_values(|v: ItemView| resource_key_of(v)),
                    ) as i32,
                )
            },
{
    let ghost live = items_view(items@).map_values(|v: ItemView| resource_key_of(v));
    let mut keys: Vec<String> = Vec::new();
    let mut k: usize = 0;
    while k < items.len()
        invariant
            k <= items@.len(),
            live == items_view(items@).map_values(|v: ItemView| resource_key_of(v)),
            strings_view(keys@) == live.subrange(0, k as int),
        decreases items.len() - k,
    {
        let key = resource_key(&items[k]);
        let ghost before = strings_view(keys@);
        let ghost kv = key@;
        keys.push(key);
        assert(live[k as int] == resource_key_of(items@[k as int]@));
        assert(strings_view(keys@) =~= before.push(kv));
        assert(strings_view(keys@) =~= live.subrange(0, k + 1));
        k += 1;
    }
    assert(live.subrange(0, items@.len() as int) =~= live);
    let mut r: Vec<Task> = Vec::new();
    let mut i: usize = 0;
    while i < rows.len()
        invariant
            i <= rows@.len(),
            r@.len() == i,
            strings_view(keys@) == live,
            live == items_view(items@).map_values(|v: ItemView| resource_key_of(v)),
            forall|j: int|
                0 <= j < i ==> {
                    let t = #[trigger] r@[j];
                    &&& t.id == rows@[j].id
                    &&& t.name == rows@[j].name
                    &&& t.color == rows@[j].color
                    &&& t.sort_order == rows@[j].sort_order
                    &&& t.item_count == Some(live_assignments(assigns@, rows@[j].id@, live) as i32)
                },
        decreases rows.len() - i,
    {
        let row = &rows[i];
        let id = chars_of(row.id.as_str());
        let mut count: usize = 0;
        let mut a: usize = 0;
        assert(assigns@.subrange(0, 0) =~= Seq::<(String, String)>::empty());
        while a < assigns.len()
            invariant
                a <= assigns@.len(),
                count <= a,
                strings_view(keys@) == live,
                id@ == rows@[i as int].id@,
                count == live_assignments(assigns@.subrange(0, a as int), id@, live),
            decreases assigns.len() - a,
        {
            let ghost sub = assigns@.subrange(0, a + 1);
            assert(sub.drop_last() =~= assigns@.subrange(0, a as int));
            if chars_eq(&chars_of(assigns[a].0.as_str()), &id) && key_listed(
                &keys,
                &chars_of(assigns[a].1.as_str()),
            ) {
                count += 1;
            }
            a += 1;
        }
        assert(assigns@.subrange(0, assigns@.len() as int) =~= assigns@);
        #[verifier::truncate]
        let c = count as i32;
        r.push(
            Task {
                id: row.id.clone(),
                name: row.name.clone(),
                color: row.color.clone(),
                sort_order: row.sort_order,
                item_count: Some(c),
            },
        );
        i += 1;
    }
    r
}

/// Live items of a task: the first (most recent) item of each resource
/// assigned to it.
pub open spec fn task_items_of(items: Seq<ItemView>, keys: Seq<Seq<char>>) -> Seq<ItemView>
    decreases items.len(),
{
    if items.len() == 0 {
        Seq::<ItemView>::empty()
    } else {
        let pre = task_items_of(items.drop_last(), keys);
        let k = resource_key_of(items.last());
        if keys.contains(k) && !pre.map_values(|v: ItemView| resource_key_of(v)).contains(k) {
            pre.push(items.last())
        } else {
            pre
        }
    }
}

/// A task shows each resource once: the items of `task_items_of` have
/// pairwise different resource keys, each one assigned to the task.
pub proof fn lemma_task_items_one_per_resource(
    items: Seq<ItemView>,
    keys: Seq<Seq<char>>,
    i: int,
    j: int,
)
    requires
        0 <= i < j < task_items_of(items, keys).len(),
    ensures
        resource_key_of(task_items_of(items, keys)[i]) != resource_key_of(
            task_items_of(items, keys)[j],
        ),
        keys.contains(resource_key_of(task_items_of(items, keys)[j])),
    decreases items.len(),
{
    let pre = task_items_of(items.drop_last(), keys);
    if j < pre.len() {
        lemma_task_items_one_per_resource(items.drop_last(), keys, i, j);
    } else {
        let k = resource_key_of(items.last());
        let mapped = pre.map_values(|v: ItemView| resource_key_of(v));
        assert(mapped[i] == resource_key_of(pre[i]));
    }
}

/// A task shows every live resource assigned to it: each item whose
/// resource key is among the task's keys has its resource in the task's
/// items, and each of those items is a live item.
pub proof fn lemma_task_items_complete(items: Seq<ItemView>, keys: Seq<Seq<char>>, j: int)
    requires
        0 <= j < items.len(),
        keys.contains(resource_key_of(items[j])),
    ensures
        exists|m: int|
            0 <= m < task_items_of(items, keys).len() && resource_key_of(
                #[trigger] task_items_of(items, keys)[m],
            ) == resource_key_of(items[j]) && items.contains(task_items_of(items, keys)[m]),
    decreases items.len(),
{
    let pre = task_items_of(items.drop_last(), keys);
    let r = task_items_of(items, keys);
    let k = resource_key_of(items[j]);
    assert(forall|m: int| 0 <= m < pre.len() ==> r[m] == pre[m]);
    if j < items.len() - 1 {
        assert(items.drop_last()[j] == items[j]);
        lemma_task_items_complete(items.drop_last(), keys, j);
        let m = choose|m: int|
            0 <= m < pre.len() && resource_key_of(#[trigger] pre[m]) == k && items.drop_last().contains(
                pre[m],
            );
        assert(r[m] == pre[m]);
        let z = choose|z: int| 0 <= z < items.drop_last().len() && items.drop_last()[z] == pre[m];
        assert(items[z] == pre[m]);
    } else {
        assert(items.last() == items[j]);
        let mapped = pre.map_values(|v: ItemView| resource_key_of(v));
        if mapped.contains(k) {
            let m = choose|m: int| 0 <= m < mapped.len() && mapped[m] == k;
            assert(mapped[m] == resource_key_of(pre[m]));
            lemma_task_items_from(items.drop_last(), keys, m);
            let z = choose|z: int| 0 <= z < items.drop_last().len() && items.drop_last()[z] == pre[m];
            assert(items[z] == pre[m]);
            assert(r[m] == pre[m]);
        } else {
            assert(r[pre.len() as int] == items[j]);
        }
    }
}

/// The items of a task are live items.
proof fn lemma_task_items_from(items: Seq<ItemView>, keys: Seq<Seq<char>>, m: int)
    requires
        0 <= m < task_items_of(items, keys).len(),
    ensures
        items.contains(task_items_of(items, keys)[m]),
    decreases items.len(),
{
    let pre = task_items_of(items.drop_last(), keys);
    if m < pre.len() {
        lemma_task_items_from(items.drop_last(), keys, m);
        let z = choose|z: int| 0 <= z < items.drop_last().len() && items.drop_last()[z] == pre[m];
        assert(items[z] == pre[m]);
        assert(task_items_of(items, keys)[m] == pre[m]);
    } else {
        assert(items[items.len() - 1] == items.last());
    }
}

/// Items of a task: live items whose resource is assigned to it (`keys`),
/// one per resource (duplicate instances would flood the task view); items
/// come most recent first, so the first instance is kept.
pub fn task_items(items: &Vec<TrackedItem>, keys: &Vec<String>) -> (r: Vec<TrackedItem>)
    ensures
        items_view(r@) == task_items_of(items_view(items@), strings_view(keys@)),
{
    let ghost all = items_view(items@);
    let mut out: Vec<TrackedItem> = Vec::new();
    let mut seen: Vec<String> = Vec::new();
    let mut i: usize = 0;
    assert(all.subrange(0, 0) =~= Seq::<ItemView>::empty());
    while i < items.len()
        invariant
            i <= items@.len(),
            all == items_view(items@),
            items_view(out@) == task_items_of(all.subrange(0, i as int), strings_view(keys@)),
            strings_view(seen@) == items_view(out@).map_values(|v: ItemView| resource_key_of(v)),
        decreases items.len() - i,
    {
        let ghost sub = all.subrange(0, i + 1);
        assert(sub.drop_last() =~= all.subrange(0, i as int));
        assert(sub.last() == items@[i as int]@);
        let key_s = resource_key(&items[i]);
        let key = chars_of(key_s.as_str());
        if key_listed(keys, &key) && !key_listed(&seen, &key) {
            let ghost before = items_view(out@);
            let ghost before_seen = strings_view(seen@);
            let ghost kv = key_s@;
            out.push(items[i].copy());
            seen.push(key_s);
            assert(items_view(out@) =~= before.push(items@[i as int]@));
            assert(strings_view(seen@) =~= before_seen.push(kv));
            assert(items_view(out@).map_values(|v: ItemView| resource_key_of(v)) =~= before.map_values(|v: ItemView| resource_key_of(v)).push(resource_key_of(items@[i as int]@)));
        }
        i += 1;
    }
    assert(all.subrange(0, items@.len() as int) =~= all);
    out
}

// ─── Statistics ─────────────────────────────────────────────

/// Number of items of one kind.
pub open spec fn count_kind(items: Seq<ItemView>, kind: ItemType) -> nat
    decreases items.len(),
{
    if items.len() == 0 {
        0
    } else {
        count_kind(items.drop_last(), kind) + (if items.last().item_type == kind {
            1nat
        } else {
            0nat
        })
    }
}

/// Overview numbers from the (ignore-filtered) item list, the number of
/// tasks and the number of redundant duplicates.
pub fn stats_of(items: &Vec<TrackedItem>, tasks: i64, duplicates: i64) -> (r: Stats)
    requires
        items@.len() <= i64::MAX,
    ensures
        r.total_items == items@.len(),
        r.duplicate_count == duplicates,
        r.browser_tabs == count_kind(items_view(items@), ItemType::BrowserTab),
        r.explorer_windows == count_kind(items_view(items@), ItemType::ExplorerWindow),
        r.app_windows == count_kind(items_view(items@), ItemType::AppWindow),
        r.active_tasks == tasks,
{
    let ghost all = items_view(items@);
    let mut browser: i64 = 0;
    let mut explorer: i64 = 0;
    let mut apps: i64 = 0;
    let mut i: usize = 0;
    assert(all.subrange(0, 0) =~= Seq::<ItemView>::empty());
    while i < items.len()
        invariant
            i <= items@.len() <= i64::MAX,
            all == items_view(items@),
            browser == count_kind(all.subrange(0, i as int), ItemType::BrowserTab),
            explorer == count_kind(all.subrange(0, i as int), ItemType::ExplorerWindow),
            apps == count_kind(all.subrange(0, i as int), ItemType::AppWindow),
            browser + explorer + apps == i,
        decreases items.len() - i,
    {
        let ghost sub = all.subrange(0, i + 1);
        assert(sub.drop_last() =~= all.subrange(0, i as int));
        assert(sub.last() == items@[i as int]@);
        match items[i].item_type {
            ItemType::BrowserTab => browser += 1,
            ItemType::ExplorerWindow => explorer += 1,
            ItemType::AppWindow => apps += 1,
        }
        i += 1;
    }
    assert(all.subrange(0, items@.len() as int) =~= all);
    Stats {
        total_items: items.len() as i64,
        duplicate_count: duplicates,
        browser_tabs: browser,
        explorer_windows: explorer,
        app_windows: apps,
        active_tasks: tasks,
    }
}

// ─── Synchronizing a scan ───────────────────────────────────

/// Resource key of the last stored item with this id.
pub open spec fn stored_key(old: Seq<ItemView>, id: Seq<char>) -> Option<Seq<char>>
    decreases old.len(),
{
    if old.len() == 0 {
        None
    } else if old.last().id == id {
        Some(resource_key_of(old.last()))
    } else {
        stored_key(old.drop_last(), id)
    }
}

/// Key moves of a scan, in scan order: (new key, old key) for every scanned
/// item that was stored under the same id with a different resource key.
pub open spec fn migrations_of(old: Seq<ItemView>, new: Seq<ItemView>) -> Seq<(Seq<char>, Seq<char>)>
    decreases new.len(),
{
    if new.len() == 0 {
        Seq::<(Seq<char>, Seq<char>)>::empty()
    } else {
        let pre = migrations_of(old, new.drop_last());
        let it = new.last();
        match stored_key(old, it.id) {
            Some(k) => if k != resource_key_of(it) {
                pre.push((resource_key_of(it), k))
            } else {
                pre
            },
            None => pre,
        }
    }
}

/// The key stored for an id is that of the last stored item with that id.
proof fn lemma_stored_key_last(old: Seq<ItemView>, o: int)
    requires
        0 <= o < old.len(),
        forall|p: int| o < p < old.len() ==> (#[trigger] old[p]).id != old[o].id,
    ensures
        stored_key(old, old[o].id) == Some(resource_key_of(old[o])),
    decreases old.len(),
{
    if o < old.len() - 1 {
        assert(old.last() == old[old.len() - 1]);
        let d = old.drop_last();
        assert forall|p: int| o < p < d.len() implies (#[trigger] d[p]).id != d[o].id by {
            assert(d[p] == old[p]);
        }
        lemma_stored_key_last(d, o);
        assert(d[o] == old[o]);
    }
}

/// A stored key comes from a stored item with that id.
proof fn lemma_stored_key_from(old: Seq<ItemView>, id: Seq<char>)
    requires
        stored_key(old, id) is Some,
    ensures
        exists|o: int|
            0 <= o < old.len() && (#[trigger] old[o]).id == id && stored_key(old, id) == Some(
                resource_key_of(old[o]),
            ),
    decreases old.len(),
{
    if old.last().id != id {
        lemma_stored_key_from(old.drop_last(), id);
        let o = choose|o: int|
            0 <= o < old.drop_last().len() && (#[trigger] old.drop_last()[o]).id == id
                && stored_key(old.drop_last(), id) == Some(resource_key_of(old.drop_last()[o]));
        assert(old[o] == old.drop_last()[o]);
    } else {
        assert(old[old.len() - 1] == old.last());
    }
}

/// Every key change of an open item is carried over, whatever its kind: a
/// scanned item whose id was stored (last) with another resource key
/// yields the move (its key, the stored key).
pub proof fn lemma_migrations_complete(old: Seq<ItemView>, new: Seq<ItemView>, j: int, o: int)
    requires
        0 <= j < new.len(),
        0 <= o < old.len(),
        old[o].id == new[j].id,
        forall|p: int| o < p < old.len() ==> (#[trigger] old[p]).id != old[o].id,
        resource_key_of(old[o]) != resource_key_of(new[j]),
    ensures
        migrations_of(old, new).contains((resource_key_of(new[j]), resource_key_of(old[o]))),
    decreases new.len(),
{
    lemma_stored_key_last(old, o);
    let pre = migrations_of(old, new.drop_last());
    if j < new.len() - 1 {
        assert(new.drop_last()[j] == new[j]);
        lemma_migrations_complete(old, new.drop_last(), j, o);
        let x = choose|x: int|
            0 <= x < pre.len() && pre[x] == (resource_key_of(new[j]), resource_key_of(old[o]));
        assert(migrations_of(old, new)[x] == pre[x]);
    } else {
        assert(new.last() == new[j]);
        let m = migrations_of(old, new);
        assert(m[pre.len() as int] == (resource_key_of(new[j]), resource_key_of(old[o])));
    }
}

/// Every carried-over move is a real key change: some scanned item's key,
/// and the key of a stored item with the same id, and the two differ.
pub proof fn lemma_migrations_sound(old: Seq<ItemView>, new: Seq<ItemView>, x: int)
    requires
        0 <= x < migrations_of(old, new).len(),
    ensures
        exists|j: int, o: int|
            0 <= j < new.len() && 0 <= o < old.len() && (#[trigger] old[o]).id == (#[trigger] new[j]).id
                && migrations_of(old, new)[x] == (resource_key_of(new[j]), resource_key_of(old[o]))
                && resource_key_of(new[j]) != resource_key_of(old[o]),
    decreases new.len(),
{
    let pre = migrations_of(old, new.drop_last());
    if x < pre.len() {
        lemma_migrations_sound(old, new.drop_last(), x);
        let (j, o) = choose|j: int, o: int|
            0 <= j < new.drop_last().len() && 0 <= o < old.len() && (#[trigger] old[o]).id == (
            #[trigger] new.drop_last()[j]).id && pre[x] == (
                resource_key_of(new.drop_last()[j]),
                resource_key_of(old[o]),
            ) && resource_key_of(new.drop_last()[j]) != resource_key_of(old[o]);
        assert(new[j] == new.drop_last()[j]);
        assert(migrations_of(old, new)[x] == pre[x]);
    } else {
        let it = new.last();
        lemma_stored_key_from(old, it.id);
        let o = choose|o: int|
            0 <= o < old.len() && (#[trigger] old[o]).id == it.id && stored_key(old, it.id) == Some(
                resource_key_of(old[o]),
            );
        assert(new[new.len() - 1] == it);
    }
}

fn stored_key_of(old: &Vec<TrackedItem>, id: &Vec<char>) -> (r: Option<String>)
    ensures
        crate::platform::opt_view(r) == stored_key(items_view(old@), id@),
{
    let ghost all = items_view(old@);
    let mut i: usize = old.len();
    assert(all.subrange(0, old@.len() as int) =~= all);
    while i > 0
        invariant
            i <= old@.len(),
            all == items_view(old@),
            stored_key(all, id@) == stored_key(all.subrange(0, i as int), id@),
        decreases i,
    {
        let ghost sub = all.subrange(0, i as int);
        assert(sub.drop_last() =~= all.subrange(0, i - 1));
        assert(sub.last() == old@[i - 1]@);
        if chars_eq(&chars_of(old[i - 1].id.as_str()), id) {
            return Some(resource_key(&old[i - 1]));
        }
        i -= 1;
    }
    None
}

/// Identity migration of a scan: an instance can stay open while its
/// resource key changes (a tab navigating in place, an app window whose
/// title changed). Task assignments and notes keyed by the old key are
/// copied to the new one; this lists the (new key, old key) pairs.
pub fn key_migrations(old: &Vec<TrackedItem>, new: &Vec<TrackedItem>) -> (r: Vec<(String, String)>)
    ensures
        r@.map_values(|p: (String, String)| (p.0@, p.1@)) == migrations_of(items_view(old@), items_view(new@)),
{
    let ghost nv = items_view(new@);
    let mut r: Vec<(String, String)> = Vec::new();
    let mut i: usize = 0;
    assert(nv.subrange(0, 0) =~= Seq::<ItemView>::empty());
    while i < new.len()
        invariant
            i <= new@.len(),
            nv == items_view(new@),
            r@.map_values(|p: (String, String)| (p.0@, p.1@)) == migrations_of(items_view(old@), nv.subrange(0, i as int)),
        decreases new.len() - i,
    {
        let ghost sub = nv.subrange(0, i + 1);
        assert(sub.drop_last() =~= nv.subrange(0, i as int));
        assert(sub.last() == new@[i as int]@);
        let new_key = resource_key(&new[i]);
        match stored_key_of(old, &chars_of(new[i].id.as_str())) {
            Some(old_key) => {
                if !chars_eq(&chars_of(old_key.as_str()), &chars_of(new_key.as_str())) {
                    let ghost before = r@.map_values(|p: (String, String)| (p.0@, p.1@));
                    let ghost pair = (new_key@, old_key@);
                    r.push((new_key, old_key));
                    assert(r@.map_values(|p: (String, String)| (p.0@, p.1@)) =~= before.push(pair));
                }
            },
            None => {},
        }
        i += 1;
    }
    assert(nv.subrange(0, new@.len() as int) =~= nv);
    r
}

/// Notes are kept only while their resource is open: the stored note keys
/// whose resource is not among the scanned items, in stored order.
pub open spec fn stale_keys_of(note_keys: Seq<Seq<char>>, live: Seq<Seq<char>>) -> Seq<Seq<char>>
    decreases note_keys.len(),
{
    if note_keys.len() == 0 {
        note_keys
    } else {
        let pre = stale_keys_of(note_keys.drop_last(), live);
        if live.contains(note_keys.last()) {
            pre
        } else {
            pre.push(note_keys.last())
        }
    }
}

/// The note keys to prune after a scan: those whose resource is no longer
/// open, so a note never outlives its window.
pub fn stale_note_keys(note_keys: &Vec<String>, items: &Vec<TrackedItem>) -> (r: Vec<String>)
    ensures
        strings_view(r@) == stale_keys_of(
            strings_view(note_keys@),
            items_view(items@).map_values(|v: ItemView| resource_key_of(v)),
        ),
{
    let ghost live = items_view(items@).map_values(|v: ItemView| resource_key_of(v));
    let mut keys: Vec<String> = Vec::new();
    let mut k: usize = 0;
    while k < items.len()
        invariant
            k <= items@.len(),
            live == items_view(items@).map_values(|v: ItemView| resource_key_of(v)),
            strings_view(keys@) == live.subrange(0, k as int),
        decreases items.len() - k,
    {
        let key = resource_key(&items[k]);
        let ghost before = strings_view(keys@);
        let ghost kv = key@;
        keys.push(key);
        assert(live[k as int] == resource_key_of(items@[k as int]@));
        assert(strings_view(keys@) =~= before.push(kv));
        assert(strings_view(keys@) =~= live.subrange(0, k + 1));
        k += 1;
    }
    assert(live.subrange(0, items@.len() as int) =~= live);
    let ghost nk = strings_view(note_keys@);
    let mut r: Vec<String> = Vec::new();
    let mut i: usize = 0;
    assert(nk.subrange(0, 0) =~= Seq::<Seq<char>>::empty());
    while i < note_keys.len()
        invariant
            i <= note_keys@.len(),
            nk == strings_view(note_keys@),
            strings_view(keys@) == live,
            strings_view(r@) == stale_keys_of(nk.subrange(0, i as int), live),
        decreases note_keys.len() - i,
    {
        let ghost sub = nk.subrange(0, i + 1);
        assert(sub.drop_last() =~= nk.subrange(0, i as int));
        assert(sub.last() == note_keys@[i as int]@);
        if !key_listed(&keys, &chars_of(note_keys[i].as_str())) {
            let ghost before = strings_view(r@);
            r.push(note_keys[i].clone());
            assert(strings_view(r@) =~= before.push(note_keys@[i as int]@));
        }
        i += 1;
    }
    assert(nk.subrange(0, note_keys@.len() as int) =~= nk);
    r
}

// ─── Note search ────────────────────────────────────────────

/// Stored items not yet among the text matches whose note matched.
pub open spec fn note_hits(
    all: Seq<ItemView>,
    present: Seq<Seq<char>>,
    note_keys: Seq<Seq<char>>,
) -> Seq<ItemView>
    decreases all.len(),
{
    if all.len() == 0 {
        Seq::<ItemView>::empty()
    } else {
        let pre = note_hits(all.drop_last(), present, note_keys);
        let it = all.last();
        if !present.contains(it.id) && note_keys.contains(resource_key_of(it)) {
            pre.push(it)
        } else {
            pre
        }
    }
}

/// Extend text search results with the stored items whose note matched
/// (notes live on resource keys, computed here rather than in the query),
/// without repeating an item, then order most recent first.
pub fn merge_note_matches(
    matches: &Vec<TrackedItem>,
    all: &Vec<TrackedItem>,
    note_keys: &Vec<String>,
) -> (r: Vec<TrackedItem>)
    ensures
        items_view(r@) == stable_sorted_items(
            items_view(matches@) + (if note_keys@.len() == 0 {
                Seq::<ItemView>::empty()
            } else {
                note_hits(
                    items_view(all@),
                    items_view(matches@).map_values(|v: ItemView| v.id),
                    strings_view(note_keys@),
                )
            }),
        ),
        sorted_items(items_view(r@)),
        items_view(r@).to_multiset() == (items_view(matches@) + (if note_keys@.len() == 0 {
            Seq::<ItemView>::empty()
        } else {
            note_hits(
                items_view(all@),
                items_view(matches@).map_values(|v: ItemView| v.id),
                strings_view(note_keys@),
            )
        })).to_multiset(),
{
    let mut combined: Vec<TrackedItem> = Vec::new();
    let mut present: Vec<String> = Vec::new();
    let mut i: usize = 0;
    let ghost mv = items_view(matches@);
    while i < matches.len()
        invariant
            i <= matches@.len(),
            mv == items_view(matches@),
            items_view(combined@) == mv.subrange(0, i as int),
            strings_view(present@) == mv.subrange(0, i as int).map_values(|v: ItemView| v.id),
        decreases matches.len() - i,
    {
        let ghost before_present = strings_view(present@);
        combined.push(matches[i].copy());
        present.push(matches[i].id.clone());
        assert(items_view(combined@) =~= mv.subrange(0, i + 1));
        assert(strings_view(present@) =~= before_present.push(matches@[i as int].id@));
        assert(mv[i as int] == matches@[i as int]@);
        assert(strings_view(present@) =~= mv.subrange(0, i + 1).map_values(|v: ItemView| v.id));
        i += 1;
    }
    assert(mv.subrange(0, matches@.len() as int) =~= mv);
    let ghost ids = mv.map_values(|v: ItemView| v.id);
    if note_keys.len() > 0 {
        let ghost av = items_view(all@);
        let ghost nk = strings_view(note_keys@);
        let mut j: usize = 0;
        assert(av.subrange(0, 0) =~= Seq::<ItemView>::empty());
        assert(mv =~= mv + note_hits(av.subrange(0, 0), ids, nk));
        while j < all.len()
            invariant
                j <= all@.len(),
                av == items_view(all@),
                nk == strings_view(note_keys@),
                strings_view(present@) == ids,
                items_view(combined@) == mv + note_hits(av.subrange(0, j as int), ids, nk),
            decreases all.len() - j,
        {
            let ghost sub = av.subrange(0, j + 1);
            assert(sub.drop_last() =~= av.subrange(0, j as int));
            assert(sub.last() == all@[j as int]@);
            let key_s = resource_key(&all[j]);
            if !key_listed(&present, &chars_of(all[j].id.as_str())) && key_listed(
                note_keys,
                &chars_of(key_s.as_str()),
            ) {
                let ghost before = items_view(combined@);
                combined.push(all[j].copy());
                assert(items_view(combined@) =~= before.push(all@[j as int]@));
            }
            j += 1;
        }
        assert(av.subrange(0, all@.len() as int) =~= av);
    } else {
        assert(items_view(combined@) =~= mv + Seq::<ItemView>::empty());
    }
    sort_items(&combined)
}

} // verus!
