//! Resource identity and duplicate detection.
//!
//! Every item has a resource key: a normalized URL for browser tabs, the
//! lowercased folder path for Explorer windows, process and title for other
//! windows. Items with the same key show the same resource; groups of two or
//! more are duplicates.

use crate::order::{lemma_lex_irreflexive, lemma_lex_total, lemma_lex_transitive, lex_lt, sort_items, sorted_items, stable_sorted_items, text_lt};
use crate::platform::{is_uuid_text, items_view, new_uuid_text, DuplicateGroup, ItemType, ItemView, TrackedItem};
use crate::text::{
    ascii_lower, ascii_lowercase, before_first, is_ascii_text, chars_eq, chars_of, find_char, first_index, is_prefix, lower, lowercase,
    prefix_before, push_all, push_str, slice, starts_with, starts_with_str, string_of,
    trim_end_char, trim_end_matches,
};
use vstd::prelude::*;

verus! {

// ─── Specification of URL normalization ─────────────────────

/// Split `s` at every `c` (`str::split`): always at least one part.
pub open spec fn split_on(s: Seq<char>, c: char) -> Seq<Seq<char>>
    decreases s.len(),
{
    if s.len() == 0 {
        seq![Seq::<char>::empty()]
    } else {
        let pre = split_on(s.drop_last(), c);
        if s.last() == c {
            pre.push(Seq::<char>::empty())
        } else {
            pre.update(pre.len() - 1, pre.last().push(s.last()))
        }
    }
}

/// Join parts with a separator (`[&str]::join`).
pub open spec fn join_with(parts: Seq<Seq<char>>, sep: char) -> Seq<char>
    decreases parts.len(),
{
    if parts.len() == 0 {
        Seq::<char>::empty()
    } else if parts.len() == 1 {
        parts[0]
    } else {
        join_with(parts.drop_last(), sep).push(sep) + parts.last()
    }
}

/// Query parameters that only track where a visit came from.
pub open spec fn is_tracking_key(key: Seq<char>) -> bool {
    ||| is_prefix("utm_"@, key)
    ||| key == "gclid"@
    ||| key == "fbclid"@
    ||| key == "mc_cid"@
    ||| key == "mc_eid"@
    ||| key == "ref"@
    ||| key == "referrer"@
    ||| key == "spm"@
    ||| key == "scm"@
    ||| key == "igshid"@
}

/// The `key=value` parts whose key is not a tracking key, in order.
pub open spec fn kept_params(parts: Seq<Seq<char>>) -> Seq<Seq<char>>
    decreases parts.len(),
{
    if parts.len() == 0 {
        parts
    } else {
        let pre = kept_params(parts.drop_last());
        if is_tracking_key(before_first(parts.last(), '=')) {
            pre
        } else {
            pre.push(parts.last())
        }
    }
}

/// The query part of a normalized URL: `?` and the kept parameters joined by
/// `&`, or nothing when no parameter is kept or there was no query.
pub open spec fn query_part(query: Option<Seq<char>>) -> Seq<char> {
    match query {
        None => Seq::<char>::empty(),
        Some(q) => {
            let kept = kept_params(split_on(q, '&'));
            if kept.len() == 0 {
                Seq::<char>::empty()
            } else {
                seq!['?'] + join_with(kept, '&')
            }
        },
    }
}

/// Where the scheme and host of a URL base end: behind `scheme://host`
/// (at the first `/` after the `//`, or at the end), or behind the scheme
/// when no `//` follows its `:`; at the start when there is no `:`.
pub open spec fn host_end(s: Seq<char>) -> int {
    match first_index(s, ':') {
        None => 0,
        Some(c) => if c + 2 < s.len() && s[c + 1] == '/' && s[c + 2] == '/' {
            match first_index(s.subrange(c + 3, s.len() as int), '/') {
                Some(j) => c + 3 + j,
                None => s.len() as int,
            }
        } else {
            c
        },
    }
}

/// A URL base with its scheme and host lowercased; the path keeps its case.
pub open spec fn head_lowered(s: Seq<char>) -> Seq<char> {
    lowercase(s.subrange(0, host_end(s))) + s.subrange(host_end(s), s.len() as int)
}

/// `head_lowered` where lowercasing is ASCII lowercasing.
pub open spec fn head_lowered_ascii(s: Seq<char>) -> Seq<char> {
    ascii_lowercase(s.subrange(0, host_end(s))) + s.subrange(host_end(s), s.len() as int)
}

/// The scheme and host end inside the base.
proof fn lemma_host_end_range(s: Seq<char>)
    ensures
        0 <= host_end(s) <= s.len(),
{
    if let Some(c) = first_index(s, ':') {
        let x = choose|k: int| crate::text::is_first_index(s, ':', k);
        assert(crate::text::is_first_index(s, ':', x));
        if c + 2 < s.len() && s[c + 1] == '/' && s[c + 2] == '/' {
            let rest = s.subrange(c + 3, s.len() as int);
            if let Some(j) = first_index(rest, '/') {
                let y = choose|k: int| crate::text::is_first_index(rest, '/', k);
                assert(crate::text::is_first_index(rest, '/', y));
            }
        }
    }
}

/// Where the scheme and host of a URL base end.
fn host_end_of(s: &Vec<char>) -> (r: usize)
    ensures
        r == host_end(s@),
{
    proof {
        lemma_host_end_range(s@);
    }
    match find_char(s, ':') {
        None => 0,
        Some(c) => {
            if s.len() >= 3 && c < s.len() - 2 && s[c + 1] == '/' && s[c + 2] == '/' {
                let rest = slice(s, c + 3, s.len());
                match find_char(&rest, '/') {
                    Some(j) => c + 3 + j,
                    None => s.len(),
                }
            } else {
                c
            }
        },
    }
}

/// Lowercased base with `https://` read as `http://`.
pub open spec fn scheme_folded(lowered: Seq<char>) -> Seq<char> {
    if is_prefix("https://"@, lowered) {
        "http://"@ + lowered.subrange("https://"@.len() as int, lowered.len() as int)
    } else {
        lowered
    }
}

/// The URL without its fragment, split at the first `?`.
pub open spec fn url_base(url: Seq<char>) -> Seq<char> {
    let nf = before_first(url, '#');
    match first_index(nf, '?') {
        Some(i) => nf.subrange(0, i),
        None => nf,
    }
}

/// The query of the URL without its fragment, if it has one.
pub open spec fn url_query(url: Seq<char>) -> Option<Seq<char>> {
    let nf = before_first(url, '#');
    match first_index(nf, '?') {
        Some(i) => Some(nf.subrange(i + 1, nf.len() as int)),
        None => None,
    }
}

/// Normalized form of a URL for duplicate comparison: fragment dropped,
/// scheme and host lowercased (the path keeps its case) with https read as
/// http, trailing slashes trimmed, tracking parameters removed from the
/// query.
pub open spec fn normalized_url(url: Seq<char>) -> Seq<char> {
    trim_end_char(scheme_folded(head_lowered(url_base(url))), '/') + query_part(url_query(url))
}

/// `normalized_url` where lowercasing is ASCII lowercasing: what
/// `normalize_url` computes for an ASCII URL.
pub open spec fn normalized_ascii_url(url: Seq<char>) -> Seq<char> {
    trim_end_char(scheme_folded(head_lowered_ascii(url_base(url))), '/') + query_part(url_query(url))
}

/// The URL is a web URL (`http://` or `https://`, as written).
pub open spec fn is_web_url(url: Seq<char>) -> bool {
    is_prefix("http://"@, url) || is_prefix("https://"@, url)
}

/// The resource key of an item.
pub open spec fn resource_key_of(item: ItemView) -> Seq<char> {
    match item.item_type {
        ItemType::BrowserTab => match item.url {
            Some(u) => if is_prefix("http://"@, u) || is_prefix("https://"@, u) {
                "url:"@ + normalized_url(u)
            } else {
                "url:"@ + lowercase(trim_end_char(u, '/'))
            },
            None => "browser_standalone:"@ + item.id,
        },
        ItemType::ExplorerWindow => match item.path {
            Some(p) => "path:"@ + lowercase(p),
            None => "explorer_standalone:"@ + item.id,
        },
        ItemType::AppWindow => "app:"@ + lowercase(item.process_name) + ":"@ + lowercase(
            item.title,
        ),
    }
}

// ─── Specification of duplicate groups ──────────────────────

/// The items whose resource key is `k`, in their order.
pub open spec fn key_filter(items: Seq<ItemView>, k: Seq<char>) -> Seq<ItemView>
    decreases items.len(),
{
    if items.len() == 0 {
        items
    } else {
        let pre = key_filter(items.drop_last(), k);
        if resource_key_of(items.last()) == k {
            pre.push(items.last())
        } else {
            pre
        }
    }
}

/// How a group's items match, read off the kind of its key.
pub open spec fn match_type_of(k: Seq<char>) -> Seq<char> {
    if is_prefix("url:"@, k) {
        "url_exact"@
    } else if is_prefix("path:"@, k) {
        "path_exact"@
    } else if is_prefix("app:"@, k) {
        "app_title"@
    } else {
        "title_match"@
    }
}

/// `g` is the duplicate group of its key among `items`: exactly the items
/// with that key (two or more), in presentation order.
pub open spec fn is_duplicate_group(items: Seq<ItemView>, g: DuplicateGroup) -> bool {
    let k = g.match_pattern@;
    let gi = items_view(g.items@);
    &&& g.match_type@ == match_type_of(k)
    &&& g.count == g.items@.len()
    &&& g.items@.len() >= 2
    &&& sorted_items(gi)
    &&& gi.to_multiset() == key_filter(items, k).to_multiset()
}

/// `groups` are all duplicate groups of `items`, ordered by key.
pub open spec fn duplicate_groups_of(items: Seq<ItemView>, groups: Seq<DuplicateGroup>) -> bool {
    &&& forall|a: int| 0 <= a < groups.len() ==> is_duplicate_group(items, #[trigger] groups[a])
    &&& forall|a: int, b: int|
        0 <= a < b < groups.len() ==> lex_lt(
            #[trigger] groups[a].match_pattern@,
            #[trigger] groups[b].match_pattern@,
        )
    &&& forall|i: int|
        0 <= i < items.len() && #[trigger] key_filter(items, resource_key_of(items[i])).len()
            >= 2 ==> exists|a: int|
            0 <= a < groups.len() && groups[a].match_pattern@ == resource_key_of(items[i])
}

// ─── Implementation ─────────────────────────────────────────

/// The character sequences held by a list of character vectors.
pub open spec fn views(v: Seq<Vec<char>>) -> Seq<Seq<char>> {
    v.map_values(|x: Vec<char>| x@)
}

/// Split at every `c`.
fn split_chars(s: &Vec<char>, c: char) -> (r: Vec<Vec<char>>)
    ensures
        views(r@) == split_on(s@, c),
{
    let mut parts: Vec<Vec<char>> = Vec::new();
    let mut cur: Vec<char> = Vec::new();
    let mut i: usize = 0;
    assert(s@.subrange(0, 0) =~= Seq::<char>::empty());
    while i < s.len()
        invariant
            i <= s.len(),
            views(parts@).push(cur@) == split_on(s@.subrange(0, i as int), c),
        decreases s.len() - i,
    {
        let ghost pre = s@.subrange(0, i as int);
        let ghost next = s@.subrange(0, i + 1);
        assert(next.drop_last() =~= pre);
        let ch = s[i];
        if ch == c {
            let ghost old_parts = views(parts@);
            let ghost done_view = cur@;
            let done = cur;
            parts.push(done);
            cur = Vec::new();
            assert(views(parts@) =~= old_parts.push(done_view));
            assert(views(parts@) =~= split_on(pre, c));
            assert(cur@ =~= Seq::<char>::empty());
        } else {
            let ghost old_cur = cur@;
            cur.push(ch);
            assert(views(parts@).push(cur@) =~= split_on(pre, c).update(
                split_on(pre, c).len() - 1,
                old_cur.push(ch),
            ));
        }
        i += 1;
    }
    assert(s@.subrange(0, s.len() as int) =~= s@);
    let ghost old_parts = views(parts@);
    let ghost last_view = cur@;
    parts.push(cur);
    assert(views(parts@) =~= old_parts.push(last_view));
    parts
}

/// Keys of query parameters that only track where a visit came from
/// (`utm_*`, click ids and referrer markers).
fn is_tracking_param(key: &Vec<char>) -> (r: bool)
    ensures
        r == is_tracking_key(key@),
{
    starts_with_str(key, "utm_") || chars_eq(key, &chars_of("gclid")) || chars_eq(
        key,
        &chars_of("fbclid"),
    ) || chars_eq(key, &chars_of("mc_cid")) || chars_eq(key, &chars_of("mc_eid")) || chars_eq(
        key,
        &chars_of("ref"),
    ) || chars_eq(key, &chars_of("referrer")) || chars_eq(key, &chars_of("spm")) || chars_eq(
        key,
        &chars_of("scm"),
    ) || chars_eq(key, &chars_of("igshid"))
}

/// The normalized query part for the query text after `?`.
fn query_suffix(q: &Vec<char>) -> (r: Vec<char>)
    ensures
        r@ == query_part(Some(q@)),
{
    let parts = split_chars(q, '&');
    let ghost all = views(parts@);
    let mut kept: Vec<Vec<char>> = Vec::new();
    let mut i: usize = 0;
    assert(all.subrange(0, 0) =~= Seq::<Seq<char>>::empty());
    while i < parts.len()
        invariant
            i <= parts.len(),
            all == views(parts@),
            views(kept@) == kept_params(all.subrange(0, i as int)),
        decreases parts.len() - i,
    {
        let key = prefix_before(&parts[i], '=');
        let ghost sub = all.subrange(0, i + 1);
        assert(sub.drop_last() =~= all.subrange(0, i as int));
        assert(sub.last() == parts[i as int]@);
        if !is_tracking_param(&key) {
            let part = slice(&parts[i], 0, parts[i].len());
            assert(part@ =~= parts[i as int]@);
            kept.push(part);
            assert(views(kept@) =~= kept_params(all.subrange(0, i as int)).push(
                parts[i as int]@,
            ));
        }
        i += 1;
    }
    assert(all.subrange(0, parts.len() as int) =~= all);
    let ghost kv = views(kept@);
    let mut out: Vec<char> = Vec::new();
    if kept.len() == 0 {
        return out;
    }
    out.push('?');
    let mut j: usize = 0;
    assert(kv.subrange(0, 0) =~= Seq::<Seq<char>>::empty());
    while j < kept.len()
        invariant
            j <= kept.len(),
            kv == views(kept@),
            kv.len() > 0,
            out@ == seq!['?'] + join_with(kv.subrange(0, j as int), '&'),
        decreases kept.len() - j,
    {
        let ghost sub = kv.subrange(0, j + 1);
        assert(sub.drop_last() =~= kv.subrange(0, j as int));
        if j > 0 {
            out.push('&');
        }
        push_all(&mut out, &kept[j]);
        assert(sub.last() == kept[j as int]@);
        assert(out@ =~= seq!['?'] + join_with(sub, '&'));
        j += 1;
    }
    assert(kv.subrange(0, kept.len() as int) =~= kv);
    out
}

/// Normalize a URL for duplicate comparison: treat http and https alike and
/// lowercase scheme and host, drop the fragment, strip tracking query
/// parameters while keeping meaningful ones, trim trailing slashes.
pub fn normalize_url(url: &Vec<char>) -> (r: Vec<char>)
    ensures
        r@ == normalized_url(url@),
        is_ascii_text(url@) ==> r@ == normalized_ascii_url(url@),
{
    let nf = prefix_before(url, '#');
    let (base, query) = match find_char(&nf, '?') {
        Some(i) => (slice(&nf, 0, i), Some(slice(&nf, i + 1, nf.len()))),
        None => {
            assert(nf@.subrange(0, nf@.len() as int) =~= nf@);
            (slice(&nf, 0, nf.len()), None)
        },
    };
    proof {
        if is_ascii_text(url@) {
            lemma_ascii_before_first(url@, '#');
            assert(is_ascii_text(base@)) by {
                assert forall|k: int| 0 <= k < base@.len() implies (#[trigger] base@[k] as u32)
                    < 128 by {
                    assert(base@[k] == nf@[k]);
                }
            }
        }
    }
    let h = host_end_of(&base);
    let head = lower(&slice(&base, 0, h));
    let mut lowered = head;
    push_all(&mut lowered, &slice(&base, h, base.len()));
    proof {
        if is_ascii_text(url@) {
            assert(is_ascii_text(base@.subrange(0, h as int))) by {
                assert forall|k: int| 0 <= k < h implies (#[trigger] base@.subrange(0, h as int)[k]
                    as u32) < 128 by {
                    assert(base@.subrange(0, h as int)[k] == base@[k]);
                }
            }
        }
    }
    let https = chars_of("https://");
    let folded = if starts_with(&lowered, &https) {
        let mut t = chars_of("http://");
        let rest = slice(&lowered, https.len(), lowered.len());
        push_all(&mut t, &rest);
        t
    } else {
        lowered
    };
    let mut out = trim_end_matches(&folded, '/');
    match query {
        Some(q) => {
            let suffix = query_suffix(&q);
            push_all(&mut out, &suffix);
        },
        None => {
            assert(out@ =~= out@ + Seq::<char>::empty());
        },
    }
    out
}

/// Stable identity of an item, independent of the window instance: a
/// normalized URL, an Explorer path, or process and title. Used for
/// duplicate grouping and for task assignments, which must survive the
/// window closing.
pub fn resource_key(item: &TrackedItem) -> (r: String)
    ensures
        r@ == resource_key_of(item@),
        item@.item_type == ItemType::BrowserTab ==> match item@.url {
            Some(u) => is_web_url(u) && is_ascii_text(u) ==> r@ == "url:"@ + normalized_ascii_url(u),
            None => true,
        },
{
    let mut out: Vec<char> = Vec::new();
    match item.item_type {
        ItemType::BrowserTab => {
            match &item.url {
                Some(url) => {
                    let u = chars_of(url.as_str());
                    push_str(&mut out, "url:");
                    if starts_with_str(&u, "http://") || starts_with_str(&u, "https://") {
                        let n = normalize_url(&u);
                        push_all(&mut out, &n);
                    } else {
                        let t = trim_end_matches(&u, '/');
                        let l = lower(&t);
                        push_all(&mut out, &l);
                    }
                },
                None => {
                    push_str(&mut out, "browser_standalone:");
                    push_str(&mut out, item.id.as_str());
                },
            }
        },
        ItemType::ExplorerWindow => {
            match &item.path {
                Some(p) => {
                    push_str(&mut out, "path:");
                    let l = lower(&chars_of(p.as_str()));
                    push_all(&mut out, &l);
                },
                None => {
                    push_str(&mut out, "explorer_standalone:");
                    push_str(&mut out, item.id.as_str());
                },
            }
        },
        ItemType::AppWindow => {
            push_str(&mut out, "app:");
            let p = lower(&chars_of(item.process_name.as_str()));
            push_all(&mut out, &p);
            push_str(&mut out, ":");
            let t = lower(&chars_of(item.title.as_str()));
            push_all(&mut out, &t);
        },
    }
    string_of(&out)
}

/// How a group's items match (`url_exact`, `path_exact`, `app_title`).
fn match_type(key: &Vec<char>) -> (r: String)
    ensures
        r@ == match_type_of(key@),
{
    if starts_with_str(key, "url:") {
        string_of(&chars_of("url_exact"))
    } else if starts_with_str(key, "path:") {
        string_of(&chars_of("path_exact"))
    } else if starts_with_str(key, "app:") {
        string_of(&chars_of("app_title"))
    } else {
        string_of(&chars_of("title_match"))
    }
}

/// Strictly increasing texts.
pub open spec fn strictly_sorted(s: Seq<Seq<char>>) -> bool {
    forall|a: int, b: int| 0 <= a < b < s.len() ==> lex_lt(#[trigger] s[a], #[trigger] s[b])
}

proof fn lemma_insert_sorted(s: Seq<Seq<char>>, p: int, k: Seq<char>)
    requires
        strictly_sorted(s),
        0 <= p <= s.len(),
        forall|q: int| 0 <= q < p ==> lex_lt(#[trigger] s[q], k),
        p < s.len() ==> !lex_lt(s[p], k) && s[p] != k,
    ensures
        strictly_sorted(s.insert(p, k)),
        forall|x: Seq<char>| s.insert(p, k).contains(x) <==> (s.contains(x) || x == k),
{
    let t = s.insert(p, k);
    if p < s.len() {
        lemma_lex_total(s[p], k);
    }
    assert forall|a: int, b: int| 0 <= a < b < t.len() implies lex_lt(#[trigger] t[a], #[trigger] t[b]) by {
        if b < p {
            assert(t[a] == s[a] && t[b] == s[b]);
        } else if b == p {
            assert(t[a] == s[a]);
        } else if a == p {
            assert(t[b] == s[b - 1]);
            if b - 1 > p {
                assert(lex_lt(s[p], s[b - 1]));
                lemma_lex_transitive(k, s[p], s[b - 1]);
            }
        } else if a < p {
            assert(t[a] == s[a] && t[b] == s[b - 1]);
        } else {
            assert(t[a] == s[a - 1] && t[b] == s[b - 1]);
        }
    }
    assert forall|x: Seq<char>| t.contains(x) <==> (s.contains(x) || x == k) by {
        if t.contains(x) {
            let a = choose|a: int| 0 <= a < t.len() && t[a] == x;
            if a < p {
                assert(s[a] == x);
            } else if a > p {
                assert(s[a - 1] == x);
            }
        }
        if s.contains(x) {
            let a = choose|a: int| 0 <= a < s.len() && s[a] == x;
            if a < p {
                assert(t[a] == x);
            } else {
                assert(t[a + 1] == x);
            }
        }
        if x == k {
            assert(t[p] == x);
        }
    }
}

/// Sorted list of the distinct keys.
fn distinct_sorted(keys: &Vec<Vec<char>>) -> (r: Vec<Vec<char>>)
    ensures
        strictly_sorted(views(r@)),
        forall|x: Seq<char>| views(r@).contains(x) <==> views(keys@).contains(x),
{
    let ghost kv = views(keys@);
    let mut r: Vec<Vec<char>> = Vec::new();
    let mut i: usize = 0;
    while i < keys.len()
        invariant
            i <= keys.len(),
            kv == views(keys@),
            strictly_sorted(views(r@)),
            forall|x: Seq<char>| views(r@).contains(x) <==> kv.subrange(0, i as int).contains(x),
        decreases keys.len() - i,
    {
        let k = &keys[i];
        let ghost rv = views(r@);
        let mut p: usize = 0;
        while p < r.len() && text_lt(&r[p], k)
            invariant
                p <= r.len(),
                rv == views(r@),
                forall|q: int| 0 <= q < p ==> lex_lt(#[trigger] rv[q], k@),
            decreases r.len() - p,
        {
            p += 1;
        }
        let ghost next = kv.subrange(0, i + 1);
        assert(next =~= kv.subrange(0, i as int).push(k@));
        assert forall|x: Seq<char>| next.contains(x) <==> (kv.subrange(0, i as int).contains(x) || x == k@) by {
            if next.contains(x) {
                let a = choose|a: int| 0 <= a < next.len() && next[a] == x;
                if a < i {
                    assert(kv.subrange(0, i as int)[a] == x);
                }
            }
            if kv.subrange(0, i as int).contains(x) {
                let a = choose|a: int| 0 <= a < i && kv.subrange(0, i as int)[a] == x;
                assert(next[a] == x);
            }
            if x == k@ {
                assert(next[i as int] == x);
            }
        }
        if p < r.len() && chars_eq(&r[p], k) {
            assert(rv[p as int] == k@);
            assert(rv.contains(k@));
            assert forall|x: Seq<char>| views(r@).contains(x) <==> next.contains(x) by {
                assert(rv.contains(x) <==> kv.subrange(0, i as int).contains(x));
            }
        } else {
            let kc = slice(k, 0, k.len());
            assert(kc@ =~= k@);
            r.insert(p, kc);
            assert(views(r@) =~= rv.insert(p as int, k@));
            proof {
                lemma_insert_sorted(rv, p as int, k@);
                assert forall|x: Seq<char>| views(r@).contains(x) <==> next.contains(x) by {
                    assert(rv.contains(x) <==> kv.subrange(0, i as int).contains(x));
                    assert(rv.insert(p as int, k@).contains(x) <==> (rv.contains(x) || x == k@));
                }
            }
        }
        i += 1;
    }
    assert(kv.subrange(0, keys.len() as int) =~= kv);
    r
}

/// Items whose key (given per item in `keys`) equals `k`, in order.
fn members_with_key(items: &[TrackedItem], keys: &Vec<Vec<char>>, k: &Vec<char>) -> (r: Vec<TrackedItem>)
    requires
        keys@.len() == items@.len(),
        forall|j: int| 0 <= j < keys@.len() ==> #[trigger] keys@[j]@ == resource_key_of(items@[j]@),
    ensures
        items_view(r@) == key_filter(items_view(items@), k@),
{
    let ghost all = items_view(items@);
    let mut r: Vec<TrackedItem> = Vec::new();
    let mut j: usize = 0;
    assert(all.subrange(0, 0) =~= Seq::<ItemView>::empty());
    while j < items.len()
        invariant
            j <= items.len(),
            keys@.len() == items@.len(),
            all == items_view(items@),
            forall|q: int| 0 <= q < keys@.len() ==> #[trigger] keys@[q]@ == resource_key_of(items@[q]@),
            items_view(r@) == key_filter(all.subrange(0, j as int), k@),
        decreases items.len() - j,
    {
        let ghost sub = all.subrange(0, j + 1);
        assert(sub.drop_last() =~= all.subrange(0, j as int));
        assert(sub.last() == items@[j as int]@);
        assert(keys@[j as int]@ == resource_key_of(items@[j as int]@));
        if chars_eq(&keys[j], k) {
            let ghost before = items_view(r@);
            r.push(items[j].copy());
            assert(items_view(r@) =~= before.push(items@[j as int]@));
        }
        j += 1;
    }
    assert(all.subrange(0, items.len() as int) =~= all);
    r
}

/// A key occurs among the items exactly when its filter is non-empty.
proof fn lemma_key_filter_has(items: Seq<ItemView>, i: int)
    requires
        0 <= i < items.len(),
    ensures
        key_filter(items, resource_key_of(items[i])).len() > 0,
    decreases items.len(),
{
    if i < items.len() - 1 {
        lemma_key_filter_has(items.drop_last(), i);
        assert(items.drop_last()[i] == items[i]);
    }
}

/// Group items that show the same resource (same resource key). Items within
/// a group are in presentation order (most recently active first, then by
/// id), groups are ordered by key, and only keys shared by two or more items
/// form a group, so "keep the first item" means the same thing on every
/// recompute. Each group gets a fresh random id (a hyphenated UUID).
#[verifier::rlimit(40)]
pub fn find_duplicates(items: &[TrackedItem]) -> (r: Vec<DuplicateGroup>)
    ensures
        duplicate_groups_of(items_view(items@), r@),
        forall|a: int| 0 <= a < r@.len() ==> is_uuid_text((#[trigger] r@[a]).id@),
        forall|a: int|
            0 <= a < r@.len() ==> items_view((#[trigger] r@[a]).items@) == stable_sorted_items(
                key_filter(items_view(items@), r@[a].match_pattern@),
            ),
{
    let ghost all = items_view(items@);
    let mut keys: Vec<Vec<char>> = Vec::new();
    let mut i: usize = 0;
    while i < items.len()
        invariant
            i <= items.len(),
            keys@.len() == i,
            forall|j: int| 0 <= j < i ==> #[trigger] keys@[j]@ == resource_key_of(items@[j]@),
        decreases items.len() - i,
    {
        let k = resource_key(&items[i]);
        keys.push(chars_of(k.as_str()));
        i += 1;
    }
    let uniq = distinct_sorted(&keys);
    let mut groups: Vec<DuplicateGroup> = Vec::new();
    let mut a: usize = 0;
    while a < uniq.len()
        invariant
            a <= uniq.len(),
            keys@.len() == items@.len(),
            all == items_view(items@),
            forall|j: int| 0 <= j < keys@.len() ==> #[trigger] keys@[j]@ == resource_key_of(items@[j]@),
            strictly_sorted(views(uniq@)),
            forall|g: int| 0 <= g < groups@.len() ==> is_duplicate_group(all, #[trigger] groups@[g]),
            forall|g: int| 0 <= g < groups@.len() ==> is_uuid_text((#[trigger] groups@[g]).id@),
            forall|g: int| 0 <= g < groups@.len() ==> items_view((#[trigger] groups@[g]).items@)
                == stable_sorted_items(key_filter(all, groups@[g].match_pattern@)),
            forall|g: int| 0 <= g < groups@.len() ==> exists|x: int| 0 <= x < a && uniq@[x]@ == #[trigger] groups@[g].match_pattern@,
            forall|g: int, h: int| 0 <= g < h < groups@.len() ==> lex_lt(
                #[trigger] groups@[g].match_pattern@,
                #[trigger] groups@[h].match_pattern@,
            ),
            forall|x: int| 0 <= x < a && #[trigger] key_filter(all, uniq@[x]@).len() >= 2 ==> exists|g: int|
                0 <= g < groups@.len() && groups@[g].match_pattern@ == uniq@[x]@,
        decreases uniq.len() - a,
    {
        let members = members_with_key(items, &keys, &uniq[a]);
        if members.len() >= 2 {
            let sorted = sort_items(&members);
            let count = sorted.len();
            let group = DuplicateGroup {
                id: new_uuid_text(),
                match_type: match_type(&uniq[a]),
                match_pattern: string_of(&uniq[a]),
                items: sorted,
                count,
            };
            let ghost old_groups = groups@;
            groups.push(group);
            proof {
                assert(groups@[old_groups.len() as int].match_pattern@ == uniq@[a as int]@);
                assert forall|g: int, h: int| 0 <= g < h < groups@.len() implies lex_lt(
                    #[trigger] groups@[g].match_pattern@,
                    #[trigger] groups@[h].match_pattern@,
                ) by {
                    if h == old_groups.len() {
                        assert(groups@[g] == old_groups[g]);
                        let x = choose|x: int| 0 <= x < a && uniq@[x]@ == old_groups[g].match_pattern@;
                        assert(views(uniq@)[x] == uniq@[x]@);
                        assert(views(uniq@)[a as int] == uniq@[a as int]@);
                    } else {
                        assert(groups@[g] == old_groups[g] && groups@[h] == old_groups[h]);
                    }
                }
                assert forall|g: int| 0 <= g < groups@.len() implies exists|x: int| 0 <= x < a + 1 && uniq@[x]@ == #[trigger] groups@[g].match_pattern@ by {
                    if g < old_groups.len() {
                        assert(groups@[g] == old_groups[g]);
                    }
                }
                assert forall|g: int| 0 <= g < groups@.len() implies is_duplicate_group(all, #[trigger] groups@[g]) by {
                    if g < old_groups.len() {
                        assert(groups@[g] == old_groups[g]);
                    }
                }
                assert forall|g: int| 0 <= g < groups@.len() implies items_view(
                    (#[trigger] groups@[g]).items@,
                ) == stable_sorted_items(key_filter(all, groups@[g].match_pattern@)) by {
                    if g < old_groups.len() {
                        assert(groups@[g] == old_groups[g]);
                    }
                }
                assert forall|x: int| 0 <= x < a + 1 && #[trigger] key_filter(all, uniq@[x]@).len() >= 2 implies exists|g: int|
                    0 <= g < groups@.len() && groups@[g].match_pattern@ == uniq@[x]@ by {
                    if x < a {
                        let g = choose|g: int| 0 <= g < old_groups.len() && old_groups[g].match_pattern@ == uniq@[x]@;
                        assert(groups@[g] == old_groups[g]);
                    } else {
                        assert(groups@[old_groups.len() as int].match_pattern@ == uniq@[x]@);
                    }
                }
            }
        }
        a += 1;
    }
    proof {
        assert forall|i: int| 0 <= i < all.len() && #[trigger] key_filter(all, resource_key_of(all[i])).len() >= 2 implies exists|g: int|
            0 <= g < groups@.len() && groups@[g].match_pattern@ == resource_key_of(all[i]) by {
            assert(keys@[i]@ == resource_key_of(items@[i]@));
            assert(views(keys@)[i] == keys@[i]@);
            assert(views(keys@).contains(keys@[i]@));
            assert(views(uniq@).contains(keys@[i]@));
            let x = choose|x: int| 0 <= x < uniq@.len() && views(uniq@)[x] == keys@[i]@;
            assert(uniq@[x]@ == keys@[i]@);
            assert(key_filter(all, uniq@[x]@).len() >= 2);
        }
    }
    groups
}

// ─── Laws of URL normalization ──────────────────────────────

/// The first `c` of a text that has one is also the first `c` of any
/// extension of it.
proof fn lemma_first_index_prefix(a: Seq<char>, b: Seq<char>, c: char)
    requires
        a.contains(c),
    ensures
        first_index(a + b, c) == first_index(a, c),
        first_index(a, c) is Some,
{
    let k = choose|k: int| 0 <= k < a.len() && a[k] == c;
    let m = lemma_min_index(a, c, k);
    assert(crate::text::is_first_index(a, c, m));
    assert(crate::text::is_first_index(a + b, c, m));
    let x = choose|i: int| crate::text::is_first_index(a, c, i);
    let y = choose|i: int| crate::text::is_first_index(a + b, c, i);
    assert(x == m) by {
        if x < m {
        } else if x > m {
        }
    }
    assert(y == m) by {
        if y < m {
            assert((a + b)[y] == a[y]);
        } else if y > m {
            assert((a + b)[m] == c);
        }
    }
}

/// Some index holding `c` at or below `k` is the first one.
proof fn lemma_min_index(a: Seq<char>, c: char, k: int) -> (m: int)
    requires
        0 <= k < a.len(),
        a[k] == c,
    ensures
        crate::text::is_first_index(a, c, m),
    decreases k,
{
    if exists|j: int| 0 <= j < k && a[j] == c {
        let j = choose|j: int| 0 <= j < k && a[j] == c;
        lemma_min_index(a, c, j)
    } else {
        k
    }
}

/// A text without `c` has no first `c`.
proof fn lemma_first_index_none(a: Seq<char>, c: char)
    requires
        !a.contains(c),
    ensures
        first_index(a, c) is None,
        before_first(a, c) == a,
{
    if exists|i: int| crate::text::is_first_index(a, c, i) {
        let i = choose|i: int| crate::text::is_first_index(a, c, i);
        assert(a[i] == c);
    }
}

/// Splitting `s`, a separator and a separator-free `t` gives the parts of
/// `s` and then `t`.
proof fn lemma_split_on_append(s: Seq<char>, c: char, t: Seq<char>)
    requires
        !t.contains(c),
    ensures
        split_on(s + seq![c] + t, c) == split_on(s, c).push(t),
    decreases t.len(),
{
    if t.len() == 0 {
        assert(s + seq![c] + t =~= s.push(c));
        assert((s + seq![c] + t).drop_last() =~= s);
        assert(t =~= Seq::<char>::empty());
    } else {
        let t2 = t.drop_last();
        assert(!t2.contains(c)) by {
            if t2.contains(c) {
                let i = choose|i: int| 0 <= i < t2.len() && t2[i] == c;
                assert(t[i] == c);
            }
        }
        lemma_split_on_append(s, c, t2);
        let whole = s + seq![c] + t;
        assert(whole.drop_last() =~= s + seq![c] + t2);
        assert(whole.last() == t.last());
        assert(t.last() != c) by {
            assert(t[t.len() - 1] == t.last());
        }
        assert(t2.push(t.last()) =~= t);
        let pre = split_on(s, c).push(t2);
        assert(pre.len() - 1 == split_on(s, c).len());
        assert(pre.last() == t2);
        assert(pre.update(pre.len() - 1, pre.last().push(t.last())) =~= split_on(s, c).push(t));
    }
}

/// Dropping the fragment: a URL and the same URL with any `#fragment`
/// appended normalize alike.
pub proof fn lemma_fragment_ignored(url: Seq<char>, fragment: Seq<char>)
    requires
        !url.contains('#'),
    ensures
        normalized_url(url + seq!['#'] + fragment) == normalized_url(url),
{
    let full = url + seq!['#'] + fragment;
    let n = url.len() as int;
    assert(crate::text::is_first_index(full, '#', n)) by {
        assert forall|j: int| 0 <= j < n implies full[j] != '#' by {
            assert(full[j] == url[j]);
        }
    }
    let x = choose|i: int| crate::text::is_first_index(full, '#', i);
    assert(x == n) by {
        if x < n {
            assert(full[x] == url[x]);
        } else if x > n {
        }
    }
    assert(full.subrange(0, n) =~= url);
    lemma_first_index_none(url, '#');
}

/// Tracking parameters do not matter: appending `&key=value` with a
/// tracking key (`utm_*`, click ids, referrer markers) to a URL that has a
/// query normalizes alike.
pub proof fn lemma_tracking_param_ignored(url: Seq<char>, param: Seq<char>)
    requires
        !url.contains('#'),
        url.contains('?'),
        !param.contains('#'),
        !param.contains('&'),
        is_tracking_key(before_first(param, '=')),
    ensures
        normalized_url(url + seq!['&'] + param) == normalized_url(url),
{
    let full = url + seq!['&'] + param;
    assert(!full.contains('#')) by {
        if full.contains('#') {
            let i = choose|i: int| 0 <= i < full.len() && full[i] == '#';
            if i < url.len() {
                assert(url[i] == '#');
            } else if i > url.len() {
                assert(param[i - url.len() - 1] == '#');
            }
        }
    }
    lemma_first_index_none(full, '#');
    lemma_first_index_none(url, '#');
    lemma_first_index_prefix(url, seq!['&'] + param, '?');
    assert(url + (seq!['&'] + param) =~= full);
    let i = first_index(url, '?')->0;
    assert(crate::text::is_first_index(url, '?', i)) by {
        let x = choose|k: int| crate::text::is_first_index(url, '?', k);
    }
    assert(full.subrange(0, i) =~= url.subrange(0, i));
    let q = url.subrange(i + 1, url.len() as int);
    assert(full.subrange(i + 1, full.len() as int) =~= q + seq!['&'] + param);
    lemma_split_on_append(q, '&', param);
    let parts = split_on(q, '&');
    assert(parts.push(param).drop_last() =~= parts);
}

/// A query key with no `#`, `&` or `=` in it.
spec fn plain_key(name: Seq<char>) -> bool {
    forall|i: int| 0 <= i < name.len() ==> #[trigger] name[i] != '#' && name[i] != '&' && name[i] != '='
}

/// The tracking keys by name: `gclid`, `fbclid`, `mc_cid`, `mc_eid`, `ref`,
/// `referrer`, `spm`, `scm`, `igshid`, and every key starting with `utm_`
/// (with no `#`, `&` or `=` in it).
pub open spec fn named_tracking_key(name: Seq<char>) -> bool {
    ||| name == "gclid"@
    ||| name == "fbclid"@
    ||| name == "mc_cid"@
    ||| name == "mc_eid"@
    ||| name == "ref"@
    ||| name == "referrer"@
    ||| name == "spm"@
    ||| name == "scm"@
    ||| name == "igshid"@
    ||| is_prefix("utm_"@, name) && forall|i: int|
        0 <= i < name.len() ==> #[trigger] name[i] != '#' && name[i] != '&' && name[i] != '='
}

/// Each named tracking key is a plain key.
proof fn lemma_named_keys_plain(name: Seq<char>)
    requires
        named_tracking_key(name),
    ensures
        plain_key(name),
        is_tracking_key(name),
{
    reveal_strlit("gclid");
    reveal_strlit("fbclid");
    reveal_strlit("mc_cid");
    reveal_strlit("mc_eid");
    reveal_strlit("ref");
    reveal_strlit("referrer");
    reveal_strlit("spm");
    reveal_strlit("scm");
    reveal_strlit("igshid");
    reveal_strlit("utm_");
    assert forall|i: int| 0 <= i < name.len() implies #[trigger] name[i] != '#' && name[i] != '&'
        && name[i] != '=' by {
        if !(is_prefix("utm_"@, name)) {
            assert(name[i] == name[i]);
        }
    }
}

/// Tracking parameters are dropped by name: appending `&name=value` with a
/// named tracking key (`gclid`, `fbclid`, `mc_cid`, `mc_eid`, `ref`,
/// `referrer`, `spm`, `scm`, `igshid`, or any `utm_` key) to a URL that
/// has a query and no fragment leaves its normal form unchanged.
pub proof fn lemma_tracking_names_ignored(url: Seq<char>, name: Seq<char>, value: Seq<char>)
    requires
        !url.contains('#'),
        url.contains('?'),
        !value.contains('#'),
        !value.contains('&'),
        named_tracking_key(name),
    ensures
        normalized_url(url + seq!['&'] + (name + seq!['='] + value)) == normalized_url(url),
{
    lemma_named_keys_plain(name);
    let param = name + seq!['='] + value;
    assert(!param.contains('#') && !param.contains('&')) by {
        if param.contains('#') || param.contains('&') {
            let i = choose|i: int| 0 <= i < param.len() && (param[i] == '#' || param[i] == '&');
            if i < name.len() {
                assert(param[i] == name[i]);
            } else if i > name.len() {
                assert(param[i] == value[i - name.len() - 1]);
            }
        }
    }
    assert(crate::text::is_first_index(param, '=', name.len() as int)) by {
        assert forall|j: int| 0 <= j < name.len() implies param[j] != '=' by {
            assert(param[j] == name[j]);
        }
    }
    lemma_first_index_at(param, '=', name.len() as int);
    assert(param.subrange(0, name.len() as int) =~= name);
    lemma_tracking_param_ignored(url, param);
}

/// The part before the first `c` of an ASCII text is ASCII.
proof fn lemma_ascii_before_first(s: Seq<char>, c: char)
    requires
        is_ascii_text(s),
    ensures
        is_ascii_text(before_first(s, c)),
{
    let b = before_first(s, c);
    if let Some(i) = first_index(s, c) {
        let x = choose|k: int| crate::text::is_first_index(s, c, k);
        assert(crate::text::is_first_index(s, c, x));
    }
    assert forall|k: int| 0 <= k < b.len() implies (#[trigger] b[k] as u32) < 128 by {
        assert(b[k] == s[k]);
    }
}

/// Behind a prefix without `c`, the first `c` moves by the prefix length.
proof fn lemma_first_index_shift(p: Seq<char>, s: Seq<char>, c: char)
    requires
        !p.contains(c),
    ensures
        before_first(p + s, c) == p + before_first(s, c),
        first_index(p + s, c) matches Some(i) ==> first_index(s, c) == Some(i - p.len()),
        first_index(p + s, c) is None ==> first_index(s, c) is None,
{
    let w = p + s;
    let n = p.len() as int;
    if exists|i: int| crate::text::is_first_index(s, c, i) {
        let i = choose|i: int| crate::text::is_first_index(s, c, i);
        assert(crate::text::is_first_index(w, c, i + n)) by {
            assert forall|j: int| 0 <= j < i + n implies w[j] != c by {
                if j < n {
                    assert(w[j] == p[j]);
                } else {
                    assert(w[j] == s[j - n]);
                }
            }
        }
        let y = choose|k: int| crate::text::is_first_index(w, c, k);
        assert(y == i + n) by {
            if y < i + n {
                if y < n {
                    assert(w[y] == p[y]);
                } else {
                    assert(w[y] == s[y - n]);
                }
            } else if y > i + n {
            }
        }
        assert(w.subrange(0, i + n) =~= p + s.subrange(0, i));
    } else {
        if exists|k: int| crate::text::is_first_index(w, c, k) {
            let y = choose|k: int| crate::text::is_first_index(w, c, k);
            if y < n {
                assert(w[y] == p[y]);
            } else {
                assert(crate::text::is_first_index(s, c, y - n)) by {
                    assert forall|j: int| 0 <= j < y - n implies s[j] != c by {
                        assert(w[j + n] == s[j]);
                    }
                    assert(w[y] == s[y - n]);
                }
            }
        }
    }
}

/// Base and query of a URL behind a prefix without `#` and `?`.
proof fn lemma_url_parts_shift(p: Seq<char>, rest: Seq<char>)
    requires
        !p.contains('#'),
        !p.contains('?'),
    ensures
        url_base(p + rest) == p + url_base(rest),
        url_query(p + rest) == url_query(rest),
{
    lemma_first_index_shift(p, rest, '#');
    let nf = before_first(rest, '#');
    lemma_first_index_shift(p, nf, '?');
    let n = p.len() as int;
    if let Some(i) = first_index(nf, '?') {
        let x = choose|k: int| crate::text::is_first_index(nf, '?', k);
        assert(crate::text::is_first_index(nf, '?', x));
        assert((p + nf).subrange(0, i + n) =~= p + nf.subrange(0, i));
        assert((p + nf).subrange(i + n + 1, (p + nf).len() as int) =~= nf.subrange(
            i + 1,
            nf.len() as int,
        ));
    }
}

/// `is_first_index` names the first `c`.
proof fn lemma_first_index_at(s: Seq<char>, c: char, k: int)
    requires
        crate::text::is_first_index(s, c, k),
    ensures
        first_index(s, c) == Some(k),
{
    let x = choose|i: int| crate::text::is_first_index(s, c, i);
    assert(crate::text::is_first_index(s, c, x));
    if x < k {
        assert(s[x] == c);
    } else if x > k {
        assert(s[k] == c);
    }
}

/// Two texts of one length with `c` at the same places have their first `c`
/// at the same place.
proof fn lemma_first_index_same(s: Seq<char>, t: Seq<char>, c: char)
    requires
        s.len() == t.len(),
        forall|i: int| 0 <= i < s.len() ==> (s[i] == c <==> t[i] == c),
    ensures
        first_index(s, c) == first_index(t, c),
{
    if exists|i: int| crate::text::is_first_index(s, c, i) {
        let i = choose|i: int| crate::text::is_first_index(s, c, i);
        assert(crate::text::is_first_index(t, c, i)) by {
            assert forall|j: int| 0 <= j < i implies t[j] != c by {
                assert(s[j] != c);
            }
        }
        lemma_first_index_at(s, c, i);
        lemma_first_index_at(t, c, i);
    } else if exists|i: int| crate::text::is_first_index(t, c, i) {
        let i = choose|i: int| crate::text::is_first_index(t, c, i);
        assert(crate::text::is_first_index(s, c, i)) by {
            assert forall|j: int| 0 <= j < i implies s[j] != c by {
                assert(t[j] != c);
            }
        }
    }
}

/// Where the authority behind `scheme://` ends: at its first `/`, or at the
/// end.
spec fn slash_end(x: Seq<char>) -> int {
    match first_index(x, '/') {
        Some(j) => j,
        None => x.len() as int,
    }
}

/// The authority end lies inside the text.
proof fn lemma_slash_end_range(x: Seq<char>)
    ensures
        0 <= slash_end(x) <= x.len(),
{
    if let Some(j) = first_index(x, '/') {
        let y = choose|k: int| crate::text::is_first_index(x, '/', k);
        assert(crate::text::is_first_index(x, '/', y));
    }
}

/// Behind a literal `http://` or `https://`, the scheme and host end where
/// the authority ends.
proof fn lemma_web_host_end(p: Seq<char>, x: Seq<char>)
    requires
        p == "https://"@ || p == "http://"@,
    ensures
        host_end(p + x) == p.len() + slash_end(x),
{
    reveal_strlit("https://");
    reveal_strlit("http://");
    let s = p + x;
    let c = p.len() - 3;
    assert(crate::text::is_first_index(s, ':', c)) by {
        assert forall|j: int| 0 <= j < c implies s[j] != ':' by {
            assert(s[j] == p[j]);
        }
        assert(s[c] == p[c]);
    }
    lemma_first_index_at(s, ':', c);
    assert(s[c + 1] == p[c + 1] && s[c + 2] == p[c + 2]);
    assert(s.subrange(c + 3, s.len() as int) =~= x);
}

/// The ASCII lowercase of a literal `http://` or `https://` is itself.
proof fn lemma_web_prefix_lower(p: Seq<char>, y: Seq<char>)
    requires
        p == "https://"@ || p == "http://"@,
    ensures
        ascii_lowercase(p + y) == p + ascii_lowercase(y),
{
    reveal_strlit("https://");
    reveal_strlit("http://");
    assert(ascii_lowercase(p + y) =~= p + ascii_lowercase(y)) by {
        assert forall|i: int| 0 <= i < p.len() implies ascii_lower(#[trigger] p[i]) == p[i] by {
        }
        assert forall|i: int| 0 <= i < (p + y).len() implies ascii_lowercase(p + y)[i] == (p
            + ascii_lowercase(y))[i] by {
            if i < p.len() {
                assert((p + y)[i] == p[i]);
            } else {
                assert((p + y)[i] == y[i - p.len()]);
            }
        }
    }
}

/// A web base is the literal scheme followed by its authority lowercased
/// and the rest as written.
proof fn lemma_web_head(p: Seq<char>, x: Seq<char>)
    requires
        p == "https://"@ || p == "http://"@,
    ensures
        head_lowered_ascii(p + x) == p + (ascii_lowercase(x.subrange(0, slash_end(x)))
            + x.subrange(slash_end(x), x.len() as int)),
{
    lemma_web_host_end(p, x);
    lemma_slash_end_range(x);
    let e = slash_end(x);
    let s = p + x;
    assert(s.subrange(0, p.len() + e) =~= p + x.subrange(0, e));
    assert(s.subrange(p.len() + e, s.len() as int) =~= x.subrange(e, x.len() as int));
    lemma_web_prefix_lower(p, x.subrange(0, e));
}

/// A literal `https://` is folded to `http://`; a literal `http://` stays.
proof fn lemma_web_fold(p: Seq<char>, y: Seq<char>)
    requires
        p == "https://"@ || p == "http://"@,
    ensures
        scheme_folded(p + y) == "http://"@ + y,
{
    reveal_strlit("https://");
    reveal_strlit("http://");
    if p == "https://"@ {
        assert((p + y).subrange(0, 8) =~= p);
        assert((p + y).subrange(8, (p + y).len() as int) =~= y);
    } else {
        if is_prefix("https://"@, p + y) {
            assert((p + y).subrange(0, 8)[4] == (p + y)[4]);
        }
    }
}

/// The scheme and host of `s` are already lowercase.
spec fn head_fixed(s: Seq<char>) -> bool {
    forall|i: int| 0 <= i < host_end(s) ==> ascii_lower(#[trigger] s[i]) == s[i]
}

/// Two texts of one length with `:` and `/` at the same places have their
/// scheme and host end at the same place.
proof fn lemma_host_end_same_marks(s: Seq<char>, t: Seq<char>)
    requires
        s.len() == t.len(),
        forall|i: int| 0 <= i < s.len() ==> (s[i] == ':' <==> t[i] == ':'),
        forall|i: int| 0 <= i < s.len() ==> (s[i] == '/' <==> t[i] == '/'),
    ensures
        host_end(s) == host_end(t),
{
    lemma_first_index_same(s, t, ':');
    if let Some(c) = first_index(s, ':') {
        let x = choose|k: int| crate::text::is_first_index(s, ':', k);
        assert(crate::text::is_first_index(s, ':', x));
        if c + 2 < s.len() {
            assert(s[c + 1] == '/' <==> t[c + 1] == '/');
            assert(s[c + 2] == '/' <==> t[c + 2] == '/');
            let rs = s.subrange(c + 3, s.len() as int);
            let rt = t.subrange(c + 3, t.len() as int);
            assert forall|i: int| 0 <= i < rs.len() implies (rs[i] == '/' <==> rt[i] == '/') by {
                assert(rs[i] == s[i + c + 3]);
                assert(rt[i] == t[i + c + 3]);
            }
            lemma_first_index_same(rs, rt, '/');
        }
    }
}

/// Lowercasing the scheme and host keeps the length and the places of `:`
/// and `/`, so the lowered text has its scheme and host where the original
/// had them, and they are lowercase.
proof fn lemma_head_lowered_facts(s: Seq<char>)
    ensures
        head_lowered_ascii(s).len() == s.len(),
        forall|i: int|
            0 <= i < s.len() ==> #[trigger] head_lowered_ascii(s)[i] == (if i < host_end(s) {
                ascii_lower(s[i])
            } else {
                s[i]
            }),
        host_end(head_lowered_ascii(s)) == host_end(s),
        head_fixed(head_lowered_ascii(s)),
{
    lemma_host_end_range(s);
    let e = host_end(s);
    let h = head_lowered_ascii(s);
    assert forall|i: int| 0 <= i < s.len() implies #[trigger] h[i] == (if i < e {
        ascii_lower(s[i])
    } else {
        s[i]
    }) by {
        if i < e {
            assert(h[i] == ascii_lowercase(s.subrange(0, e))[i]);
        } else {
            assert(h[i] == s.subrange(e, s.len() as int)[i - e]);
        }
    }
    assert forall|i: int| 0 <= i < s.len() implies (s[i] == ':' <==> h[i] == ':') && (s[i] == '/'
        <==> h[i] == '/') by {
        assert(h[i] == (if i < e {
            ascii_lower(s[i])
        } else {
            s[i]
        }));
    }
    lemma_host_end_same_marks(s, h);
    assert forall|i: int| 0 <= i < host_end(h) implies ascii_lower(#[trigger] h[i]) == h[i] by {
        assert(h[i] == ascii_lower(s[i]));
    }
}

/// A text whose scheme and host are lowercase is its own `head_lowered_ascii`.
proof fn lemma_head_fixed_lowered(s: Seq<char>)
    requires
        head_fixed(s),
    ensures
        head_lowered_ascii(s) == s,
{
    lemma_host_end_range(s);
    let e = host_end(s);
    assert(ascii_lowercase(s.subrange(0, e)) =~= s.subrange(0, e)) by {
        assert forall|i: int| 0 <= i < e implies ascii_lowercase(s.subrange(0, e))[i] == s.subrange(
            0,
            e,
        )[i] by {
            assert(s.subrange(0, e)[i] == s[i]);
        }
    }
    assert(s.subrange(0, e) + s.subrange(e, s.len() as int) =~= s);
}

/// A prefix ends its scheme and host no later than the whole text.
proof fn lemma_host_end_prefix(s: Seq<char>, n: int)
    requires
        0 <= n <= s.len(),
    ensures
        host_end(s.subrange(0, n)) <= host_end(s),
{
    let p = s.subrange(0, n);
    lemma_host_end_range(s);
    lemma_host_end_range(p);
    if let Some(c) = first_index(p, ':') {
        let x = choose|k: int| crate::text::is_first_index(p, ':', k);
        assert(crate::text::is_first_index(p, ':', x));
        assert(crate::text::is_first_index(s, ':', c)) by {
            assert forall|j: int| 0 <= j < c implies s[j] != ':' by {
                assert(p[j] == s[j]);
            }
            assert(p[c] == s[c]);
        }
        lemma_first_index_at(s, ':', c);
        if c + 2 < n && p[c + 1] == '/' && p[c + 2] == '/' {
            assert(s[c + 1] == p[c + 1] && s[c + 2] == p[c + 2]);
            let rp = p.subrange(c + 3, n);
            let rs = s.subrange(c + 3, s.len() as int);
            if let Some(j) = first_index(rp, '/') {
                let y = choose|k: int| crate::text::is_first_index(rp, '/', k);
                assert(crate::text::is_first_index(rp, '/', y));
                assert(crate::text::is_first_index(rs, '/', j)) by {
                    assert forall|k: int| 0 <= k < j implies rs[k] != '/' by {
                        assert(rp[k] == rs[k]);
                    }
                    assert(rp[j] == rs[j]);
                }
                lemma_first_index_at(rs, '/', j);
            } else if let Some(j) = first_index(rs, '/') {
                let y = choose|k: int| crate::text::is_first_index(rs, '/', k);
                assert(crate::text::is_first_index(rs, '/', y));
                if j < rp.len() {
                    assert(crate::text::is_first_index(rp, '/', j)) by {
                        assert forall|k: int| 0 <= k < j implies rp[k] != '/' by {
                            assert(rp[k] == rs[k]);
                        }
                        assert(rp[j] == rs[j]);
                    }
                }
            }
        }
    }
}

/// A prefix of a text whose scheme and host are lowercase has its own
/// scheme and host lowercase.
proof fn lemma_head_fixed_prefix(s: Seq<char>, n: int)
    requires
        head_fixed(s),
        0 <= n <= s.len(),
    ensures
        head_fixed(s.subrange(0, n)),
{
    lemma_host_end_prefix(s, n);
    let p = s.subrange(0, n);
    assert forall|i: int| 0 <= i < host_end(p) implies ascii_lower(#[trigger] p[i]) == p[i] by {
        lemma_host_end_range(p);
        assert(p[i] == s[i]);
    }
}

/// Folding `https://` to `http://` keeps the scheme and host lowercase.
proof fn lemma_fold_head_fixed(h: Seq<char>)
    requires
        head_fixed(h),
    ensures
        head_fixed(scheme_folded(h)),
{
    reveal_strlit("https://");
    reveal_strlit("http://");
    if is_prefix("https://"@, h) {
        let x = h.subrange(8, h.len() as int);
        assert(h =~= "https://"@ + x);
        lemma_web_host_end("https://"@, x);
        lemma_web_host_end("http://"@, x);
        let f = scheme_folded(h);
        assert(f == "http://"@ + x);
        assert forall|i: int| 0 <= i < host_end(f) implies ascii_lower(#[trigger] f[i]) == f[i] by {
            if i >= 7 {
                assert(f[i] == h[i + 1]);
            } else {
                assert(f[i] == "http://"@[i]);
            }
        }
    }
}

/// http and https name one resource: a URL written with `https://` and the
/// same URL written with `http://` normalize alike (for ASCII URLs, which
/// `normalize_url` normalizes to `normalized_ascii_url`).
pub proof fn lemma_https_is_http(rest: Seq<char>)
    ensures
        normalized_ascii_url("https://"@ + rest) == normalized_ascii_url("http://"@ + rest),
{
    reveal_strlit("https://");
    reveal_strlit("http://");
    let s1 = "https://"@;
    let s2 = "http://"@;
    assert(!s1.contains('#') && !s1.contains('?')) by {
        if s1.contains('#') || s1.contains('?') {
            let i = choose|i: int| 0 <= i < s1.len() && (s1[i] == '#' || s1[i] == '?');
        }
    }
    assert(!s2.contains('#') && !s2.contains('?')) by {
        if s2.contains('#') || s2.contains('?') {
            let i = choose|i: int| 0 <= i < s2.len() && (s2[i] == '#' || s2[i] == '?');
        }
    }
    lemma_url_parts_shift(s1, rest);
    lemma_url_parts_shift(s2, rest);
    let b = url_base(rest);
    lemma_web_head(s1, b);
    lemma_web_head(s2, b);
    let m = ascii_lowercase(b.subrange(0, slash_end(b))) + b.subrange(slash_end(b), b.len() as int);
    lemma_web_fold(s1, m);
    lemma_web_fold(s2, m);
}

/// A `/` appended behind the authority leaves where the authority ends.
proof fn lemma_slash_end_push(x: Seq<char>)
    ensures
        slash_end(x.push('/')) == slash_end(x),
{
    assert(x.push('/') =~= x + seq!['/']);
    if x.contains('/') {
        lemma_first_index_prefix(x, seq!['/'], '/');
    } else {
        lemma_first_index_none(x, '/');
        assert(crate::text::is_first_index(x.push('/'), '/', x.len() as int)) by {
            assert forall|j: int| 0 <= j < x.len() implies x.push('/')[j] != '/' by {
                assert(x.push('/')[j] == x[j]);
            }
        }
        lemma_first_index_at(x.push('/'), '/', x.len() as int);
    }
}

/// Trailing slashes do not matter: a web URL without query or fragment
/// normalizes like the same URL with a `/` appended (for ASCII URLs, which
/// `normalize_url` normalizes to `normalized_ascii_url`).
pub proof fn lemma_trailing_slash_ignored(url: Seq<char>)
    requires
        is_web_url(url),
        !url.contains('#'),
        !url.contains('?'),
    ensures
        normalized_ascii_url(url.push('/')) == normalized_ascii_url(url),
{
    reveal_strlit("https://");
    reveal_strlit("http://");
    let u2 = url.push('/');
    assert(!u2.contains('#') && !u2.contains('?')) by {
        if u2.contains('#') || u2.contains('?') {
            let i = choose|i: int| 0 <= i < u2.len() && (u2[i] == '#' || u2[i] == '?');
            assert(u2[i] == url[i]);
        }
    }
    lemma_first_index_none(url, '#');
    lemma_first_index_none(url, '?');
    lemma_first_index_none(u2, '#');
    lemma_first_index_none(u2, '?');
    let p = if is_prefix("https://"@, url) {
        "https://"@
    } else {
        "http://"@
    };
    let x = url.subrange(p.len() as int, url.len() as int);
    assert(url =~= p + x);
    assert(u2 =~= p + x.push('/'));
    lemma_web_head(p, x);
    lemma_web_head(p, x.push('/'));
    lemma_slash_end_push(x);
    lemma_slash_end_range(x);
    let e = slash_end(x);
    assert(x.push('/').subrange(0, e) =~= x.subrange(0, e));
    assert(x.push('/').subrange(e, x.len() + 1int) =~= x.subrange(e, x.len() as int).push('/'));
    let m = ascii_lowercase(x.subrange(0, e)) + x.subrange(e, x.len() as int);
    assert(ascii_lowercase(x.subrange(0, e)) + x.subrange(e, x.len() as int).push('/') =~= m.push(
        '/',
    ));
    lemma_web_fold(p, m);
    lemma_web_fold(p, m.push('/'));
    assert("http://"@ + m.push('/') =~= ("http://"@ + m).push('/'));
    assert(("http://"@ + m).push('/').drop_last() =~= "http://"@ + m);
}

// ─── Law: normalizing twice is normalizing once ─────────────

/// Every character of `s` satisfies `p`.
pub open spec fn all_chars(s: Seq<char>, p: spec_fn(char) -> bool) -> bool {
    forall|i: int| 0 <= i < s.len() ==> p(#[trigger] s[i])
}

/// A prefix keeps a property of every character.
proof fn lemma_all_chars_prefix(s: Seq<char>, n: int, p: spec_fn(char) -> bool)
    requires
        all_chars(s, p),
        0 <= n <= s.len(),
    ensures
        all_chars(s.subrange(0, n), p),
{
    assert forall|i: int| 0 <= i < n implies p(#[trigger] s.subrange(0, n)[i]) by {
        assert(s.subrange(0, n)[i] == s[i]);
    }
}

/// Trimming a character from the end leaves a prefix that does not end in
/// it.
proof fn lemma_trim_end_prefix(s: Seq<char>, c: char)
    ensures
        trim_end_char(s, c).len() <= s.len(),
        trim_end_char(s, c) == s.subrange(0, trim_end_char(s, c).len() as int),
        trim_end_char(s, c).len() == 0 || trim_end_char(s, c).last() != c,
    decreases s.len(),
{
    if s.len() > 0 && s.last() == c {
        lemma_trim_end_prefix(s.drop_last(), c);
        let t = trim_end_char(s.drop_last(), c);
        assert(s.drop_last().subrange(0, t.len() as int) =~= s.subrange(0, t.len() as int));
    } else {
        assert(s.subrange(0, s.len() as int) =~= s);
    }
}

/// Split parts keep a property of every character of the text, and hold no
/// separator; there is always at least one part.
proof fn lemma_split_parts(s: Seq<char>, c: char, p: spec_fn(char) -> bool)
    requires
        all_chars(s, p),
    ensures
        split_on(s, c).len() >= 1,
        forall|j: int|
            0 <= j < split_on(s, c).len() ==> all_chars(#[trigger] split_on(s, c)[j], p)
                && !split_on(s, c)[j].contains(c),
    decreases s.len(),
{
    if s.len() > 0 {
        let d = s.drop_last();
        assert(all_chars(d, p)) by {
            assert forall|i: int| 0 <= i < d.len() implies p(#[trigger] d[i]) by {
                assert(d[i] == s[i]);
            }
        }
        lemma_split_parts(d, c, p);
        let pre = split_on(d, c);
        if s.last() != c {
            let last = pre.last().push(s.last());
            assert(p(s[s.len() - 1]));
            assert(all_chars(last, p)) by {
                assert forall|i: int| 0 <= i < last.len() implies p(#[trigger] last[i]) by {
                    if i < pre.last().len() {
                        assert(last[i] == pre.last()[i]);
                    }
                }
            }
            assert(!last.contains(c)) by {
                if last.contains(c) {
                    let i = choose|i: int| 0 <= i < last.len() && last[i] == c;
                    if i < pre.last().len() {
                        assert(last[i] == pre.last()[i]);
                        assert(pre.last().contains(c));
                    }
                }
            }
            assert forall|j: int| 0 <= j < split_on(s, c).len() implies all_chars(
                #[trigger] split_on(s, c)[j],
                p,
            ) && !split_on(s, c)[j].contains(c) by {
                if j < pre.len() - 1 {
                    assert(split_on(s, c)[j] == pre[j]);
                }
            }
        } else {
            assert forall|j: int| 0 <= j < split_on(s, c).len() implies all_chars(
                #[trigger] split_on(s, c)[j],
                p,
            ) && !split_on(s, c)[j].contains(c) by {
                if j < pre.len() {
                    assert(split_on(s, c)[j] == pre[j]);
                } else {
                    assert(split_on(s, c)[j] =~= Seq::<char>::empty());
                }
            }
        }
    }
}

/// The kept parameters are parameters of the query.
proof fn lemma_kept_params_from(parts: Seq<Seq<char>>, j: int)
    requires
        0 <= j < kept_params(parts).len(),
    ensures
        exists|i: int| 0 <= i < parts.len() && parts[i] == kept_params(parts)[j],
        !is_tracking_key(before_first(kept_params(parts)[j], '=')),
    decreases parts.len(),
{
    let pre = kept_params(parts.drop_last());
    if j < pre.len() {
        lemma_kept_params_from(parts.drop_last(), j);
        let i = choose|i: int| 0 <= i < parts.drop_last().len() && parts.drop_last()[i] == pre[j];
        assert(parts[i] == pre[j]);
    } else {
        assert(parts[parts.len() - 1] == kept_params(parts)[j]);
    }
}

/// Filtering the tracking parameters twice filters them once.
proof fn lemma_kept_params_idempotent(parts: Seq<Seq<char>>)
    ensures
        kept_params(kept_params(parts)) == kept_params(parts),
    decreases parts.len(),
{
    if parts.len() > 0 {
        lemma_kept_params_idempotent(parts.drop_last());
        let pre = kept_params(parts.drop_last());
        if !is_tracking_key(before_first(parts.last(), '=')) {
            assert(pre.push(parts.last()).drop_last() =~= pre);
        }
    }
}

/// Joining parts keeps a property of every character of the parts and the
/// separator.
proof fn lemma_join_chars(parts: Seq<Seq<char>>, c: char, p: spec_fn(char) -> bool)
    requires
        p(c),
        forall|j: int| 0 <= j < parts.len() ==> all_chars(#[trigger] parts[j], p),
    ensures
        all_chars(join_with(parts, c), p),
    decreases parts.len(),
{
    if parts.len() > 1 {
        let d = parts.drop_last();
        assert forall|j: int| 0 <= j < d.len() implies all_chars(#[trigger] d[j], p) by {
            assert(d[j] == parts[j]);
        }
        lemma_join_chars(d, c, p);
        let a = join_with(d, c).push(c);
        let b = parts.last();
        assert(all_chars(b, p)) by {
            assert(parts[parts.len() - 1] == b);
        }
        assert forall|i: int| 0 <= i < (a + b).len() implies p(#[trigger] (a + b)[i]) by {
            if i < join_with(d, c).len() {
                assert((a + b)[i] == join_with(d, c)[i]);
            } else if i == join_with(d, c).len() {
                assert((a + b)[i] == c);
            } else {
                assert((a + b)[i] == b[i - a.len()]);
            }
        }
    } else if parts.len() == 1 {
        assert(parts[0] == join_with(parts, c));
    }
}

/// A text without the separator is one part.
proof fn lemma_split_single(t: Seq<char>, c: char)
    requires
        !t.contains(c),
    ensures
        split_on(t, c) == seq![t],
    decreases t.len(),
{
    if t.len() > 0 {
        let d = t.drop_last();
        assert(!d.contains(c)) by {
            if d.contains(c) {
                let i = choose|i: int| 0 <= i < d.len() && d[i] == c;
                assert(t[i] == c);
            }
        }
        lemma_split_single(d, c);
        assert(t.last() != c) by {
            assert(t[t.len() - 1] == t.last());
        }
        assert(d.push(t.last()) =~= t);
        assert(seq![d].update(0, d.push(t.last())) =~= seq![t]);
    } else {
        assert(t =~= Seq::<char>::empty());
    }
}

/// Splitting joined parts that hold no separator gives the parts back.
proof fn lemma_split_join(parts: Seq<Seq<char>>, c: char)
    requires
        parts.len() >= 1,
        forall|j: int| 0 <= j < parts.len() ==> !(#[trigger] parts[j]).contains(c),
    ensures
        split_on(join_with(parts, c), c) == parts,
    decreases parts.len(),
{
    if parts.len() == 1 {
        lemma_split_single(parts[0], c);
        assert(seq![parts[0]] =~= parts);
    } else {
        let d = parts.drop_last();
        assert forall|j: int| 0 <= j < d.len() implies !(#[trigger] d[j]).contains(c) by {
            assert(d[j] == parts[j]);
        }
        lemma_split_join(d, c);
        assert(!parts.last().contains(c)) by {
            assert(parts[parts.len() - 1] == parts.last());
        }
        lemma_split_on_append(join_with(d, c), c, parts.last());
        assert(join_with(d, c) + seq![c] + parts.last() =~= join_with(d, c).push(c) + parts.last());
        assert(d.push(parts.last()) =~= parts);
    }
}

/// The part before the first `c` is a prefix without `c`; when the text has
/// a `c`, its first one stands right after that part.
proof fn lemma_before_first_parts(s: Seq<char>, c: char)
    ensures
        before_first(s, c).len() <= s.len(),
        before_first(s, c) == s.subrange(0, before_first(s, c).len() as int),
        !before_first(s, c).contains(c),
        first_index(s, c) matches Some(i) ==> i == before_first(s, c).len() && i < s.len(),
        first_index(s, c) is None ==> before_first(s, c) == s,
{
    let b = before_first(s, c);
    if let Some(i) = first_index(s, c) {
        let x = choose|k: int| crate::text::is_first_index(s, c, k);
        assert(crate::text::is_first_index(s, c, x));
        assert(!b.contains(c)) by {
            if b.contains(c) {
                let j = choose|j: int| 0 <= j < b.len() && b[j] == c;
                assert(b[j] == s[j]);
            }
        }
    } else {
        assert(s.subrange(0, s.len() as int) =~= s);
        assert(!s.contains(c)) by {
            if s.contains(c) {
                let k = choose|k: int| 0 <= k < s.len() && s[k] == c;
                let m = lemma_min_index(s, c, k);
            }
        }
    }
}

/// The URL without its fragment holds no `#`, and is ASCII when the URL is.
proof fn lemma_fragment_free(u: Seq<char>)
    ensures
        before_first(u, '#') == u.subrange(0, before_first(u, '#').len() as int),
        forall|i: int|
            0 <= i < before_first(u, '#').len() ==> #[trigger] before_first(u, '#')[i] != '#' && (
            is_ascii_text(u) ==> (before_first(u, '#')[i] as u32) < 128),
{
    lemma_before_first_parts(u, '#');
    let nf = before_first(u, '#');
    assert forall|i: int| 0 <= i < nf.len() implies #[trigger] nf[i] != '#' && (is_ascii_text(u)
        ==> (nf[i] as u32) < 128) by {
        assert(nf[i] == u[i]);
        if nf[i] == '#' {
            assert(nf.contains('#'));
        }
    }
}

/// The normalized base of a URL: what precedes the query in its normal form.
spec fn normal_base(u: Seq<char>) -> Seq<char> {
    trim_end_char(scheme_folded(head_lowered_ascii(url_base(u))), '/')
}

/// The normalized base holds no `#` or `?`, is ASCII when the URL is, and
/// normalizes to itself.
proof fn lemma_normal_base(u: Seq<char>)
    ensures
        !normal_base(u).contains('#'),
        !normal_base(u).contains('?'),
        is_ascii_text(u) ==> is_ascii_text(normal_base(u)),
        trim_end_char(scheme_folded(head_lowered_ascii(normal_base(u))), '/') == normal_base(u),
{
    reveal_strlit("https://");
    reveal_strlit("http://");
    let asc = is_ascii_text(u);
    let pq = |c: char| c != '#' && (asc ==> (c as u32) < 128);
    let pb = |c: char| c != '#' && c != '?' && (asc ==> (c as u32) < 128);
    lemma_fragment_free(u);
    let nf = before_first(u, '#');
    assert(all_chars(nf, pq)) by {
        assert forall|i: int| 0 <= i < nf.len() implies pq(#[trigger] nf[i]) by {
            assert(nf[i] != '#');
        }
    }
    lemma_before_first_parts(nf, '?');
    let b0 = url_base(u);
    assert(b0 == before_first(nf, '?'));
    lemma_all_chars_prefix(nf, b0.len() as int, pq);
    let l = head_lowered_ascii(b0);
    lemma_head_lowered_facts(b0);
    let f = scheme_folded(l);
    let b = trim_end_char(f, '/');
    assert(all_chars(l, pb)) by {
        assert forall|i: int| 0 <= i < l.len() implies pb(#[trigger] l[i]) by {
            assert(pq(b0[i]));
            if b0[i] == '?' {
                assert(b0.contains('?'));
            }
        }
    }
    let https = is_prefix("https://"@, l);
    assert(all_chars(f, pb)) by {
        if https {
            assert forall|i: int| 0 <= i < f.len() implies pb(#[trigger] f[i]) by {
                if i >= 7 {
                    assert(f[i] == l[i + 1]);
                }
            }
        }
    }
    lemma_fold_head_fixed(l);
    lemma_trim_end_prefix(f, '/');
    lemma_all_chars_prefix(f, b.len() as int, pb);
    lemma_head_fixed_prefix(f, b.len() as int);
    assert(!b.contains('#') && !b.contains('?')) by {
        if b.contains('#') || b.contains('?') {
            let i = choose|i: int| 0 <= i < b.len() && (b[i] == '#' || b[i] == '?');
            assert(pb(b[i]));
        }
    }
    lemma_head_fixed_lowered(b);
    assert(!is_prefix("https://"@, b)) by {
        if is_prefix("https://"@, b) {
            assert(f.subrange(0, 8) =~= b.subrange(0, 8));
            if https {
                assert(f[4] == ':');
                assert(b.subrange(0, 8)[4] == b[4]);
            } else {
                assert(l.subrange(0, 8) =~= f.subrange(0, 8));
            }
        }
    }
    if asc {
        assert(is_ascii_text(b)) by {
            assert forall|i: int| 0 <= i < b.len() implies (#[trigger] b[i] as u32) < 128 by {
                assert(pb(b[i]));
            }
        }
    }
}

/// The normalized query part holds no `#`, has no base of its own, is ASCII
/// when the URL is, and is its own normalized query part.
proof fn lemma_normal_query(u: Seq<char>)
    ensures
        !query_part(url_query(u)).contains('#'),
        url_base(query_part(url_query(u))) == Seq::<char>::empty(),
        query_part(url_query(query_part(url_query(u)))) == query_part(url_query(u)),
        is_ascii_text(u) ==> is_ascii_text(query_part(url_query(u))),
{
    let asc = is_ascii_text(u);
    let pq = |c: char| c != '#' && (asc ==> (c as u32) < 128);
    lemma_fragment_free(u);
    let nf = before_first(u, '#');
    lemma_before_first_parts(nf, '?');
    let q = url_query(u);
    let qp = query_part(q);
    let mut jv = Seq::<char>::empty();
    if let Some(qs) = q {
        let i = first_index(nf, '?')->0;
        assert(qs == nf.subrange(i + 1, nf.len() as int));
        assert(all_chars(qs, pq)) by {
            assert forall|k: int| 0 <= k < qs.len() implies pq(#[trigger] qs[k]) by {
                assert(qs[k] == nf[k + i + 1]);
            }
        }
        lemma_split_parts(qs, '&', pq);
        let parts = split_on(qs, '&');
        let kept = kept_params(parts);
        assert forall|j: int| 0 <= j < kept.len() implies all_chars(#[trigger] kept[j], pq)
            && !kept[j].contains('&') by {
            lemma_kept_params_from(parts, j);
            let i2 = choose|i2: int| 0 <= i2 < parts.len() && parts[i2] == kept[j];
        }
        lemma_join_chars(kept, '&', pq);
        jv = join_with(kept, '&');
        if kept.len() > 0 {
            lemma_split_join(kept, '&');
            lemma_kept_params_idempotent(parts);
        }
    }
    assert(qp.len() == 0 || qp == seq!['?'] + jv);
    assert(all_chars(jv, pq));
    assert(!qp.contains('#')) by {
        if qp.contains('#') {
            let i = choose|i: int| 0 <= i < qp.len() && qp[i] == '#';
            assert(qp[i] == jv[i - 1]);
            assert(pq(jv[i - 1]));
        }
    }
    lemma_first_index_none(qp, '#');
    if qp.len() == 0 {
        lemma_first_index_none(qp, '?');
        assert(url_base(qp) =~= Seq::<char>::empty());
        assert(url_query(qp) is None);
    } else {
        assert(crate::text::is_first_index(qp, '?', 0));
        let x = choose|k: int| crate::text::is_first_index(qp, '?', k);
        assert(x == 0);
        assert(url_base(qp) =~= Seq::<char>::empty());
        assert(qp.subrange(1, qp.len() as int) =~= jv);
        assert(url_query(qp) == Some(jv));
    }
    if asc {
        assert(is_ascii_text(qp)) by {
            assert forall|i: int| 0 <= i < qp.len() implies (#[trigger] qp[i] as u32) < 128 by {
                if i > 0 {
                    assert(qp[i] == jv[i - 1]);
                    assert(pq(jv[i - 1]));
                }
            }
        }
    }
}

/// Normalizing twice is normalizing once: a normalized URL is its own
/// normal form. An ASCII URL normalizes to ASCII text, so for ASCII URLs
/// `normalize_url` applied twice gives what it gives once.
pub proof fn lemma_normalize_idempotent(u: Seq<char>)
    ensures
        normalized_ascii_url(normalized_ascii_url(u)) == normalized_ascii_url(u),
        is_ascii_text(u) ==> is_ascii_text(normalized_ascii_url(u)),
{
    lemma_normal_base(u);
    lemma_normal_query(u);
    let b = normal_base(u);
    let qp = query_part(url_query(u));
    let n = b + qp;
    assert(n == normalized_ascii_url(u));
    lemma_url_parts_shift(b, qp);
    assert(url_base(n) =~= b);
    if is_ascii_text(u) {
        assert(is_ascii_text(n)) by {
            assert forall|i: int| 0 <= i < n.len() implies (#[trigger] n[i] as u32) < 128 by {
                if i < b.len() {
                    assert(n[i] == b[i]);
                } else {
                    assert(n[i] == qp[i - b.len()]);
                }
            }
        }
    }
}

/// The resource key of an item depends only on its kind and on its URL,
/// path, process name and title (and on its id only when it has neither URL
/// nor path): it survives the window closing and reopening.
pub proof fn lemma_resource_key_instance_independent(a: ItemView, b: ItemView)
    requires
        a.item_type == b.item_type,
        a.url == b.url,
        a.path == b.path,
        a.process_name == b.process_name,
        a.title == b.title,
        a.item_type == ItemType::BrowserTab && a.url is None ==> a.id == b.id,
        a.item_type == ItemType::ExplorerWindow && a.path is None ==> a.id == b.id,
    ensures
        resource_key_of(a) == resource_key_of(b),
{
}

// ─── Law: duplicate groups are determined by the items ──────

/// Two strictly increasing key lists with the same keys are the same.
proof fn lemma_strictly_sorted_unique(a: Seq<Seq<char>>, b: Seq<Seq<char>>)
    requires
        strictly_sorted(a),
        strictly_sorted(b),
        forall|x: Seq<char>| a.contains(x) <==> b.contains(x),
    ensures
        a == b,
    decreases a.len(),
{
    if a.len() == 0 {
        if b.len() > 0 {
            assert(b.contains(b[0]));
        }
        assert(a =~= b);
    } else {
        assert(a.contains(a[0]));
        let j = choose|j: int| 0 <= j < b.len() && b[j] == a[0];
        assert(b.contains(b[0]));
        let k = choose|k: int| 0 <= k < a.len() && a[k] == b[0];
        if j > 0 {
            assert(lex_lt(b[0], b[j]));
            if k > 0 {
                assert(lex_lt(a[0], a[k]));
                lemma_lex_total(a[0], b[0]);
            } else {
                lemma_lex_irreflexive(a[0]);
            }
        }
        assert(a[0] == b[0]);
        let ta = a.drop_first();
        let tb = b.drop_first();
        assert forall|x: Seq<char>| ta.contains(x) <==> tb.contains(x) by {
            if ta.contains(x) {
                let i = choose|i: int| 0 <= i < ta.len() && ta[i] == x;
                assert(a[i + 1] == x);
                assert(lex_lt(a[0], a[i + 1]));
                lemma_lex_irreflexive(x);
                assert(b.contains(x));
                let m = choose|m: int| 0 <= m < b.len() && b[m] == x;
                assert(m != 0);
                assert(tb[m - 1] == x);
            }
            if tb.contains(x) {
                let i = choose|i: int| 0 <= i < tb.len() && tb[i] == x;
                assert(b[i + 1] == x);
                assert(lex_lt(b[0], b[i + 1]));
                lemma_lex_irreflexive(x);
                assert(a.contains(x));
                let m = choose|m: int| 0 <= m < a.len() && a[m] == x;
                assert(m != 0);
                assert(ta[m - 1] == x);
            }
        }
        assert(strictly_sorted(ta)) by {
            assert forall|x: int, y: int| 0 <= x < y < ta.len() implies lex_lt(#[trigger] ta[x], #[trigger] ta[y]) by {
                assert(ta[x] == a[x + 1] && ta[y] == a[y + 1]);
            }
        }
        assert(strictly_sorted(tb)) by {
            assert forall|x: int, y: int| 0 <= x < y < tb.len() implies lex_lt(#[trigger] tb[x], #[trigger] tb[y]) by {
                assert(tb[x] == b[x + 1] && tb[y] == b[y + 1]);
            }
        }
        lemma_strictly_sorted_unique(ta, tb);
        assert(a =~= b) by {
            assert forall|i: int| 0 <= i < a.len() implies a[i] == b[i] by {
                if i > 0 {
                    assert(a[i] == ta[i - 1] && b[i] == tb[i - 1]);
                }
            }
        }
    }
}

/// Items with the same id are the same item.
pub open spec fn ids_identify(s: Seq<ItemView>) -> bool {
    forall|x: ItemView, y: ItemView| s.contains(x) && s.contains(y) && x.id == y.id ==> x == y
}

/// Two item lists in presentation order with the same items are the same
/// list, when ids identify items.
proof fn lemma_sorted_items_unique(a: Seq<ItemView>, b: Seq<ItemView>)
    requires
        sorted_items(a),
        sorted_items(b),
        a.to_multiset() == b.to_multiset(),
        ids_identify(a),
    ensures
        a == b,
    decreases a.len(),
{
    broadcast use vstd::seq_lib::group_to_multiset_ensures;

    assert(a.len() == b.len()) by {
        assert(a.len() == a.to_multiset().len());
        assert(b.len() == b.to_multiset().len());
    }
    if a.len() == 0 {
        assert(a =~= b);
    } else {
        assert(a.to_multiset().contains(a[0]));
        assert(b.to_multiset().contains(a[0]));
        let j = choose|j: int| 0 <= j < b.len() && b[j] == a[0];
        assert(b.to_multiset().contains(b[0]));
        assert(a.to_multiset().contains(b[0]));
        let k = choose|k: int| 0 <= k < a.len() && a[k] == b[0];
        if k > 0 {
            assert(crate::order::item_le(a[0], a[k]));
        } else {
            crate::order::lemma_item_order(a[0], a[0], a[0]);
        }
        if j > 0 {
            assert(crate::order::item_le(b[0], b[j]));
        } else {
            crate::order::lemma_item_order(b[0], b[0], b[0]);
        }
        lemma_lex_total(a[0].last_active_at, b[0].last_active_at);
        lemma_lex_total(a[0].id, b[0].id);
        assert(a[0].id == b[0].id);
        assert(a.contains(a[0]) && a.contains(b[0]));
        assert(a[0] == b[0]);
        let ta = a.drop_first();
        let tb = b.drop_first();
        assert(a.remove(0) =~= ta);
        assert(b.remove(0) =~= tb);
        assert(ta.to_multiset() == a.to_multiset().remove(a[0]));
        assert(tb.to_multiset() == b.to_multiset().remove(b[0]));
        assert(sorted_items(ta)) by {
            assert forall|x: int, y: int| 0 <= x < y < ta.len() implies crate::order::item_le(#[trigger] ta[x], #[trigger] ta[y]) by {
                assert(ta[x] == a[x + 1] && ta[y] == a[y + 1]);
            }
        }
        assert(sorted_items(tb)) by {
            assert forall|x: int, y: int| 0 <= x < y < tb.len() implies crate::order::item_le(#[trigger] tb[x], #[trigger] tb[y]) by {
                assert(tb[x] == b[x + 1] && tb[y] == b[y + 1]);
            }
        }
        assert(ids_identify(ta)) by {
            assert forall|x: ItemView, y: ItemView| ta.contains(x) && ta.contains(y) && x.id == y.id implies x == y by {
                let i1 = choose|i: int| 0 <= i < ta.len() && ta[i] == x;
                let i2 = choose|i: int| 0 <= i < ta.len() && ta[i] == y;
                assert(a[i1 + 1] == x && a[i2 + 1] == y);
                assert(a.contains(x) && a.contains(y));
            }
        }
        lemma_sorted_items_unique(ta, tb);
        assert(a =~= b) by {
            assert forall|i: int| 0 <= i < a.len() implies a[i] == b[i] by {
                if i > 0 {
                    assert(a[i] == ta[i - 1] && b[i] == tb[i - 1]);
                }
            }
        }
    }
}

/// A key shared by some items is the key of one of them.
proof fn lemma_key_filter_member(items: Seq<ItemView>, k: Seq<char>, x: int)
    requires
        0 <= x < key_filter(items, k).len(),
    ensures
        items.contains(key_filter(items, k)[x]),
        resource_key_of(key_filter(items, k)[x]) == k,
    decreases items.len(),
{
    let pre = key_filter(items.drop_last(), k);
    if x < pre.len() {
        lemma_key_filter_member(items.drop_last(), k, x);
        let y = pre[x];
        let i = choose|i: int| 0 <= i < items.drop_last().len() && items.drop_last()[i] == y;
        assert(items[i] == y);
    } else {
        assert(items[items.len() - 1] == items.last());
    }
}

/// The keys of the groups, in order.
pub open spec fn group_keys(groups: Seq<DuplicateGroup>) -> Seq<Seq<char>> {
    groups.map_values(|g: DuplicateGroup| g.match_pattern@)
}

proof fn lemma_group_keys_members(items: Seq<ItemView>, groups: Seq<DuplicateGroup>, k: Seq<char>)
    requires
        duplicate_groups_of(items, groups),
    ensures
        group_keys(groups).contains(k) <==> key_filter(items, k).len() >= 2,
{
    broadcast use vstd::seq_lib::group_to_multiset_ensures;

    if group_keys(groups).contains(k) {
        let a = choose|a: int| 0 <= a < group_keys(groups).len() && group_keys(groups)[a] == k;
        let g = groups[a];
        assert(is_duplicate_group(items, g));
        assert(items_view(g.items@).len() == g.items@.len());
        assert(items_view(g.items@).to_multiset().len() == items_view(g.items@).len());
        assert(key_filter(items, k).to_multiset().len() == key_filter(items, k).len());
    }
    if key_filter(items, k).len() >= 2 {
        lemma_key_filter_member(items, k, 0);
        let v = key_filter(items, k)[0];
        let i = choose|i: int| 0 <= i < items.len() && items[i] == v;
        assert(key_filter(items, resource_key_of(items[i])).len() >= 2);
        let a = choose|a: int| 0 <= a < groups.len() && groups[a].match_pattern@ == resource_key_of(items[i]);
        assert(group_keys(groups)[a] == k);
    }
}

/// Duplicate detection is determined by the items: any two results (they
/// differ only in the random group ids) have the same groups in the same
/// order, each with the same kind, count and items; and when ids identify
/// items, the items of each group come in the same order, so "keep the
/// first item" means the same thing on every recompute.
pub proof fn lemma_duplicate_groups_determined(
    items: Seq<ItemView>,
    g1: Seq<DuplicateGroup>,
    g2: Seq<DuplicateGroup>,
)
    requires
        duplicate_groups_of(items, g1),
        duplicate_groups_of(items, g2),
    ensures
        g1.len() == g2.len(),
        forall|a: int|
            0 <= a < g1.len() ==> {
                &&& (#[trigger] g1[a]).match_pattern@ == g2[a].match_pattern@
                &&& g1[a].match_type@ == g2[a].match_type@
                &&& g1[a].count == g2[a].count
                &&& items_view(g1[a].items@).to_multiset() == items_view(g2[a].items@).to_multiset()
                &&& ids_identify(items) ==> items_view(g1[a].items@) == items_view(g2[a].items@)
            },
{
    broadcast use vstd::seq_lib::group_to_multiset_ensures;

    let k1 = group_keys(g1);
    let k2 = group_keys(g2);
    assert(strictly_sorted(k1)) by {
        assert forall|x: int, y: int| 0 <= x < y < k1.len() implies lex_lt(#[trigger] k1[x], #[trigger] k1[y]) by {
            assert(lex_lt(g1[x].match_pattern@, g1[y].match_pattern@));
        }
    }
    assert(strictly_sorted(k2)) by {
        assert forall|x: int, y: int| 0 <= x < y < k2.len() implies lex_lt(#[trigger] k2[x], #[trigger] k2[y]) by {
            assert(lex_lt(g2[x].match_pattern@, g2[y].match_pattern@));
        }
    }
    assert forall|x: Seq<char>| k1.contains(x) <==> k2.contains(x) by {
        lemma_group_keys_members(items, g1, x);
        lemma_group_keys_members(items, g2, x);
    }
    lemma_strictly_sorted_unique(k1, k2);
    assert(g1.len() == k1.len() && g2.len() == k2.len());
    assert forall|a: int| 0 <= a < g1.len() implies {
        &&& (#[trigger] g1[a]).match_pattern@ == g2[a].match_pattern@
        &&& g1[a].match_type@ == g2[a].match_type@
        &&& g1[a].count == g2[a].count
        &&& items_view(g1[a].items@).to_multiset() == items_view(g2[a].items@).to_multiset()
        &&& ids_identify(items) ==> items_view(g1[a].items@) == items_view(g2[a].items@)
    } by {
        assert(k1[a] == k2[a]);
        let x = g1[a];
        let y = g2[a];
        assert(is_duplicate_group(items, x));
        assert(is_duplicate_group(items, y));
        let xv = items_view(x.items@);
        let yv = items_view(y.items@);
        assert(xv.len() == xv.to_multiset().len());
        assert(yv.len() == yv.to_multiset().len());
        if ids_identify(items) {
            assert(ids_identify(xv)) by {
                assert forall|p: ItemView, q: ItemView| xv.contains(p) && xv.contains(q) && p.id == q.id implies p == q by {
                    let k = x.match_pattern@;
                    assert(xv.to_multiset().contains(p));
                    assert(key_filter(items, k).to_multiset().contains(p));
                    let ip = choose|i: int| 0 <= i < key_filter(items, k).len() && key_filter(items, k)[i] == p;
                    lemma_key_filter_member(items, k, ip);
                    assert(xv.to_multiset().contains(q));
                    assert(key_filter(items, k).to_multiset().contains(q));
                    let iq = choose|i: int| 0 <= i < key_filter(items, k).len() && key_filter(items, k)[i] == q;
                    lemma_key_filter_member(items, k, iq);
                }
            }
            lemma_sorted_items_unique(xv, yv);
        }
    }
}

/// The items with key `k` are, as a multiset, the items of that key: their
/// count depends on the multiset of the items only.
proof fn lemma_key_filter_counts(s: Seq<ItemView>, k: Seq<char>, v: ItemView)
    ensures
        key_filter(s, k).to_multiset().count(v) == if resource_key_of(v) == k {
            s.to_multiset().count(v)
        } else {
            0
        },
    decreases s.len(),
{
    broadcast use vstd::seq_lib::group_to_multiset_ensures;

    if s.len() == 0 {
        assert(key_filter(s, k).len() == 0);
        assert(key_filter(s, k).to_multiset().len() == 0);
        assert(s.to_multiset().len() == 0);
    } else {
        let pre = s.drop_last();
        lemma_key_filter_counts(pre, k, v);
        assert(pre.push(s.last()) =~= s);
        if resource_key_of(s.last()) == k {
            assert(key_filter(s, k) == key_filter(pre, k).push(s.last()));
        }
    }
}

/// Duplicate groups of some items are duplicate groups of any reordering of
/// them.
proof fn lemma_duplicate_groups_reordered(
    items1: Seq<ItemView>,
    items2: Seq<ItemView>,
    groups: Seq<DuplicateGroup>,
)
    requires
        items2.to_multiset() == items1.to_multiset(),
        duplicate_groups_of(items1, groups),
    ensures
        duplicate_groups_of(items2, groups),
{
    broadcast use vstd::seq_lib::group_to_multiset_ensures;

    assert forall|k: Seq<char>| #[trigger]
        key_filter(items2, k).to_multiset() == key_filter(items1, k).to_multiset() by {
        assert forall|v: ItemView|
            key_filter(items2, k).to_multiset().count(v) == key_filter(items1, k).to_multiset().count(
                v,
            ) by {
            lemma_key_filter_counts(items1, k, v);
            lemma_key_filter_counts(items2, k, v);
        }
        assert(key_filter(items2, k).to_multiset() =~= key_filter(items1, k).to_multiset());
    }
    assert forall|a: int| 0 <= a < groups.len() implies is_duplicate_group(
        items2,
        #[trigger] groups[a],
    ) by {
        assert(is_duplicate_group(items1, groups[a]));
        let k = groups[a].match_pattern@;
        assert(key_filter(items2, k).to_multiset() == key_filter(items1, k).to_multiset());
    }
    assert forall|i: int|
        0 <= i < items2.len() && #[trigger] key_filter(items2, resource_key_of(items2[i])).len()
            >= 2 implies exists|a: int|
        0 <= a < groups.len() && groups[a].match_pattern@ == resource_key_of(items2[i]) by {
        let k = resource_key_of(items2[i]);
        assert(items2.to_multiset().count(items2[i]) > 0);
        assert(items1.contains(items2[i]));
        let j = choose|j: int| 0 <= j < items1.len() && items1[j] == items2[i];
        assert(key_filter(items2, k).to_multiset() == key_filter(items1, k).to_multiset());
        assert(key_filter(items2, k).len() == key_filter(items2, k).to_multiset().len());
        assert(key_filter(items1, k).len() == key_filter(items1, k).to_multiset().len());
        assert(key_filter(items1, resource_key_of(items1[j])).len() >= 2);
    }
}

/// Duplicate detection does not depend on the order of the items: for any
/// reordering of the items, the results have the same groups in the same
/// order, each with the same kind, count and items (and, when ids identify
/// items, the same items in the same order); only the random group ids may
/// differ.
pub proof fn lemma_duplicate_groups_order_independent(
    items1: Seq<ItemView>,
    items2: Seq<ItemView>,
    g1: Seq<DuplicateGroup>,
    g2: Seq<DuplicateGroup>,
)
    requires
        items2.to_multiset() == items1.to_multiset(),
        duplicate_groups_of(items1, g1),
        duplicate_groups_of(items2, g2),
    ensures
        g1.len() == g2.len(),
        forall|a: int|
            0 <= a < g1.len() ==> {
                &&& (#[trigger] g1[a]).match_pattern@ == g2[a].match_pattern@
                &&& g1[a].match_type@ == g2[a].match_type@
                &&& g1[a].count == g2[a].count
                &&& items_view(g1[a].items@).to_multiset() == items_view(g2[a].items@).to_multiset()
                &&& ids_identify(items1) ==> items_view(g1[a].items@) == items_view(g2[a].items@)
            },
{
    lemma_duplicate_groups_reordered(items2, items1, g2);
    lemma_duplicate_groups_determined(items1, g1, g2);
}

} // verus!
