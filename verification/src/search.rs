//! Ranking of tracked items against a search query.

use crate::platform::{opt_view, ItemView, TrackedItem};
use crate::text::{ascii_lower, ascii_lowercase, is_ascii_text, chars_eq, chars_of, contains, contains_seq, is_prefix, lower, lowercase, starts_with};
use vstd::prelude::*;

verus! {

/// Points for a match in an optional field.
pub open spec fn opt_contains_points(field: Option<Seq<char>>, q: Seq<char>, points: int) -> int {
    match field {
        Some(f) => if contains_seq(lowercase(f), q) {
            points
        } else {
            0
        },
        None => 0,
    }
}

/// How well an item matches a query, case-insensitively: exact title 100,
/// title containing the query 50, title starting with it 30, URL or path
/// containing it 40 each, process name containing it 20.
pub open spec fn match_score_of(item: ItemView, query: Seq<char>) -> int {
    score_lowered(item, lowercase(query))
}

/// The score of an ASCII query, whose lowercase is its ASCII lowercase:
/// what `match_score` returns for it.
pub open spec fn ascii_query_score(item: ItemView, query: Seq<char>) -> int {
    score_lowered(item, ascii_lowercase(query))
}

/// ASCII uppercase of a character.
pub open spec fn ascii_upper(c: char) -> char {
    if 97 <= (c as u32) <= 122 {
        ((c as u32) - 32) as char
    } else {
        c
    }
}

/// ASCII uppercase of a text.
pub open spec fn ascii_uppercase(s: Seq<char>) -> Seq<char> {
    s.map_values(|c: char| ascii_upper(c))
}

/// The case of an ASCII query does not matter: the query, its uppercase and
/// its lowercase are ASCII and score alike against every item.
pub proof fn lemma_query_case_ignored(item: ItemView, query: Seq<char>)
    requires
        is_ascii_text(query),
    ensures
        is_ascii_text(ascii_uppercase(query)),
        is_ascii_text(ascii_lowercase(query)),
        ascii_query_score(item, ascii_uppercase(query)) == ascii_query_score(item, query),
        ascii_query_score(item, ascii_lowercase(query)) == ascii_query_score(item, query),
{
    let u = ascii_uppercase(query);
    let l = ascii_lowercase(query);
    assert forall|i: int| 0 <= i < query.len() implies (#[trigger] u[i] as u32) < 128
        && ascii_lower(u[i]) == ascii_lower(query[i]) && (l[i] as u32) < 128 && ascii_lower(l[i])
        == ascii_lower(query[i]) by {
        let c = query[i];
        assert((c as u32) < 128);
    }
    assert(ascii_lowercase(u) =~= l);
    assert(ascii_lowercase(l) =~= l);
}

/// The score against a query already lowercased.
pub open spec fn score_lowered(item: ItemView, q: Seq<char>) -> int {
    let t = lowercase(item.title);
    (if t == q {
        100int
    } else {
        0int
    }) + (if contains_seq(t, q) {
        50int
    } else {
        0int
    }) + (if is_prefix(q, t) {
        30int
    } else {
        0int
    }) + opt_contains_points(item.url, q, 40) + opt_contains_points(item.path, q, 40) + (
    if contains_seq(lowercase(item.process_name), q) {
        20int
    } else {
        0int
    })
}

/// A title that starts with the query (both lowercased) earns the title
/// match and the starts-with bonus: at least 80 points.
pub proof fn lemma_title_prefix_bonus(item: ItemView, query: Seq<char>)
    requires
        is_prefix(lowercase(query), lowercase(item.title)),
    ensures
        match_score_of(item, query) >= 80,
{
    let q = lowercase(query);
    let t = lowercase(item.title);
    assert(crate::text::occurs_at(t, q, 0));
}

/// Between two items that differ only in their titles, the one whose title
/// starts with the query ranks above one whose title does not (wherever
/// else that title holds the query).
pub proof fn lemma_title_prefix_ranks_first(a: ItemView, b: ItemView, query: Seq<char>)
    requires
        a.url == b.url,
        a.path == b.path,
        a.process_name == b.process_name,
        is_prefix(lowercase(query), lowercase(a.title)),
        !is_prefix(lowercase(query), lowercase(b.title)),
    ensures
        match_score_of(a, query) > match_score_of(b, query),
{
    let q = lowercase(query);
    assert(crate::text::occurs_at(lowercase(a.title), q, 0));
    if lowercase(b.title) == q {
        assert(lowercase(b.title).subrange(0, q.len() as int) =~= q);
    }
}

fn opt_points(field: &Option<String>, q: &Vec<char>, points: i32) -> (r: i32)
    requires
        0 <= points <= 100,
    ensures
        r as int == opt_contains_points(opt_view(*field), q@, points as int),
        0 <= r <= points,
{
    match field {
        Some(f) => {
            let l = lower(&chars_of(f.as_str()));
            if contains(&l, q) {
                points
            } else {
                0
            }
        },
        None => 0,
    }
}

/// Score how well an item matches a query, for sorting results.
pub fn match_score(item: &TrackedItem, query: &str) -> (r: i32)
    ensures
        r as int == match_score_of(item@, query@),
        is_ascii_text(query@) ==> r as int == ascii_query_score(item@, query@),
{
    let q = lower(&chars_of(query));
    let t = lower(&chars_of(item.title.as_str()));
    let mut score: i32 = 0;
    if chars_eq(&t, &q) {
        score += 100;
    }
    if contains(&t, &q) {
        score += 50;
    }
    if starts_with(&t, &q) {
        score += 30;
    }
    score += opt_points(&item.url, &q, 40);
    score += opt_points(&item.path, &q, 40);
    let p = lower(&chars_of(item.process_name.as_str()));
    if contains(&p, &q) {
        score += 20;
    }
    score
}

} // verus!
