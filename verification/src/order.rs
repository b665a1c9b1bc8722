//! Orders used to present items deterministically: the code-point order of
//! texts (the order of `str`), and the item order "most recently active first,
//! then by id".

use crate::platform::{items_view, ItemView, TrackedItem};
use crate::text::{chars_eq, chars_of};
use vstd::prelude::*;

verus! {

broadcast use vstd::seq_lib::group_to_multiset_ensures;

/// Strict lexicographic order by code point: the order of `str` values.
pub open spec fn lex_lt(a: Seq<char>, b: Seq<char>) -> bool
    decreases a.len(),
{
    if a.len() == 0 {
        b.len() > 0
    } else if b.len() == 0 {
        false
    } else if a[0] != b[0] {
        a[0] < b[0]
    } else {
        lex_lt(a.drop_first(), b.drop_first())
    }
}

/// No text is below itself.
pub proof fn lemma_lex_irreflexive(a: Seq<char>)
    ensures
        !lex_lt(a, a),
    decreases a.len(),
{
    if a.len() > 0 {
        lemma_lex_irreflexive(a.drop_first());
    }
}

/// The order is transitive.
pub proof fn lemma_lex_transitive(a: Seq<char>, b: Seq<char>, c: Seq<char>)
    requires
        lex_lt(a, b),
        lex_lt(b, c),
    ensures
        lex_lt(a, c),
    decreases a.len(),
{
    if a.len() > 0 && b.len() > 0 && c.len() > 0 {
        if a[0] == b[0] && b[0] == c[0] {
            lemma_lex_transitive(a.drop_first(), b.drop_first(), c.drop_first());
        }
    }
}

/// Two different texts are ordered one way or the other, never both.
pub proof fn lemma_lex_total(a: Seq<char>, b: Seq<char>)
    ensures
        a != b ==> (lex_lt(a, b) || lex_lt(b, a)),
        !(lex_lt(a, b) && lex_lt(b, a)),
    decreases a.len(),
{
    if a.len() == 0 && b.len() == 0 {
        assert(a =~= b);
    } else if a.len() > 0 && b.len() > 0 && a[0] == b[0] {
        lemma_lex_total(a.drop_first(), b.drop_first());
        if a.drop_first() == b.drop_first() {
            assert(a =~= b) by {
                assert forall|i: int| 0 <= i < a.len() implies a[i] == b[i] by {
                    if i > 0 {
                        assert(a[i] == a.drop_first()[i - 1]);
                        assert(b[i] == b.drop_first()[i - 1]);
                    }
                }
            }
        }
    }
}

/// Code-point comparison of two texts.
pub fn text_lt(a: &Vec<char>, b: &Vec<char>) -> (r: bool)
    ensures
        r == lex_lt(a@, b@),
{
    let mut i: usize = 0;
    assert(a@.skip(0) =~= a@);
    assert(b@.skip(0) =~= b@);
    while i < a.len() && i < b.len() && a[i] == b[i]
        invariant
            i <= a.len(),
            i <= b.len(),
            lex_lt(a@, b@) == lex_lt(a@.skip(i as int), b@.skip(i as int)),
        decreases a.len() - i,
    {
        assert(a@.skip(i as int).drop_first() =~= a@.skip(i + 1));
        assert(b@.skip(i as int).drop_first() =~= b@.skip(i + 1));
        i += 1;
    }
    if i == a.len() {
        i < b.len()
    } else if i == b.len() {
        false
    } else {
        assert(a@.skip(i as int)[0] == a@[i as int]);
        assert(b@.skip(i as int)[0] == b@[i as int]);
        a[i] < b[i]
    }
}

/// `a` comes strictly before `b`: more recently active first (timestamps
/// compared as text, which orders RFC 3339 times), then by id.
pub open spec fn item_lt(a: ItemView, b: ItemView) -> bool {
    lex_lt(b.last_active_at, a.last_active_at) || (a.last_active_at == b.last_active_at
        && lex_lt(a.id, b.id))
}

/// `a` may come before `b`.
pub open spec fn item_le(a: ItemView, b: ItemView) -> bool {
    !item_lt(b, a)
}

/// Items in presentation order.
pub open spec fn sorted_items(s: Seq<ItemView>) -> bool {
    forall|i: int, j: int| 0 <= i < j < s.len() ==> item_le(#[trigger] s[i], #[trigger] s[j])
}

/// The item order is a strict weak order: `lt` followed by `le` is `lt`,
/// and `le` is total.
pub proof fn lemma_item_order(a: ItemView, b: ItemView, c: ItemView)
    ensures
        item_lt(a, b) && item_le(b, c) ==> item_lt(a, c),
        item_le(a, b) && item_lt(b, c) ==> item_lt(a, c),
        item_le(a, b) || item_le(b, a),
        item_lt(a, b) ==> item_le(a, b),
        !item_lt(a, a),
{
    lemma_lex_total(a.last_active_at, b.last_active_at);
    lemma_lex_total(b.last_active_at, c.last_active_at);
    lemma_lex_total(a.last_active_at, c.last_active_at);
    lemma_lex_total(a.id, b.id);
    lemma_lex_total(b.id, c.id);
    lemma_lex_total(a.id, c.id);
    lemma_lex_irreflexive(a.last_active_at);
    lemma_lex_irreflexive(a.id);
    if lex_lt(c.last_active_at, b.last_active_at) && lex_lt(b.last_active_at, a.last_active_at) {
        lemma_lex_transitive(c.last_active_at, b.last_active_at, a.last_active_at);
    }
    if lex_lt(a.id, b.id) && lex_lt(b.id, c.id) {
        lemma_lex_transitive(a.id, b.id, c.id);
    }
}

/// Does `a` come strictly before `b`?
pub fn item_before(a: &TrackedItem, b: &TrackedItem) -> (r: bool)
    ensures
        r == item_lt(a@, b@),
{
    let al = chars_of(a.last_active_at.as_str());
    let bl = chars_of(b.last_active_at.as_str());
    if text_lt(&bl, &al) {
        true
    } else if chars_eq(&al, &bl) {
        let ai = chars_of(a.id.as_str());
        let bi = chars_of(b.id.as_str());
        text_lt(&ai, &bi)
    } else {
        false
    }
}

/// `s` with `x` inserted behind every item that may come before it, so
/// behind the items equal to it in the order.
pub open spec fn insert_item(s: Seq<ItemView>, x: ItemView) -> Seq<ItemView>
    decreases s.len(),
{
    if s.len() == 0 {
        seq![x]
    } else if item_le(s.last(), x) {
        s.push(x)
    } else {
        insert_item(s.drop_last(), x).push(s.last())
    }
}

/// The stable sort of items into presentation order: each item in turn is
/// inserted behind the items that may come before it, so items that compare
/// equal keep their input order.
pub open spec fn stable_sorted_items(s: Seq<ItemView>) -> Seq<ItemView>
    decreases s.len(),
{
    if s.len() == 0 {
        s
    } else {
        insert_item(stable_sorted_items(s.drop_last()), s.last())
    }
}

/// In a sorted list, inserting behind the items that may come before `x`
/// inserts at the first position whose item comes strictly after `x`.
proof fn lemma_insert_item_at(s: Seq<ItemView>, x: ItemView, p: int)
    requires
        sorted_items(s),
        0 <= p <= s.len(),
        forall|q: int| 0 <= q < p ==> item_le(#[trigger] s[q], x),
        p < s.len() ==> item_lt(x, s[p]),
    ensures
        insert_item(s, x) == s.insert(p, x),
    decreases s.len(),
{
    if s.len() == 0 {
        assert(s.insert(p, x) =~= seq![x]);
    } else if p == s.len() {
        assert(item_le(s[s.len() - 1], x));
        assert(s.insert(p, x) =~= s.push(x));
    } else {
        let n = s.len() - 1;
        if p < n {
            assert(item_le(s[p], s[n]));
        }
        lemma_item_order(x, s[p], s[n]);
        assert(!item_le(s.last(), x));
        let d = s.drop_last();
        assert(sorted_items(d)) by {
            assert forall|a: int, b: int| 0 <= a < b < d.len() implies item_le(#[trigger] d[a], #[trigger] d[b]) by {
                assert(d[a] == s[a] && d[b] == s[b]);
            }
        }
        assert forall|q: int| 0 <= q < p implies item_le(#[trigger] d[q], x) by {
            assert(d[q] == s[q]);
        }
        if p < d.len() {
            assert(d[p] == s[p]);
        }
        lemma_insert_item_at(d, x, p);
        assert(d.insert(p, x).push(s.last()) =~= s.insert(p, x));
    }
}

/// Sort items into presentation order (most recently active first, then by
/// id). The sort is stable: items that compare equal keep their order.
pub fn sort_items(items: &Vec<TrackedItem>) -> (r: Vec<TrackedItem>)
    ensures
        items_view(r@) == stable_sorted_items(items_view(items@)),
        sorted_items(items_view(r@)),
        items_view(r@).to_multiset() == items_view(items@).to_multiset(),
        r@.len() == items@.len(),
{
    let mut r: Vec<TrackedItem> = Vec::new();
    let mut i: usize = 0;
    assert(items_view(items@.subrange(0, 0)) =~= Seq::<ItemView>::empty());
    while i < items.len()
        invariant
            i <= items.len(),
            r@.len() == i,
            sorted_items(items_view(r@)),
            items_view(r@).to_multiset() == items_view(items@.subrange(0, i as int)).to_multiset(),
            items_view(r@) == stable_sorted_items(items_view(items@.subrange(0, i as int))),
        decreases items.len() - i,
    {
        let x = items[i].copy();
        let ghost xv = x@;
        let ghost rv = items_view(r@);
        let mut p: usize = 0;
        while p < r.len() && !item_before(&x, &r[p])
            invariant
                p <= r.len(),
                rv == items_view(r@),
                xv == x@,
                forall|q: int| 0 <= q < p ==> item_le(#[trigger] rv[q], xv),
            decreases r.len() - p,
        {
            p += 1;
        }
        proof {
            if p < r.len() {
                assert(rv[p as int] == r@[p as int]@);
                assert(item_lt(xv, rv[p as int]));
            }
        }
        proof {
            lemma_insert_item_at(rv, xv, p as int);
        }
        r.insert(p, x);
        let ghost nv = items_view(r@);
        assert(nv =~= rv.insert(p as int, xv));
        assert(items_view(items@.subrange(0, i + 1)).drop_last() =~= items_view(
            items@.subrange(0, i as int),
        ));
        assert(sorted_items(nv)) by {
            assert forall|a: int, b: int| 0 <= a < b < nv.len() implies item_le(
                #[trigger] nv[a],
                #[trigger] nv[b],
            ) by {
                if b < p {
                    assert(nv[a] == rv[a] && nv[b] == rv[b]);
                    assert(item_le(rv[a], rv[b]));
                } else if b == p {
                    assert(nv[a] == rv[a]);
                    assert(nv[b] == xv);
                    assert(item_le(rv[a], xv));
                } else if a == p {
                    assert(nv[b] == rv[b - 1]);
                    assert(nv[a] == xv);
                    assert(item_lt(xv, rv[p as int]));
                    if b - 1 > p {
                        assert(item_le(rv[p as int], rv[b - 1]));
                    }
                    lemma_item_order(xv, rv[p as int], rv[b - 1]);
                    lemma_item_order(xv, rv[b - 1], rv[b - 1]);
                    assert(item_le(xv, rv[b - 1]));
                } else if a < p {
                    assert(nv[a] == rv[a] && nv[b] == rv[b - 1]);
                    assert(item_le(rv[a], rv[b - 1]));
                } else {
                    assert(nv[a] == rv[a - 1] && nv[b] == rv[b - 1]);
                    assert(item_le(rv[a - 1], rv[b - 1]));
                }
            }
        }
        assert(items_view(items@.subrange(0, i + 1)) =~= items_view(items@.subrange(0, i as int)).push(
            xv,
        ));
        i += 1;
    }
    assert(items@.subrange(0, items.len() as int) =~= items@);
    r
}

} // verus!
