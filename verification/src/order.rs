//! The order of the working set: most recently published first, undated
//! items last, and items of equal date in the order in which they came.

use crate::db::{distinct_urls, has_url, Item, ItemView};
use vstd::prelude::*;

verus! {

/// The place of a publication date in the order: the later the date the
/// greater, and no date at all below every date.
pub open spec fn rank(published_at: Option<i64>) -> int {
    match published_at {
        Some(at) => at as int,
        None => i64::MIN - 1,
    }
}

/// No item stands before one that was published later; undated items stand
/// after all dated ones.
pub open spec fn recent_first(items: Seq<ItemView>) -> bool {
    forall|i: int, j: int|
        0 <= i < j < items.len() ==> rank((#[trigger] items[i]).published_at) >= rank(
            (#[trigger] items[j]).published_at,
        )
}

/// `item` put into `sorted` before the first item that is not later than it.
pub open spec fn placed(item: ItemView, sorted: Seq<ItemView>) -> Seq<ItemView>
    decreases sorted.len(),
{
    if sorted.len() == 0 || rank(sorted[0].published_at) <= rank(item.published_at) {
        seq![item] + sorted
    } else {
        seq![sorted[0]] + placed(item, sorted.drop_first())
    }
}

/// The items most recent first. Items of equal date, and the undated among
/// themselves, keep the order that they have in `items`.
pub open spec fn by_recency(items: Seq<ItemView>) -> Seq<ItemView>
    decreases items.len(),
{
    if items.len() == 0 {
        items
    } else {
        placed(items[0], by_recency(items.drop_first()))
    }
}

/// Placing an item is inserting it after the items that are later than it.
proof fn lemma_placed_is_insert(item: ItemView, sorted: Seq<ItemView>, at: int)
    requires
        0 <= at <= sorted.len(),
        forall|k: int| 0 <= k < at ==> rank(sorted[k].published_at) > rank(item.published_at),
        at < sorted.len() ==> rank(sorted[at].published_at) <= rank(item.published_at),
    ensures
        placed(item, sorted) == sorted.insert(at, item),
    decreases at,
{
    if at == 0 {
        assert(seq![item] + sorted =~= sorted.insert(0, item));
    } else {
        let rest = sorted.drop_first();
        assert forall|k: int| 0 <= k < at - 1 implies rank(rest[k].published_at) > rank(
            item.published_at,
        ) by {
            assert(rest[k] == sorted[k + 1]);
        }
        lemma_placed_is_insert(item, rest, at - 1);
        assert(seq![sorted[0]] + rest.insert(at - 1, item) =~= sorted.insert(at, item));
    }
}

/// Placing an item keeps what was there, adds the item, and keeps the order.
pub proof fn lemma_placed(item: ItemView, sorted: Seq<ItemView>)
    ensures
        placed(item, sorted).to_multiset() == sorted.to_multiset().insert(item),
        placed(item, sorted).len() == sorted.len() + 1,
        recent_first(sorted) ==> recent_first(placed(item, sorted)),
    decreases sorted.len(),
{
    broadcast use vstd::seq_lib::group_to_multiset_ensures;

    let after = placed(item, sorted);
    if sorted.len() == 0 || rank(sorted[0].published_at) <= rank(item.published_at) {
        assert(after =~= sorted.insert(0, item));
        sorted.to_multiset_ensures();
        if recent_first(sorted) {
            assert forall|i: int, j: int| 0 <= i < j < after.len() implies rank(
                (#[trigger] after[i]).published_at,
            ) >= rank((#[trigger] after[j]).published_at) by {
                if i == 0 {
                    if j > 1 {
                        assert(rank(sorted[0].published_at) >= rank(sorted[j - 1].published_at));
                    }
                } else {
                    assert(rank(sorted[i - 1].published_at) >= rank(sorted[j - 1].published_at));
                }
            }
        }
    } else {
        let rest = sorted.drop_first();
        let inner = placed(item, rest);
        lemma_placed(item, rest);
        assert(sorted =~= seq![sorted[0]] + rest);
        assert(after =~= inner.insert(0, sorted[0]));
        assert(sorted =~= rest.insert(0, sorted[0]));
        inner.to_multiset_ensures();
        rest.to_multiset_ensures();
        assert(after.to_multiset() =~= sorted.to_multiset().insert(item));
        if recent_first(sorted) {
            assert forall|i: int, j: int| 0 <= i < j < rest.len() implies rank(
                (#[trigger] rest[i]).published_at,
            ) >= rank((#[trigger] rest[j]).published_at) by {
                assert(rank(sorted[i + 1].published_at) >= rank(sorted[j + 1].published_at));
            }
            assert(recent_first(inner));
            assert forall|k: int| 0 <= k < inner.len() implies rank(sorted[0].published_at)
                >= rank((#[trigger] inner[k]).published_at) by {
                assert(inner.to_multiset().count(inner[k]) > 0);
                if inner[k] != item {
                    assert(rest.to_multiset().count(inner[k]) > 0);
                    let m = choose|m: int| 0 <= m < rest.len() && rest[m] == inner[k];
                    assert(rank(sorted[0].published_at) >= rank(sorted[m + 1].published_at));
                }
            }
            assert forall|i: int, j: int| 0 <= i < j < after.len() implies rank(
                (#[trigger] after[i]).published_at,
            ) >= rank((#[trigger] after[j]).published_at) by {
                if i > 0 {
                    assert(rank(inner[i - 1].published_at) >= rank(inner[j - 1].published_at));
                } else {
                    assert(after[j] == inner[j - 1]);
                }
            }
        }
    }
}

/// The items by recency are the same items, each as often as before, and no
/// item stands before one that was published later, an undated item before
/// no dated one.
pub proof fn lemma_by_recency(items: Seq<ItemView>)
    ensures
        by_recency(items).to_multiset() == items.to_multiset(),
        by_recency(items).len() == items.len(),
        recent_first(by_recency(items)),
    decreases items.len(),
{
    broadcast use vstd::seq_lib::group_to_multiset_ensures;

    if items.len() > 0 {
        let rest = items.drop_first();
        lemma_by_recency(rest);
        lemma_placed(items[0], by_recency(rest));
        assert(items =~= rest.insert(0, items[0]));
        rest.to_multiset_ensures();
    }
}

/// A row put before others carries its own URL besides theirs, and shares
/// none with them exactly when all the URLs are distinct.
proof fn lemma_urls_with_first(first: ItemView, others: Seq<ItemView>)
    ensures
        forall|url: Seq<char>|
            #![trigger has_url(seq![first] + others, url)]
            #![trigger has_url(others, url)]
            has_url(seq![first] + others, url) <==> first.url == url || has_url(others, url),
        distinct_urls(seq![first] + others) <==> !has_url(others, first.url) && distinct_urls(
            others,
        ),
{
    let all = seq![first] + others;
    assert forall|url: Seq<char>| has_url(all, url) implies first.url == url || has_url(
        others,
        url,
    ) by {
        let i = choose|i: int| 0 <= i < all.len() && #[trigger] all[i].url == url;
        if i > 0 {
            assert(others[i - 1].url == url);
        }
    }
    assert forall|url: Seq<char>| first.url == url || has_url(others, url) implies has_url(
        all,
        url,
    ) by {
        if first.url == url {
            assert(all[0].url == url);
        } else {
            let i = choose|i: int| 0 <= i < others.len() && #[trigger] others[i].url == url;
            assert(all[i + 1].url == url);
        }
    }
    if distinct_urls(all) {
        if has_url(others, first.url) {
            let i = choose|i: int| 0 <= i < others.len() && #[trigger] others[i].url == first.url;
            assert(all[0].url != all[i + 1].url);
        }
        assert forall|i: int, j: int| 0 <= i < j < others.len() implies (#[trigger] others[i]).url
            != (#[trigger] others[j]).url by {
            assert(all[i + 1].url != all[j + 1].url);
        }
    }
    if !has_url(others, first.url) && distinct_urls(others) {
        assert forall|i: int, j: int| 0 <= i < j < all.len() implies (#[trigger] all[i]).url != (
        #[trigger] all[j]).url by {
            if i == 0 {
                assert(others[j - 1].url != first.url);
            } else {
                assert(others[i - 1].url != others[j - 1].url);
            }
        }
    }
}

/// Placing an item adds its URL to those that are there, and keeps the URLs
/// distinct if its own is new.
pub proof fn lemma_placed_urls(item: ItemView, sorted: Seq<ItemView>)
    ensures
        forall|url: Seq<char>|
            #![trigger has_url(placed(item, sorted), url)]
            #![trigger has_url(sorted, url)]
            has_url(placed(item, sorted), url) <==> item.url == url || has_url(sorted, url),
        distinct_urls(sorted) && !has_url(sorted, item.url) ==> distinct_urls(
            placed(item, sorted),
        ),
    decreases sorted.len(),
{
    let after = placed(item, sorted);
    if sorted.len() == 0 || rank(sorted[0].published_at) <= rank(item.published_at) {
        lemma_urls_with_first(item, sorted);
        assert(after == seq![item] + sorted);
        assert forall|url: Seq<char>| has_url(after, url) <==> item.url == url || has_url(
            sorted,
            url,
        ) by {
            assert(has_url(seq![item] + sorted, url) <==> item.url == url || has_url(sorted, url));
        }
    } else {
        let first = sorted[0];
        let rest = sorted.drop_first();
        let inner = placed(item, rest);
        assert(sorted =~= seq![first] + rest);
        assert(after == seq![first] + inner);
        lemma_placed_urls(item, rest);
        lemma_urls_with_first(first, rest);
        lemma_urls_with_first(first, inner);
        assert forall|url: Seq<char>| has_url(after, url) <==> item.url == url || has_url(
            sorted,
            url,
        ) by {
            assert(has_url(seq![first] + inner, url) <==> first.url == url || has_url(inner, url));
            assert(has_url(seq![first] + rest, url) <==> first.url == url || has_url(rest, url));
            assert(has_url(inner, url) <==> item.url == url || has_url(rest, url));
        }
        if distinct_urls(sorted) && !has_url(sorted, item.url) {
            assert(has_url(seq![first] + rest, item.url) <==> first.url == item.url || has_url(
                rest,
                item.url,
            ));
            assert(has_url(inner, first.url) <==> item.url == first.url || has_url(
                rest,
                first.url,
            ));
        }
    }
}

/// Sorting keeps the URLs: the same ones are there, and distinct ones stay
/// distinct.
pub proof fn lemma_by_recency_urls(items: Seq<ItemView>)
    ensures
        forall|url: Seq<char>|
            #![trigger has_url(by_recency(items), url)]
            #![trigger has_url(items, url)]
            has_url(by_recency(items), url) <==> has_url(items, url),
        distinct_urls(items) ==> distinct_urls(by_recency(items)),
    decreases items.len(),
{
    if items.len() > 0 {
        let first = items[0];
        let rest = items.drop_first();
        let sorted = by_recency(rest);
        assert(items =~= seq![first] + rest);
        lemma_by_recency_urls(rest);
        lemma_urls_with_first(first, rest);
        lemma_placed_urls(first, sorted);
        assert forall|url: Seq<char>| has_url(by_recency(items), url) <==> has_url(
            items,
            url,
        ) by {
            assert(has_url(placed(first, sorted), url) <==> first.url == url || has_url(
                sorted,
                url,
            ));
            assert(has_url(sorted, url) <==> has_url(rest, url));
            assert(has_url(seq![first] + rest, url) <==> first.url == url || has_url(rest, url));
        }
        if distinct_urls(items) {
            assert(has_url(sorted, first.url) <==> has_url(rest, first.url));
        }
    } else {
        assert forall|url: Seq<char>| has_url(by_recency(items), url) <==> has_url(
            items,
            url,
        ) by {}
    }
}

/// Items that are in order already stay as they are.
pub proof fn lemma_sorted_stays(items: Seq<ItemView>)
    requires
        recent_first(items),
    ensures
        by_recency(items) == items,
    decreases items.len(),
{
    if items.len() > 0 {
        let rest = items.drop_first();
        assert forall|i: int, j: int| 0 <= i < j < rest.len() implies rank(
            (#[trigger] rest[i]).published_at,
        ) >= rank((#[trigger] rest[j]).published_at) by {
            assert(rank(items[i + 1].published_at) >= rank(items[j + 1].published_at));
        }
        lemma_sorted_stays(rest);
        if rest.len() > 0 {
            assert(rank(items[0].published_at) >= rank(items[1].published_at));
            assert(rest[0] == items[1]);
        }
        assert(seq![items[0]] + rest =~= items);
    }
}

/// Whether a date ranks above another.
pub fn later(a: Option<i64>, b: Option<i64>) -> (yes: bool)
    ensures
        yes == (rank(a) > rank(b)),
{
    match (a, b) {
        (Some(x), Some(y)) => x > y,
        (Some(_), None) => true,
        (None, _) => false,
    }
}

/// Sorts the items most recent first, undated ones last, keeping the order
/// of items with equal dates.
pub fn sort_recent_first(items: Vec<Item>) -> (sorted: Vec<Item>)
    ensures
        sorted.deep_view() == by_recency(items.deep_view()),
        recent_first(sorted.deep_view()),
        sorted.deep_view().to_multiset() == items.deep_view().to_multiset(),
        sorted.len() == items.len(),
{
    let ghost all = items.deep_view();
    let mut rest = items;
    let mut sorted: Vec<Item> = Vec::new();
    assert(all.skip(all.len() as int) =~= Seq::<ItemView>::empty());
    assert(all.take(all.len() as int) =~= all);
    while rest.len() > 0
        invariant
            rest.len() <= all.len(),
            rest.deep_view() == all.take(rest.len() as int),
            sorted.deep_view() == by_recency(all.skip(rest.len() as int)),
        decreases rest.len(),
    {
        let ghost n = rest.len() as int;
        let ghost before = rest.deep_view();
        let item = rest.pop().unwrap();
        assert(item@ == before[n - 1]);
        assert(rest.deep_view() =~= all.take(n - 1));
        let mut at: usize = 0;
        while at < sorted.len() && later(sorted[at].published_at, item.published_at)
            invariant
                at <= sorted.len(),
                forall|k: int|
                    0 <= k < at ==> rank((#[trigger] sorted.deep_view()[k]).published_at) > rank(
                        item@.published_at,
                    ),
            decreases sorted.len() - at,
        {
            at += 1;
        }
        let ghost tail = sorted.deep_view();
        proof {
            lemma_placed_is_insert(item@, tail, at as int);
            assert(all.skip(n - 1).drop_first() =~= all.skip(n));
            assert(all.skip(n - 1)[0] == item@);
        }
        sorted.insert(at, item);
        assert(sorted.deep_view() =~= tail.insert(at as int, item@));
    }
    proof {
        assert(all.skip(0) =~= all);
        lemma_by_recency(all);
    }
    sorted
}

} // verus!
