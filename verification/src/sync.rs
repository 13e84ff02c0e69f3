//! The synchronisation pass: what each fetched feed document adds to the
//! item table.

use crate::db::{
    distinct_urls, has_url, lemma_upsert_all, lemma_upsert_all_known, lemma_upsert_all_new_url,
    upsert_all, Database, Item, ItemView,
};
use crate::feeds::{
    channel_entries, entry_date, get_items_at, is_fresh, item_of_entry, items_of_entries,
    lemma_age_retention, lemma_items_of_entries, offered_item, unix_now, EntryView, FeedError,
};
use vstd::prelude::*;

verus! {

/// What came of fetching one feed: its document, or nothing where the fetch
/// failed.
#[derive(Debug)]
pub struct Fetched {
    pub feed_url: String,
    pub content: Option<Vec<u8>>,
}

/// The mathematical value of a [`Fetched`].
pub struct FetchedView {
    pub feed_url: Seq<char>,
    pub content: Option<Seq<u8>>,
}

impl View for Fetched {
    type V = FetchedView;

    open spec fn view(&self) -> FetchedView {
        FetchedView { feed_url: self.feed_url@, content: self.content.deep_view() }
    }
}

impl DeepView for Fetched {
    type V = FetchedView;

    open spec fn deep_view(&self) -> FetchedView {
        self@
    }
}

/// The items that a document of `feed` read at time `now` offers to the
/// table, or why it offers none.
pub open spec fn document_items(feed: Seq<char>, content: Seq<u8>, now: i64) -> Result<
    Seq<ItemView>,
    FeedError,
> {
    match channel_entries(content) {
        Some(entries) => Ok(items_of_entries(entries, feed, now)),
        None => Err(FeedError::Malformed),
    }
}

/// The items that one fetched feed offers to the table at time `now`, or why
/// it offers none.
pub open spec fn feed_items(one: FetchedView, now: i64) -> Result<Seq<ItemView>, FeedError> {
    match one.content {
        Some(content) => document_items(one.feed_url, content, now),
        None => Err(FeedError::Unreachable),
    }
}

/// The table after one fetched feed: its items are stored unless their URL is
/// there already; a feed that failed leaves the table as it was.
pub open spec fn rows_after_feed(rows: Seq<ItemView>, one: FetchedView, now: i64) -> Seq<
    ItemView,
> {
    match feed_items(one, now) {
        Ok(items) => upsert_all(rows, items),
        Err(_) => rows,
    }
}

/// The table after a whole pass over the fetched feeds, first to last.
pub open spec fn rows_after_pass(rows: Seq<ItemView>, fetched: Seq<FetchedView>, now: i64) -> Seq<
    ItemView,
>
    decreases fetched.len(),
{
    if fetched.len() == 0 {
        rows
    } else {
        rows_after_feed(rows_after_pass(rows, fetched.drop_last(), now), fetched.last(), now)
    }
}

/// The report on one fetched feed: the rows that it added to `rows`, or why
/// it added none.
pub open spec fn feed_report(rows: Seq<ItemView>, one: FetchedView, now: i64) -> Result<
    Seq<ItemView>,
    FeedError,
> {
    match feed_items(one, now) {
        Ok(items) => Ok(upsert_all(rows, items).skip(rows.len() as int)),
        Err(why) => Err(why),
    }
}

/// The mathematical value of a report.
pub open spec fn report_view(report: Result<Vec<Item>, FeedError>) -> Result<
    Seq<ItemView>,
    FeedError,
> {
    match report {
        Ok(added) => Ok(added.deep_view()),
        Err(why) => Err(why),
    }
}

/// Entries that are too old add no row: a URL that is new to the table and
/// stands only on entries older than `MAX_AGE` is not in the table after
/// their feed has been taken in, whatever the age of the other entries.
pub proof fn lemma_old_entries_add_no_row(
    rows: Seq<ItemView>,
    entries: Seq<EntryView>,
    feed: Seq<char>,
    now: i64,
    url: Seq<char>,
)
    requires
        !has_url(rows, url),
        forall|j: int|
            0 <= j < entries.len() && (#[trigger] entries[j]).link == Some(url) ==> !is_fresh(
                entry_date(entries[j]),
                now,
            ),
    ensures
        !has_url(upsert_all(rows, items_of_entries(entries, feed, now)), url),
{
    let items = items_of_entries(entries, feed, now);
    lemma_upsert_all(rows, items);
    lemma_age_retention(entries, feed, now);
    if has_url(items, url) {
        let k = choose|k: int| 0 <= k < items.len() && #[trigger] items[k].url == url;
        let j = choose|j: int|
            0 <= j < entries.len() && (#[trigger] entries[j]).link.is_some() && is_fresh(
                entry_date(entries[j]),
                now,
            ) && items[k] == offered_item(entries[j], feed, now);
        assert(entries[j].link == Some(url));
    }
}

/// An entry that is not too old is stored: after its feed has been taken in,
/// the link of an entry that has one and is no older than `MAX_AGE` is in the
/// table, whatever the age of the other entries. Where the link is new to
/// the table and stands on no other entry, its row is the item of the entry:
/// in the feed, with the entry's date, retrieved at `now`, unread and
/// unstarred.
pub proof fn lemma_fresh_entry_is_stored(
    rows: Seq<ItemView>,
    entries: Seq<EntryView>,
    feed: Seq<char>,
    now: i64,
    entry: int,
)
    requires
        0 <= entry < entries.len(),
        entries[entry].link.is_some(),
        is_fresh(entry_date(entries[entry]), now),
    ensures
        has_url(
            upsert_all(rows, items_of_entries(entries, feed, now)),
            entries[entry].link.unwrap(),
        ),
        !has_url(rows, entries[entry].link.unwrap()) && (forall|j: int|
            0 <= j < entries.len() && j != entry ==> (#[trigger] entries[j]).link
                != entries[entry].link) ==> upsert_all(
            rows,
            items_of_entries(entries, feed, now),
        ).contains(offered_item(entries[entry], feed, now)),
{
    let items = items_of_entries(entries, feed, now);
    let item = offered_item(entries[entry], feed, now);
    let url = entries[entry].link.unwrap();
    lemma_upsert_all(rows, items);
    lemma_age_retention(entries, feed, now);
    let k = choose|k: int| 0 <= k < items.len() && #[trigger] items[k] == item;
    assert(items[k].url == url);
    if !has_url(rows, url) && (forall|j: int|
        0 <= j < entries.len() && j != entry ==> (#[trigger] entries[j]).link
            != entries[entry].link) {
        assert forall|m: int| 0 <= m < items.len() && (#[trigger] items[m]).url
            == item.url implies items[m] == item by {
            let j = choose|j: int|
                0 <= j < entries.len() && (#[trigger] entries[j]).link.is_some() && is_fresh(
                    entry_date(entries[j]),
                    now,
                ) && items[m] == offered_item(entries[j], feed, now);
            assert(entries[j].link == entries[entry].link);
        }
        lemma_upsert_all_new_url(rows, items, item);
    }
}

/// A pass never drops or changes a row: the rows before it are still the
/// first rows after it, in particular their read and starred flags and
/// their retrieval times; and distinct URLs stay distinct.
pub proof fn lemma_pass_keeps_rows(rows: Seq<ItemView>, fetched: Seq<FetchedView>, now: i64)
    ensures
        rows.len() <= rows_after_pass(rows, fetched, now).len(),
        rows_after_pass(rows, fetched, now).take(rows.len() as int) == rows,
        forall|url: Seq<char>|
            has_url(rows, url) ==> has_url(rows_after_pass(rows, fetched, now), url),
        distinct_urls(rows) ==> distinct_urls(rows_after_pass(rows, fetched, now)),
    decreases fetched.len(),
{
    if fetched.len() > 0 {
        let before = rows_after_pass(rows, fetched.drop_last(), now);
        let after = rows_after_pass(rows, fetched, now);
        lemma_pass_keeps_rows(rows, fetched.drop_last(), now);
        if let Ok(items) = feed_items(fetched.last(), now) {
            lemma_upsert_all(before, items);
        }
        assert(after.take(rows.len() as int) =~= before.take(rows.len() as int));
    } else {
        assert(rows.take(rows.len() as int) =~= rows);
    }
}

/// A feed that could not be fetched or read has no part in the pass. The
/// table ends as if that feed had not been in the list.
pub proof fn lemma_failed_feed_is_skipped(
    rows: Seq<ItemView>,
    fetched: Seq<FetchedView>,
    now: i64,
    failed: int,
)
    requires
        0 <= failed < fetched.len(),
        feed_items(fetched[failed], now).is_err(),
    ensures
        rows_after_pass(rows, fetched, now) == rows_after_pass(rows, fetched.remove(failed), now),
    decreases fetched.len(),
{
    if failed == fetched.len() - 1 {
        assert(fetched.remove(failed) =~= fetched.drop_last());
    } else {
        let others = fetched.remove(failed);
        assert(others.drop_last() =~= fetched.drop_last().remove(failed));
        assert(others.last() == fetched.last());
        lemma_failed_feed_is_skipped(rows, fetched.drop_last(), now, failed);
    }
}

/// Whatever happens to the other feeds of the list, every item that a feed
/// offers is in the table after the pass, under its URL.
pub proof fn lemma_pass_stores_every_item(
    rows: Seq<ItemView>,
    fetched: Seq<FetchedView>,
    now: i64,
    feed: int,
)
    requires
        0 <= feed < fetched.len(),
        feed_items(fetched[feed], now).is_ok(),
    ensures
        forall|k: int|
            0 <= k < feed_items(fetched[feed], now).unwrap().len() ==> has_url(
                rows_after_pass(rows, fetched, now),
                (#[trigger] feed_items(fetched[feed], now).unwrap()[k]).url,
            ),
    decreases fetched.len(),
{
    let before = rows_after_pass(rows, fetched.drop_last(), now);
    let after = rows_after_pass(rows, fetched, now);
    let offered = feed_items(fetched[feed], now).unwrap();
    if let Ok(items) = feed_items(fetched.last(), now) {
        lemma_upsert_all(before, items);
    }
    if feed < fetched.len() - 1 {
        assert(fetched.drop_last()[feed] == fetched[feed]);
        lemma_pass_stores_every_item(rows, fetched.drop_last(), now, feed);
        assert forall|k: int| 0 <= k < offered.len() implies has_url(
            after,
            (#[trigger] offered[k]).url,
        ) by {
            assert(has_url(before, offered[k].url));
        }
    }
}

/// A pass over feeds whose items are all in the table already changes
/// nothing.
proof fn lemma_pass_of_known_items(rows: Seq<ItemView>, fetched: Seq<FetchedView>, now: i64)
    requires
        forall|j: int, k: int|
            0 <= j < fetched.len() && feed_items(fetched[j], now).is_ok() && 0 <= k < feed_items(
                fetched[j],
                now,
            ).unwrap().len() ==> has_url(
                rows,
                (#[trigger] feed_items(fetched[j], now).unwrap()[k]).url,
            ),
    ensures
        rows_after_pass(rows, fetched, now) == rows,
    decreases fetched.len(),
{
    if fetched.len() > 0 {
        let rest = fetched.drop_last();
        assert forall|j: int, k: int|
            0 <= j < rest.len() && feed_items(rest[j], now).is_ok() && 0 <= k < feed_items(
                rest[j],
                now,
            ).unwrap().len() implies has_url(
            rows,
            (#[trigger] feed_items(rest[j], now).unwrap()[k]).url,
        ) by {
            assert(rest[j] == fetched[j]);
        }
        lemma_pass_of_known_items(rows, rest, now);
        if let Ok(items) = feed_items(fetched.last(), now) {
            let j = fetched.len() - 1;
            assert forall|k: int| 0 <= k < items.len() implies has_url(
                rows,
                (#[trigger] items[k]).url,
            ) by {
                assert(has_url(rows, feed_items(fetched[j], now).unwrap()[k].url));
            }
            lemma_upsert_all_known(rows, items);
        }
    }
}

/// A second pass over the same documents, at the same time or later, adds
/// nothing. The table holds each URL once, and the rows of the first pass
/// stay as they are.
pub proof fn lemma_second_pass_adds_nothing(
    rows: Seq<ItemView>,
    fetched: Seq<FetchedView>,
    now: i64,
    later: i64,
)
    requires
        now <= later,
    ensures
        rows_after_pass(rows_after_pass(rows, fetched, now), fetched, later) == rows_after_pass(
            rows,
            fetched,
            now,
        ),
{
    let once = rows_after_pass(rows, fetched, now);
    assert forall|j: int, k: int|
        0 <= j < fetched.len() && feed_items(fetched[j], later).is_ok() && 0 <= k < feed_items(
            fetched[j],
            later,
        ).unwrap().len() implies has_url(
        once,
        (#[trigger] feed_items(fetched[j], later).unwrap()[k]).url,
    ) by {
        let one = fetched[j];
        let entries = channel_entries(one.content.unwrap()).unwrap();
        let again = items_of_entries(entries, one.feed_url, later);
        let first = items_of_entries(entries, one.feed_url, now);
        assert(feed_items(one, later) == Ok::<Seq<ItemView>, FeedError>(again));
        assert(feed_items(one, now) == Ok::<Seq<ItemView>, FeedError>(first));
        lemma_items_of_entries(entries, one.feed_url, later);
        lemma_items_of_entries(entries, one.feed_url, now);
        let e = choose|e: int|
            0 <= e < entries.len() && item_of_entry(#[trigger] entries[e], one.feed_url, later)
                == Some(again[k]);
        assert(item_of_entry(entries[e], one.feed_url, now).is_some());
        let f = choose|f: int|
            0 <= f < first.len() && #[trigger] first[f] == item_of_entry(
                entries[e],
                one.feed_url,
                now,
            ).unwrap();
        assert(first[f].url == again[k].url);
        lemma_pass_stores_every_item(rows, fetched, now, j);
        assert(has_url(once, feed_items(fetched[j], now).unwrap()[f].url));
    }
    lemma_pass_of_known_items(once, fetched, later);
}

/// Taking the same document in a second time, at the same time or later,
/// adds nothing: the table has the same rows as after the first time, as many
/// and under the same URLs.
pub proof fn lemma_second_update_adds_nothing(
    rows: Seq<ItemView>,
    feed: Seq<char>,
    content: Seq<u8>,
    now: i64,
    later: i64,
)
    requires
        now <= later,
        document_items(feed, content, now).is_ok(),
    ensures
        document_items(feed, content, later).is_ok(),
        upsert_all(
            upsert_all(rows, document_items(feed, content, now).unwrap()),
            document_items(feed, content, later).unwrap(),
        ) == upsert_all(rows, document_items(feed, content, now).unwrap()),
{
    let one = FetchedView { feed_url: feed, content: Some(content) };
    let fetched = seq![one];
    let once = upsert_all(rows, document_items(feed, content, now).unwrap());
    assert(fetched.drop_last() =~= Seq::<FetchedView>::empty());
    assert(fetched.last() == one);
    assert(rows_after_pass(rows, fetched.drop_last(), now) == rows);
    assert(rows_after_pass(rows, fetched, now) == once);
    assert(rows_after_pass(once, fetched.drop_last(), later) == once);
    lemma_second_pass_adds_nothing(rows, fetched, now, later);
}

/// Takes a feed document read at time `now` into the table and hands back
/// copies of the rows that it added. A document that cannot be read changes
/// nothing.
pub fn update_at(feed_url: &str, content: &[u8], db: &mut Database, now: i64) -> (done: Result<
    Vec<Item>,
    FeedError,
>)
    ensures
        match done {
            Ok(added) => document_items(feed_url@, content@, now) matches Ok(items) && final(db)@
                == upsert_all(old(db)@, items) && final(db)@ == old(db)@ + added.deep_view(),
            Err(why) => document_items(feed_url@, content@, now) == Err::<Seq<ItemView>, FeedError>(why)
                && final(db)@ == old(db)@,
        },
        distinct_urls(final(db)@),
{
    db.urls_are_distinct();
    match get_items_at(feed_url, content, now) {
        Ok(items) => Ok(db.add_items(&items)),
        Err(why) => Err(why),
    }
}

/// Takes a feed document that has just been fetched into the table, its items
/// retrieved at the time that the clock shows.
pub fn update(feed_url: &str, content: &[u8], db: &mut Database) -> (done: Result<
    Vec<Item>,
    FeedError,
>)
    ensures
        match done {
            Ok(added) => channel_entries(content@).is_some() && final(db)@ == old(db)@
                + added.deep_view() && exists|now: i64|
                final(db)@ == upsert_all(
                    old(db)@,
                    #[trigger] items_of_entries(channel_entries(content@).unwrap(), feed_url@, now),
                ),
            Err(why) => channel_entries(content@).is_none() && why == FeedError::Malformed
                && final(db)@ == old(db)@,
        },
        distinct_urls(final(db)@),
{
    let now = unix_now();
    let done = update_at(feed_url, content, db, now);
    proof {
        if done.is_ok() {
            assert(db@ == upsert_all(
                old(db)@,
                items_of_entries(channel_entries(content@).unwrap(), feed_url@, now),
            ));
        }
    }
    done
}

/// One pass at time `now` over the feeds that were fetched: each document is
/// read and its items are stored, feed by feed. A feed that could not be
/// fetched or read is reported and changes nothing; the pass goes on with the
/// next. The reports stand in the order of the feeds.
pub fn sync_all_at(fetched: &Vec<Fetched>, db: &mut Database, now: i64) -> (reports: Vec<
    Result<Vec<Item>, FeedError>,
>)
    ensures
        final(db)@ == rows_after_pass(old(db)@, fetched.deep_view(), now),
        distinct_urls(final(db)@),
        reports.len() == fetched.len(),
        forall|i: int|
            0 <= i < fetched.len() ==> report_view(#[trigger] reports[i]) == feed_report(
                rows_after_pass(old(db)@, fetched.deep_view().take(i), now),
                fetched[i]@,
                now,
            ),
{
    db.urls_are_distinct();
    let ghost all = fetched.deep_view();
    let mut reports: Vec<Result<Vec<Item>, FeedError>> = Vec::new();
    let mut i: usize = 0;
    assert(all.take(0) =~= Seq::<FetchedView>::empty());
    while i < fetched.len()
        invariant
            i <= fetched.len(),
            all == fetched.deep_view(),
            distinct_urls(db@),
            db@ == rows_after_pass(old(db)@, all.take(i as int), now),
            reports.len() == i,
            forall|k: int|
                0 <= k < i ==> report_view(#[trigger] reports[k]) == feed_report(
                    rows_after_pass(old(db)@, all.take(k), now),
                    fetched[k]@,
                    now,
                ),
        decreases fetched.len() - i,
    {
        proof {
            assert(all.take(i + 1).drop_last() =~= all.take(i as int));
            assert(all.take(i + 1).last() == fetched[i as int]@);
        }
        let one = &fetched[i];
        let ghost before = db@;
        let report = match &one.content {
            Some(content) => {
                assert(content.deep_view() =~= content@);
                update_at(one.feed_url.as_str(), content.as_slice(), db, now)
            },
            None => Err(FeedError::Unreachable),
        };
        proof {
            if report.is_ok() {
                assert(db@.skip(before.len() as int) =~= report.unwrap().deep_view());
            }
        }
        assert(report_view(report) == feed_report(before, one@, now));
        assert(db@ == rows_after_feed(before, one@, now));
        reports.push(report);
        i += 1;
    }
    assert(all.take(fetched.len() as int) =~= all);
    reports
}

/// One pass over the feeds that were fetched, at the time that the clock
/// shows when the pass starts.
pub fn sync_all(fetched: &Vec<Fetched>, db: &mut Database) -> (reports: Vec<
    Result<Vec<Item>, FeedError>,
>)
    ensures
        reports.len() == fetched.len(),
        distinct_urls(final(db)@),
        exists|now: i64|
            {
                &&& final(db)@ == #[trigger] rows_after_pass(old(db)@, fetched.deep_view(), now)
                &&& forall|i: int|
                    0 <= i < fetched.len() ==> report_view(#[trigger] reports[i]) == feed_report(
                        rows_after_pass(old(db)@, fetched.deep_view().take(i), now),
                        fetched[i]@,
                        now,
                    )
            },
{
    let now = unix_now();
    let reports = sync_all_at(fetched, db, now);
    assert(db@ == rows_after_pass(old(db)@, fetched.deep_view(), now));
    reports
}

} // verus!
