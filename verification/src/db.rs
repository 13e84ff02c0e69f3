//! Items and the table that keeps them, one row per item URL.

use crate::text::chars_of;
use std::collections::HashMap;
use vstd::prelude::*;

verus! {

/// One syndicated entry. The URL identifies it across the whole table.
#[derive(Debug)]
pub struct Item {
    pub read: bool,
    pub starred: bool,
    pub feed: String,
    pub retrieved_at: i64,
    pub title: Option<String>,
    pub url: String,
    pub published_at: Option<i64>,
    pub description: Option<String>,
}

/// The mathematical value of an [`Item`]: texts as sequences of characters.
pub struct ItemView {
    pub read: bool,
    pub starred: bool,
    pub feed: Seq<char>,
    pub retrieved_at: i64,
    pub title: Option<Seq<char>>,
    pub url: Seq<char>,
    pub published_at: Option<i64>,
    pub description: Option<Seq<char>>,
}

impl View for Item {
    type V = ItemView;

    open spec fn view(&self) -> ItemView {
        ItemView {
            read: self.read,
            starred: self.starred,
            feed: self.feed@,
            retrieved_at: self.retrieved_at,
            title: self.title.deep_view(),
            url: self.url@,
            published_at: self.published_at,
            description: self.description.deep_view(),
        }
    }
}

impl DeepView for Item {
    type V = ItemView;

    open spec fn deep_view(&self) -> ItemView {
        self@
    }
}

impl Clone for Item {
    fn clone(&self) -> (copy: Item)
        ensures
            copy@ == self@,
    {
        Item {
            read: self.read,
            starred: self.starred,
            feed: self.feed.clone(),
            retrieved_at: self.retrieved_at,
            title: self.title.clone(),
            url: self.url.clone(),
            published_at: self.published_at,
            description: self.description.clone(),
        }
    }
}

/// Whether some row carries this URL.
pub open spec fn has_url(rows: Seq<ItemView>, url: Seq<char>) -> bool {
    exists|i: int| 0 <= i < rows.len() && #[trigger] rows[i].url == url
}

/// No two rows carry the same URL.
pub open spec fn distinct_urls(rows: Seq<ItemView>) -> bool {
    forall|i: int, j: int|
        0 <= i < j < rows.len() ==> (#[trigger] rows[i]).url != (#[trigger] rows[j]).url
}

/// The row under which an item is first stored: the reader has neither read
/// nor starred it yet, whatever the item handed in says.
pub open spec fn fresh_row(item: ItemView) -> ItemView {
    ItemView { read: false, starred: false, ..item }
}

/// Insert-if-absent with the row taken as it is: a row whose URL is already
/// present wins, and nothing of it is overwritten.
pub open spec fn keep_or_push(rows: Seq<ItemView>, row: ItemView) -> Seq<ItemView> {
    if has_url(rows, row.url) {
        rows
    } else {
        rows.push(row)
    }
}

/// Insert-if-absent of a newly seen item, which starts unread and unstarred.
pub open spec fn upsert(rows: Seq<ItemView>, item: ItemView) -> Seq<ItemView> {
    keep_or_push(rows, fresh_row(item))
}

/// `upsert` of each of `items` in turn, first to last.
pub open spec fn upsert_all(rows: Seq<ItemView>, items: Seq<ItemView>) -> Seq<ItemView>
    decreases items.len(),
{
    if items.len() == 0 {
        rows
    } else {
        upsert(upsert_all(rows, items.drop_last()), items.last())
    }
}

/// `keep_or_push` of each of `more` in turn, first to last.
pub open spec fn keep_or_push_all(rows: Seq<ItemView>, more: Seq<ItemView>) -> Seq<ItemView>
    decreases more.len(),
{
    if more.len() == 0 {
        rows
    } else {
        keep_or_push(keep_or_push_all(rows, more.drop_last()), more.last())
    }
}

/// The rows with the read flag of the row under `url` set to `read`.
pub open spec fn with_read(rows: Seq<ItemView>, url: Seq<char>, read: bool) -> Seq<ItemView> {
    rows.map_values(
        |row: ItemView|
            if row.url == url {
                ItemView { read, ..row }
            } else {
                row
            },
    )
}

/// The rows with the starred flag of the row under `url` set to `starred`.
pub open spec fn with_starred(rows: Seq<ItemView>, url: Seq<char>, starred: bool) -> Seq<
    ItemView,
> {
    rows.map_values(
        |row: ItemView|
            if row.url == url {
                ItemView { starred, ..row }
            } else {
                row
            },
    )
}

/// The rows that belong to `feed`, in table order.
pub open spec fn of_feed(rows: Seq<ItemView>, feed: Seq<char>) -> Seq<ItemView> {
    rows.filter(|row: ItemView| row.feed == feed)
}

/// `latest` is the greatest retrieval time among the rows, or nothing when
/// there is no row.
pub open spec fn is_latest_retrieval(rows: Seq<ItemView>, latest: Option<i64>) -> bool {
    match latest {
        None => rows.len() == 0,
        Some(t) => {
            &&& exists|i: int| 0 <= i < rows.len() && #[trigger] rows[i].retrieved_at == t
            &&& forall|i: int| 0 <= i < rows.len() ==> #[trigger] rows[i].retrieved_at <= t
        },
    }
}

/// Insert-if-absent never drops or changes a row: the rows before it are
/// still the first rows after it, the URL handed in is present afterwards, and
/// distinct URLs stay distinct.
pub proof fn lemma_keep_or_push(rows: Seq<ItemView>, row: ItemView)
    ensures
        rows.len() <= keep_or_push(rows, row).len() <= rows.len() + 1,
        keep_or_push(rows, row).take(rows.len() as int) == rows,
        has_url(keep_or_push(rows, row), row.url),
        forall|url: Seq<char>| has_url(rows, url) ==> has_url(keep_or_push(rows, row), url),
        forall|url: Seq<char>|
            has_url(keep_or_push(rows, row), url) ==> has_url(rows, url) || url == row.url,
        distinct_urls(rows) ==> distinct_urls(keep_or_push(rows, row)),
{
    let after = keep_or_push(rows, row);
    assert(after.take(rows.len() as int) =~= rows);
    if !has_url(rows, row.url) {
        assert(after[rows.len() as int].url == row.url);
    }
    assert forall|url: Seq<char>| has_url(rows, url) implies has_url(after, url) by {
        let i = choose|i: int| 0 <= i < rows.len() && #[trigger] rows[i].url == url;
        assert(after[i].url == url);
    }
    assert forall|url: Seq<char>| has_url(after, url) implies has_url(rows, url) || url
        == row.url by {
        let i = choose|i: int| 0 <= i < after.len() && #[trigger] after[i].url == url;
        if i < rows.len() {
            assert(rows[i].url == url);
        }
    }
    if distinct_urls(rows) {
        assert forall|i: int, j: int| 0 <= i < j < after.len() implies (#[trigger] after[i]).url
            != (#[trigger] after[j]).url by {
            if j == rows.len() {
                assert(rows[i].url != row.url);
            } else {
                assert(rows[i].url != rows[j].url);
            }
        }
    }
}

/// Storing a list of items never drops or changes a row: the rows before it
/// are still the first rows after it, every URL of the list is present
/// afterwards, no URL appears that was neither there nor in the list, and
/// distinct URLs stay distinct.
pub proof fn lemma_upsert_all(rows: Seq<ItemView>, items: Seq<ItemView>)
    ensures
        rows.len() <= upsert_all(rows, items).len() <= rows.len() + items.len(),
        upsert_all(rows, items).take(rows.len() as int) == rows,
        forall|k: int|
            0 <= k < items.len() ==> has_url(upsert_all(rows, items), (#[trigger] items[k]).url),
        forall|url: Seq<char>| has_url(rows, url) ==> has_url(upsert_all(rows, items), url),
        forall|url: Seq<char>|
            has_url(upsert_all(rows, items), url) ==> has_url(rows, url) || has_url(items, url),
        distinct_urls(rows) ==> distinct_urls(upsert_all(rows, items)),
    decreases items.len(),
{
    if items.len() > 0 {
        let before = upsert_all(rows, items.drop_last());
        let after = upsert_all(rows, items);
        let row = fresh_row(items.last());
        lemma_upsert_all(rows, items.drop_last());
        lemma_keep_or_push(before, row);
        assert(after.take(rows.len() as int) =~= before.take(rows.len() as int));
        assert forall|k: int| 0 <= k < items.len() implies has_url(
            after,
            (#[trigger] items[k]).url,
        ) by {
            if k < items.len() - 1 {
                assert(items.drop_last()[k] == items[k]);
            }
        }
        assert forall|url: Seq<char>| has_url(after, url) implies has_url(rows, url) || has_url(
            items,
            url,
        ) by {
            if has_url(before, url) && !has_url(rows, url) {
                let k = choose|k: int|
                    0 <= k < items.drop_last().len() && #[trigger] items.drop_last()[k].url == url;
                assert(items[k].url == url);
            } else if !has_url(before, url) {
                assert(items[items.len() - 1].url == url);
            }
        }
    } else {
        assert(upsert_all(rows, items).take(rows.len() as int) =~= rows);
    }
}

/// A URL that is new to the table and stands in the list is stored with the
/// item that the list has for it, as a row that starts unread and unstarred.
pub proof fn lemma_upsert_all_new_url(
    rows: Seq<ItemView>,
    items: Seq<ItemView>,
    item: ItemView,
)
    requires
        !has_url(rows, item.url),
        has_url(items, item.url),
        forall|k: int|
            0 <= k < items.len() && (#[trigger] items[k]).url == item.url ==> items[k] == item,
    ensures
        upsert_all(rows, items).contains(fresh_row(item)),
    decreases items.len(),
{
    let rest = items.drop_last();
    let before = upsert_all(rows, rest);
    let after = upsert_all(rows, items);
    lemma_upsert_all(rows, rest);
    lemma_keep_or_push(before, fresh_row(items.last()));
    if has_url(rest, item.url) {
        assert forall|k: int|
            0 <= k < rest.len() && (#[trigger] rest[k]).url == item.url implies rest[k] == item by {
            assert(rest[k] == items[k]);
        }
        lemma_upsert_all_new_url(rows, rest, item);
        let at = choose|at: int| 0 <= at < before.len() && before[at] == fresh_row(item);
        assert(after.take(before.len() as int)[at] == before[at]);
        assert(after[at] == fresh_row(item));
    } else {
        let k = choose|k: int| 0 <= k < items.len() && #[trigger] items[k].url == item.url;
        if k < rest.len() {
            assert(rest[k].url == item.url);
        }
        assert(items.last() == item);
        assert(!has_url(before, item.url));
        assert(after[after.len() - 1] == fresh_row(item));
    }
}

/// Storing items whose URLs are all present already changes nothing.
pub proof fn lemma_upsert_all_known(rows: Seq<ItemView>, items: Seq<ItemView>)
    requires
        forall|k: int| 0 <= k < items.len() ==> has_url(rows, (#[trigger] items[k]).url),
    ensures
        upsert_all(rows, items) == rows,
    decreases items.len(),
{
    if items.len() > 0 {
        assert forall|k: int| 0 <= k < items.drop_last().len() implies has_url(
            rows,
            (#[trigger] items.drop_last()[k]).url,
        ) by {
            assert(items.drop_last()[k] == items[k]);
        }
        lemma_upsert_all_known(rows, items.drop_last());
        assert(has_url(rows, items[items.len() - 1].url));
    }
}

/// The range of the numbers that URLs are filed under.
const CODES: u64 = 288_230_376_151_711_717;

/// The number that a URL is filed under. Equal URLs have equal numbers.
spec fn url_code(url: Seq<char>) -> u64
    decreases url.len(),
{
    if url.len() == 0 {
        0
    } else {
        ((url_code(url.drop_last()) * 31 + url.last() as u32) % (CODES as int)) as u64
    }
}

/// Computes the number that a URL is filed under.
fn code_of(url: &String) -> (code: u64)
    ensures
        code == url_code(url@),
{
    let chars = chars_of(url.as_str());
    let mut code: u64 = 0;
    let mut i: usize = 0;
    assert(chars@.take(0) =~= Seq::<char>::empty());
    while i < chars.len()
        invariant
            i <= chars.len(),
            chars@ == url@,
            code < CODES,
            code == url_code(chars@.take(i as int)),
        decreases chars.len() - i,
    {
        proof {
            assert(chars@.take(i + 1).drop_last() =~= chars@.take(i as int));
            assert(chars@.take(i + 1).last() == chars@[i as int]);
        }
        let c = chars[i] as u32;
        code = (code * 31 + c as u64) % CODES;
        i += 1;
    }
    assert(chars@.take(chars.len() as int) =~= chars@);
    code
}

/// The item table: rows in the order in which they were first stored, at most
/// one per URL. The table is held in memory; its owner writes what changes
/// to wherever the rows are kept between sessions.
pub struct Database {
    rows: Vec<Item>,
    /// Under the number of each URL, the places of the rows with that number.
    places: HashMap<u64, Vec<usize>>,
}

impl View for Database {
    type V = Seq<ItemView>;

    closed spec fn view(&self) -> Seq<ItemView> {
        self.rows.deep_view()
    }
}

impl Database {
    /// Every row is filed under the number of its URL.
    spec fn filed(self) -> bool {
        forall|i: int|
            0 <= i < self.rows.len() ==> {
                let code = url_code((#[trigger] self.rows.deep_view()[i]).url);
                self.places@.contains_key(code) && self.places@[code]@.contains(i as usize)
            }
    }

    /// Every place that is on file is the place of a row.
    spec fn places_exist(self) -> bool {
        forall|code: u64, k: int|
            self.places@.contains_key(code) && 0 <= k < self.places@[code]@.len()
                ==> (#[trigger] self.places@[code]@[k]) < self.rows.len()
    }

    #[verifier::type_invariant]
    spec fn kept(self) -> bool {
        &&& distinct_urls(self.rows.deep_view())
        &&& self.filed()
        &&& self.places_exist()
    }

    /// An empty table.
    pub fn new() -> (db: Database)
        ensures
            db@ == Seq::<ItemView>::empty(),
    {
        let db = Database { rows: Vec::new(), places: HashMap::new() };
        assert(db.rows.deep_view() =~= Seq::<ItemView>::empty());
        db
    }

    /// The number of rows.
    pub fn len(&self) -> (n: usize)
        ensures
            n == self@.len(),
            distinct_urls(self@),
    {
        proof {
            use_type_invariant(self);
        }
        self.rows.len()
    }

    /// Does nothing when run. A proof learns from the call what holds of
    /// every table: no two rows share a URL.
    pub fn urls_are_distinct(&self)
        ensures
            distinct_urls(self@),
    {
        proof {
            use_type_invariant(self);
        }
    }

    /// Whether a row is stored under `url`.
    pub fn contains(&self, url: &String) -> (found: bool)
        ensures
            found == has_url(self@, url@),
    {
        self.position(url).is_some()
    }

    /// The position of the row stored under `url`, if there is one.
    fn position(&self, url: &String) -> (at: Option<usize>)
        ensures
            match at {
                Some(i) => i < self@.len() && self@[i as int].url == url@,
                None => !has_url(self@, url@),
            },
    {
        proof {
            use_type_invariant(self);
        }
        let code = code_of(url);
        match self.places.get(&code) {
            Some(filed) => {
                let mut k: usize = 0;
                while k < filed.len()
                    invariant
                        k <= filed.len(),
                        self.kept(),
                        self.places@.contains_key(code),
                        self.places@[code] == filed,
                        forall|j: int|
                            0 <= j < k ==> self@[(#[trigger] filed@[j]) as int].url != url@,
                    decreases filed.len() - k,
                {
                    let i = filed[k];
                    assert(i < self.rows.len());
                    if self.rows[i].url == *url {
                        return Some(i);
                    }
                    k += 1;
                }
                proof {
                    if has_url(self@, url@) {
                        let i = choose|i: int| 0 <= i < self@.len() && #[trigger] self@[i].url == url@;
                        assert(filed@.contains(i as usize));
                        let j = choose|j: int| 0 <= j < filed@.len() && filed@[j] == i as usize;
                        assert(self@[filed@[j] as int].url != url@);
                    }
                }
                None
            },
            None => {
                proof {
                    if has_url(self@, url@) {
                        let i = choose|i: int| 0 <= i < self@.len() && #[trigger] self@[i].url == url@;
                        assert(self.places@.contains_key(url_code(self.rows.deep_view()[i].url)));
                    }
                        }
                None
            },
        }
    }

    /// Puts a row with a new URL at the end of the table.
    fn push(&mut self, row: Item)
        requires
            !has_url(old(self)@, row@.url),
        ensures
            final(self)@ == old(self)@.push(row@),
    {
        proof {
            use_type_invariant(&*self);
        }
        let mut taken = Database::new();
        std::mem::swap(&mut taken, self);
        let Database { rows, places } = taken;
        let mut rows = rows;
        let mut places = places;
        let ghost before = Database { rows, places };
        let code = code_of(&row.url);
        let at = rows.len();
        let mut filed = match places.remove(&code) {
            Some(filed) => filed,
            None => Vec::new(),
        };
        filed.push(at);
        places.insert(code, filed);
        let ghost pushed = row@;
        rows.push(row);
        proof {
            let after = Database { rows, places };
            assert(after.rows.deep_view() =~= before.rows.deep_view().push(pushed));
            assert forall|i: int| 0 <= i < after.rows.len() implies {
                let c = url_code((#[trigger] after.rows.deep_view()[i]).url);
                after.places@.contains_key(c) && after.places@[c]@.contains(i as usize)
            } by {
                let c = url_code(after.rows.deep_view()[i].url);
                if i < at {
                    assert(after.rows.deep_view()[i] == before.rows.deep_view()[i]);
                    assert(before.places@.contains_key(c) && before.places@[c]@.contains(
                        i as usize,
                    ));
                    if c == code {
                        let k = choose|k: int|
                            0 <= k < before.places@[c]@.len() && before.places@[c]@[k]
                                == i as usize;
                        assert(filed@[k] == i as usize);
                    }
                } else {
                    assert(filed@[filed@.len() - 1] == at);
                }
            }
            assert forall|c: u64, k: int|
                after.places@.contains_key(c) && 0 <= k < after.places@[c]@.len() implies (
            #[trigger] after.places@[c]@[k]) < after.rows.len() by {
                if c == code {
                    if k < filed@.len() - 1 {
                        assert(before.places@.contains_key(c));
                        assert(filed@[k] == before.places@[c]@[k]);
                    }
                } else {
                    assert(before.places@.contains_key(c));
                    assert(after.places@[c] == before.places@[c]);
                }
            }
            lemma_keep_or_push(before.rows.deep_view(), pushed);
            assert(after.kept());
        }
        *self = Database { rows, places };
    }

    /// Puts `row` in the place of the row at `at`, which has the same URL.
    fn replace(&mut self, at: usize, row: Item)
        requires
            at < old(self)@.len(),
            row@.url == old(self)@[at as int].url,
        ensures
            final(self)@ == old(self)@.update(at as int, row@),
    {
        proof {
            use_type_invariant(&*self);
        }
        let mut taken = Database::new();
        std::mem::swap(&mut taken, self);
        let Database { rows, places } = taken;
        let mut rows = rows;
        let ghost before = rows.deep_view();
        let ghost put = row@;
        rows.set(at, row);
        proof {
            let after = Database { rows, places };
            assert(after.rows.deep_view() =~= before.update(at as int, put));
            assert forall|i: int| 0 <= i < after.rows.len() implies {
                let c = url_code((#[trigger] after.rows.deep_view()[i]).url);
                after.places@.contains_key(c) && after.places@[c]@.contains(i as usize)
            } by {
                assert(after.rows.deep_view()[i].url == before[i].url);
            }
            assert forall|i: int, j: int| 0 <= i < j < after.rows.len() implies (
            #[trigger] after.rows.deep_view()[i]).url != (#[trigger] after.rows.deep_view()[j]).url by {
                assert(before[i].url != before[j].url);
            }
            assert(after.kept());
        }
        *self = Database { rows, places };
    }

    /// Stores `item` unless a row with its URL exists already; says whether
    /// it was stored. A new row starts unread and unstarred.
    pub fn add_item(&mut self, item: &Item) -> (inserted: bool)
        ensures
            final(self)@ == upsert(old(self)@, item@),
            inserted == !has_url(old(self)@, item.url@),
            distinct_urls(final(self)@),
    {
        proof {
            use_type_invariant(&*self);
        }
        let inserted = if self.contains(&item.url) {
            false
        } else {
            let mut row = item.clone();
            row.read = false;
            row.starred = false;
            self.push(row);
            true
        };
        proof {
            use_type_invariant(&*self);
        }
        inserted
    }

    /// Stores each of `items` in turn unless a row with its URL exists
    /// already, and hands back copies of the rows that this added, in order.
    pub fn add_items(&mut self, items: &Vec<Item>) -> (added: Vec<Item>)
        ensures
            final(self)@ == upsert_all(old(self)@, items.deep_view()),
            final(self)@ == old(self)@ + added.deep_view(),
            distinct_urls(final(self)@),
    {
        let mut added: Vec<Item> = Vec::new();
        let mut i: usize = 0;
        proof {
            use_type_invariant(&*self);
        }
        while i < items.len()
            invariant
                i <= items.len(),
                self@ == upsert_all(old(self)@, items.deep_view().take(i as int)),
                self@ == old(self)@ + added.deep_view(),
                distinct_urls(self@),
            decreases items.len() - i,
        {
            proof {
                assert(items.deep_view().take(i + 1).drop_last() =~= items.deep_view().take(
                    i as int,
                ));
            }
            let ghost rows = self@;
            let ghost so_far = added.deep_view();
            if self.add_item(&items[i]) {
                let mut row = items[i].clone();
                row.read = false;
                row.starred = false;
                added.push(row);
                assert(added.deep_view() =~= so_far.push(fresh_row(items[i as int]@)));
                assert(self@ =~= old(self)@ + added.deep_view());
            }
            i += 1;
        }
        assert(items.deep_view().take(items.len() as int) =~= items.deep_view());
        added
    }

    /// A table that holds `rows` as they are, flags included, but for rows
    /// whose URL an earlier row already carries.
    pub fn with_rows(rows: Vec<Item>) -> (db: Database)
        ensures
            db@ == keep_or_push_all(Seq::empty(), rows.deep_view()),
            distinct_urls(db@),
    {
        let mut db = Database::new();
        let mut i: usize = 0;
        while i < rows.len()
            invariant
                i <= rows.len(),
                db@ == keep_or_push_all(Seq::empty(), rows.deep_view().take(i as int)),
            decreases rows.len() - i,
        {
            proof {
                assert(rows.deep_view().take(i + 1).drop_last() =~= rows.deep_view().take(
                    i as int,
                ));
            }
            if !db.contains(&rows[i].url) {
                db.push(rows[i].clone());
            }
            i += 1;
        }
        proof {
            use_type_invariant(&db);
            assert(rows.deep_view().take(rows.len() as int) =~= rows.deep_view());
        }
        db
    }

    /// Sets the read flag of the row stored under the URL of `item`; a table
    /// without such a row stays as it is.
    pub fn set_item_read(&mut self, item: &Item, read: bool)
        ensures
            final(self)@ == with_read(old(self)@, item.url@, read),
            distinct_urls(final(self)@),
    {
        proof {
            use_type_invariant(&*self);
        }
        match self.position(&item.url) {
            Some(i) => {
                let mut row = self.rows[i].clone();
                row.read = read;
                self.replace(i, row);
                assert(self@ =~= with_read(old(self)@, item.url@, read));
            },
            None => {
                assert(self@ =~= with_read(old(self)@, item.url@, read));
            },
        }
        proof {
            use_type_invariant(&*self);
        }
    }

    /// Sets the starred flag of the row stored under the URL of `item`; a
    /// table without such a row stays as it is.
    pub fn set_item_starred(&mut self, item: &Item, starred: bool)
        ensures
            final(self)@ == with_starred(old(self)@, item.url@, starred),
            distinct_urls(final(self)@),
    {
        proof {
            use_type_invariant(&*self);
        }
        match self.position(&item.url) {
            Some(i) => {
                let mut row = self.rows[i].clone();
                row.starred = starred;
                self.replace(i, row);
                assert(self@ =~= with_starred(old(self)@, item.url@, starred));
            },
            None => {
                assert(self@ =~= with_starred(old(self)@, item.url@, starred));
            },
        }
        proof {
            use_type_invariant(&*self);
        }
    }

    /// Copies of the rows that belong to `feed`, in table order.
    pub fn get_feed_items(&self, feed: &str) -> (items: Vec<Item>)
        ensures
            items.deep_view() == of_feed(self@, feed@),
    {
        let key = feed.to_owned();
        let ghost keep = |row: ItemView| row.feed == feed@;
        let mut items: Vec<Item> = Vec::new();
        let mut i: usize = 0;
        while i < self.rows.len()
            invariant
                i <= self.rows.len(),
                key@ == feed@,
                keep == |row: ItemView| row.feed == feed@,
                items.deep_view() == self@.take(i as int).filter(keep),
            decreases self.rows.len() - i,
        {
            proof {
                reveal(Seq::filter);
                assert(self@.take(i + 1).drop_last() =~= self@.take(i as int));
            }
            if self.rows[i].feed == key {
                let row = self.rows[i].clone();
                items.push(row);
                assert(items.deep_view() =~= self@.take(i as int).filter(keep).push(self@[i as int]));
            }
            i += 1;
        }
        assert(self@.take(self.rows.len() as int) =~= self@);
        items
    }

    /// The greatest retrieval time among the rows; nothing for an empty table.
    pub fn last_update(&self) -> (latest: Option<i64>)
        ensures
            is_latest_retrieval(self@, latest),
    {
        if self.rows.len() == 0 {
            return None;
        }
        let mut best: i64 = self.rows[0].retrieved_at;
        let ghost mut at: int = 0;
        let mut i: usize = 1;
        while i < self.rows.len()
            invariant
                1 <= i <= self.rows.len(),
                0 <= at < i,
                self@[at].retrieved_at == best,
                forall|k: int| 0 <= k < i ==> (#[trigger] self@[k]).retrieved_at <= best,
            decreases self.rows.len() - i,
        {
            if self.rows[i].retrieved_at > best {
                best = self.rows[i].retrieved_at;
                proof {
                    at = i as int;
                }
            }
            i += 1;
        }
        Some(best)
    }
}

} // verus!
