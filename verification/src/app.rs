//! The view model: the filter, the working set of items that it lets
//! through, the selection in it, the search over it, and the keys that drive
//! all of these.

use crate::db::{distinct_urls, is_latest_retrieval, Database, Item, ItemView};
use crate::events::{Event, Key};
use crate::feeds::{feed_title, remember, remembered_all, title_of, unix_now, Feed, FeedView};
use crate::model::{
    default_filter, distinct_feeds, feed_passes, filter_marks, gathered, item_passes,
    lemma_first_above, lemma_last_below, lemma_working_set_distinct, mark_toggled, marked_urls, matching_rows, next_read_filter,
    next_starred_filter, other_than, query_for, query_pattern, retrieved_after, rows_show,
    shown_date, shown_title, unread, working_set, ActionView, AppView, FilterView, PAGE,
};
use crate::order::{by_recency, recent_first, sort_recent_first};
use crate::search::Query;
use crate::text::{contains_text, has_text, occurs_in};
use crate::ui::{
    jump_ahead, jump_back, next_row, previous_row, row_ahead, row_back, step_backward,
    step_forward,
};
use crate::util::StatefulTable;
use chrono::TimeZone;
use std::fmt::Write;
use vstd::prelude::*;
use vstd::string::*;

verus! {

/// Whether keys are commands or the text of a search.
#[derive(Debug, Clone, Copy, PartialEq, Eq, Structural)]
pub enum InputMode {
    Normal,
    Search,
}

/// Whether a synchronisation pass is under way.
#[derive(Debug, Clone, Copy, PartialEq, Eq, Structural)]
pub enum Status {
    Idle,
    Updating,
}

/// Which items the working set shows. An empty list of feeds, keywords or
/// tags lets everything through.
#[derive(Debug)]
pub struct Filter {
    pub read: Option<bool>,
    pub starred: Option<bool>,
    pub feeds: Vec<String>,
    pub keywords: Vec<String>,
    pub tags: Vec<String>,
}

impl View for Filter {
    type V = FilterView;

    open spec fn view(&self) -> FilterView {
        FilterView {
            read: self.read,
            starred: self.starred,
            feeds: self.feeds.deep_view(),
            keywords: self.keywords.deep_view(),
            tags: self.tags.deep_view(),
        }
    }
}

impl DeepView for Filter {
    type V = FilterView;

    open spec fn deep_view(&self) -> FilterView {
        self@
    }
}

impl Default for Filter {
    /// The filter that a session starts with: unread items of every feed.
    fn default() -> (filter: Filter)
        ensures
            filter@ == default_filter(),
    {
        let filter = Filter {
            read: Some(false),
            starred: None,
            feeds: Vec::new(),
            keywords: Vec::new(),
            tags: Vec::new(),
        };
        assert(filter.feeds.deep_view() =~= Seq::<Seq<char>>::empty());
        assert(filter.keywords.deep_view() =~= Seq::<Seq<char>>::empty());
        assert(filter.tags.deep_view() =~= Seq::<Seq<char>>::empty());
        filter
    }
}

impl Filter {
    /// The marks that show what the filter asks for, in brackets.
    pub fn marks(&self) -> (marks: String)
        ensures
            marks@ == filter_marks(self@),
    {
        let mut marks = String::from_str("[");
        match self.read {
            Some(true) => marks.append("R"),
            Some(false) => marks.append("Я"),
            None => {},
        }
        match self.starred {
            Some(true) => marks.append("S"),
            Some(false) => marks.append("Ƨ"),
            None => {},
        }
        if self.tags.len() > 0 {
            marks.append("T");
        }
        if self.feeds.len() > 0 {
            marks.append("C");
        }
        marks.append("]");
        proof {
            reveal_strlit("[");
            reveal_strlit("R");
            reveal_strlit("Я");
            reveal_strlit("S");
            reveal_strlit("Ƨ");
            reveal_strlit("T");
            reveal_strlit("C");
            reveal_strlit("]");
            assert(marks@ =~= filter_marks(self@));
        }
        marks
    }

    /// Whether the items of `feed` are shown.
    #[verifier::loop_isolation(false)]
    pub fn filter_feed(&self, feed: &Feed) -> (shown: bool)
        ensures
            shown == feed_passes(self@, feed@),
    {
        if self.feeds.len() > 0 && !has_text(&self.feeds, &feed.url) {
            return false;
        }
        if self.tags.len() == 0 {
            return true;
        }
        let mut i: usize = 0;
        while i < self.tags.len()
            invariant
                i <= self.tags.len(),
                forall|k: int|
                    0 <= k < i ==> !feed@.tags.contains(#[trigger] self@.tags[k]),
            decreases self.tags.len() - i,
        {
            if has_text(&feed.tags, &self.tags[i]) {
                assert(feed@.tags.contains(self@.tags[i as int]));
                return true;
            }
            i += 1;
        }
        false
    }

    /// Whether `item` is shown, given that its feed is.
    #[verifier::loop_isolation(false)]
    pub fn filter_item(&self, item: &Item) -> (shown: bool)
        ensures
            shown == item_passes(self@, item@),
    {
        match self.read {
            Some(read) => {
                if item.read != read {
                    return false;
                }
            },
            None => {},
        }
        match self.starred {
            Some(starred) => {
                if item.starred != starred {
                    return false;
                }
            },
            None => {},
        }
        if self.keywords.len() == 0 {
            return true;
        }
        match &item.title {
            Some(title) => {
                let mut i: usize = 0;
                while i < self.keywords.len()
                    invariant
                        i <= self.keywords.len(),
                        item@.title == Some(title@),
                        forall|k: int|
                            0 <= k < i ==> !occurs_in(#[trigger] self@.keywords[k], title@),
                    decreases self.keywords.len() - i,
                {
                    if contains_text(title.as_str(), self.keywords[i].as_str()) {
                        assert(occurs_in(self@.keywords[i as int], title@));
                        return true;
                    }
                    i += 1;
                }
                false
            },
            None => false,
        }
    }
}

/// The view model. The selection is a row of the table, which shows the
/// items one row each.
pub struct App {
    pub focus_reader: bool,
    pub status: Status,
    pub input_mode: InputMode,
    pub last_updated: i64,
    pub filter: Filter,
    pub items: Vec<Item>,
    pub feeds: Vec<Feed>,
    pub table: StatefulTable,
    pub search_results: Vec<usize>,
    pub search_input_raw: String,
    pub search_input: Option<Query>,
    pub search_query: Option<Query>,
    pub reader_scroll: u16,
    pub marked: Vec<usize>,
}

impl View for App {
    type V = AppView;

    open spec fn view(&self) -> AppView {
        AppView {
            focus_reader: self.focus_reader,
            status: self.status,
            input_mode: self.input_mode,
            last_updated: self.last_updated,
            filter: self.filter@,
            items: self.items.deep_view(),
            feeds: self.feeds.deep_view(),
            selected: self.table.state@,
            rows: self.table.items.deep_view(),
            search_results: self.search_results@,
            search_input_raw: self.search_input_raw@,
            search_input: self.search_input.deep_view(),
            search_query: self.search_query.deep_view(),
            reader_scroll: self.reader_scroll,
            marked: self.marked@,
        }
    }
}

/// What the caller is to do after an event.
#[derive(Debug)]
pub enum Action {
    /// Nothing.
    Nothing,
    /// End the session.
    Quit,
    /// Open this URL in the browser.
    Open(String),
    /// Tell the reader of keys whether the quit key is to be ignored.
    IgnoreExitKey(bool),
    /// Read the feeds and reload the items.
    Reload,
}

impl View for Action {
    type V = ActionView;

    open spec fn view(&self) -> ActionView {
        match self {
            Action::Nothing => ActionView::Nothing,
            Action::Quit => ActionView::Quit,
            Action::Open(url) => ActionView::Open(url@),
            Action::IgnoreExitKey(ignore) => ActionView::IgnoreExitKey(*ignore),
            Action::Reload => ActionView::Reload,
        }
    }
}

/// `String::push`. Trusted: the character is appended to the text.
#[verifier::external_body]
fn push_char(text: &mut String, c: char)
    ensures
        final(text)@ == old(text)@.push(c),
{
    text.push(c);
}

/// `chrono::Local`'s `timestamp_opt` for the seconds, `single` of that, and
/// `DateTime::format` with the format, written out. Nothing is claimed of
/// the text: it depends on the time zone of the machine. There is no text
/// for seconds outside the range of dates or for a format that cannot be
/// written.
#[verifier::external_body]
fn local_time_text(seconds: i64, format: &str) -> (text: Option<String>) {
    let moment = chrono::Local.timestamp_opt(seconds, 0).single()?;
    let mut text = String::new();
    write!(text, "{}", moment.format(format)).ok().map(|_| text)
}

/// The table row for an item whose date reads `date`.
pub fn table_row(item: &Item, date: Option<String>) -> (row: Vec<String>)
    ensures
        row.deep_view() == seq![shown_title(item@), shown_date(date.deep_view())],
{
    let title = match &item.title {
        Some(title) => title.clone(),
        None => String::from_str("<no title>"),
    };
    let shown = match date {
        Some(text) => text,
        None => String::from_str("<no pub date>"),
    };
    let mut row: Vec<String> = Vec::new();
    row.push(title);
    row.push(shown);
    assert(row.deep_view() =~= seq![shown_title(item@), shown_date(date.deep_view())]);
    row
}

impl App {
    /// The view model at the start of a session: no items yet, nothing
    /// selected, the default filter, keys taken as commands.
    pub fn new() -> (app: App)
        ensures
            app@ == (AppView {
                focus_reader: false,
                status: Status::Idle,
                input_mode: InputMode::Normal,
                last_updated: 0,
                filter: default_filter(),
                items: Seq::empty(),
                feeds: Seq::empty(),
                selected: None,
                rows: Seq::empty(),
                search_results: Seq::empty(),
                search_input_raw: Seq::empty(),
                search_input: None,
                search_query: None,
                reader_scroll: 0,
                marked: Seq::empty(),
            }),
    {
        let app = App {
            input_mode: InputMode::Normal,
            focus_reader: false,
            status: Status::Idle,
            last_updated: 0,
            filter: Filter::default(),
            items: Vec::new(),
            feeds: Vec::new(),
            table: StatefulTable::new(),
            search_input: None,
            search_query: None,
            search_results: Vec::new(),
            search_input_raw: String::new(),
            reader_scroll: 0,
            marked: Vec::new(),
        };
        assert(app.items.deep_view() =~= Seq::<ItemView>::empty());
        assert(app.feeds.deep_view() =~= Seq::<FeedView>::empty());
        assert(app.table.items.deep_view() =~= Seq::<Seq<Seq<char>>>::empty());
        app
    }

    /// Reads the working set off the table of items: the rows of the feeds
    /// that pass the filter, those of them that pass it themselves, most
    /// recent first. The feeds are remembered for later reference.
    pub fn _load_items(&mut self, feeds: &Vec<Feed>, db: &Database) -> (items: Vec<Item>)
        ensures
            items.deep_view() == working_set(old(self)@.filter, feeds.deep_view(), db@),
            recent_first(items.deep_view()),
            distinct_feeds(feeds.deep_view()) ==> distinct_urls(items.deep_view()),
            final(self)@ == (AppView {
                feeds: remembered_all(old(self)@.feeds, feeds.deep_view()),
                ..old(self)@
            }),
    {
        db.urls_are_distinct();
        proof {
            if distinct_feeds(feeds.deep_view()) {
                lemma_working_set_distinct(self.filter@, feeds.deep_view(), db@);
            }
        }
        let ghost all = feeds.deep_view();
        let ghost filter = self.filter@;
        let ghost pass = |item: ItemView| item_passes(filter, item);
        let mut items: Vec<Item> = Vec::new();
        let mut i: usize = 0;
        assert(all.take(0) =~= Seq::<FeedView>::empty());
        assert(items.deep_view() =~= Seq::<ItemView>::empty());
        while i < feeds.len()
            invariant
                i <= feeds.len(),
                all == feeds.deep_view(),
                filter == self.filter@,
                pass == |item: ItemView| item_passes(filter, item),
                items.deep_view() == gathered(filter, all.take(i as int), db@),
                self@ == (AppView {
                    feeds: remembered_all(old(self)@.feeds, all.take(i as int)),
                    ..old(self)@
                }),
            decreases feeds.len() - i,
        {
            let feed = &feeds[i];
            proof {
                assert(all.take(i + 1).drop_last() =~= all.take(i as int));
                assert(all.take(i + 1).last() == feed@);
            }
            remember(&mut self.feeds, feed.clone());
            let ghost so_far = items.deep_view();
            if self.filter.filter_feed(feed) {
                let rows = db.get_feed_items(feed.url.as_str());
                let ghost of_this = rows.deep_view();
                let mut k: usize = 0;
                while k < rows.len()
                    invariant
                        k <= rows.len(),
                        of_this == rows.deep_view(),
                        filter == self.filter@,
                        pass == |item: ItemView| item_passes(filter, item),
                        items.deep_view() == so_far + of_this.take(k as int).filter(pass),
                    decreases rows.len() - k,
                {
                    proof {
                        reveal(Seq::filter);
                        assert(of_this.take(k + 1).drop_last() =~= of_this.take(k as int));
                    }
                    if self.filter.filter_item(&rows[k]) {
                        let ghost before = items.deep_view();
                        items.push(rows[k].clone());
                        assert(items.deep_view() =~= before.push(rows[k as int]@));
                    }
                    k += 1;
                }
                assert(of_this.take(rows.len() as int) =~= of_this);
            } else {
                assert(items.deep_view() =~= so_far + Seq::<ItemView>::empty());
            }
            i += 1;
        }
        assert(all.take(feeds.len() as int) =~= all);
        sort_recent_first(items)
    }

    /// Shows the items in the table, one row each: the title and the date
    /// in local time, with placeholders for what an item lacks. The
    /// selection stays where it is.
    pub fn update_items_table(&mut self)
        ensures
            rows_show(final(self)@.rows, old(self)@.items),
            final(self)@ == (AppView { rows: final(self)@.rows, ..old(self)@ }),
    {
        let mut rows: Vec<Vec<String>> = Vec::new();
        let mut i: usize = 0;
        while i < self.items.len()
            invariant
                i <= self.items.len(),
                self == old(self),
                rows_show(rows.deep_view(), self.items.deep_view().take(i as int)),
            decreases self.items.len() - i,
        {
            let item = &self.items[i];
            let date = match item.published_at {
                Some(at) => local_time_text(at, "%m/%d/%y %H:%M"),
                None => None,
            };
            let row = table_row(item, date);
            let ghost before = rows.deep_view();
            rows.push(row);
            assert(rows.deep_view() =~= before.push(row.deep_view()));
            i += 1;
        }
        assert(self.items.deep_view().take(self.items.len() as int) =~= self.items.deep_view());
        self.table.set_items(rows);
    }

    /// Full reload: the working set is read anew, and the time of the last
    /// load becomes the latest retrieval time in the table of items (it stays
    /// as it is while that table is empty).
    pub fn load_items(&mut self, feeds: &Vec<Feed>, db: &Database)
        ensures
            final(self)@.items == working_set(old(self)@.filter, feeds.deep_view(), db@),
            recent_first(final(self)@.items),
            distinct_feeds(feeds.deep_view()) ==> distinct_urls(final(self)@.items),
            rows_show(final(self)@.rows, final(self)@.items),
            db@.len() == 0 ==> final(self)@.last_updated == old(self)@.last_updated,
            db@.len() > 0 ==> is_latest_retrieval(db@, Some(final(self)@.last_updated)),
            final(self)@ == (AppView {
                items: final(self)@.items,
                rows: final(self)@.rows,
                last_updated: final(self)@.last_updated,
                feeds: remembered_all(old(self)@.feeds, feeds.deep_view()),
                ..old(self)@
            }),
    {
        self.items = self._load_items(feeds, db);
        match db.last_update() {
            Some(at) => {
                self.last_updated = at;
            },
            None => {},
        }
        self.update_items_table();
    }

    /// Delta reload at time `now`: the items of the working set that were
    /// retrieved after the last load join the items shown, and all are put
    /// in order again. `now` becomes the time of the last load.
    pub fn load_new_items_at(&mut self, feeds: &Vec<Feed>, db: &Database, now: i64)
        ensures
            final(self)@.items == by_recency(
                old(self)@.items + retrieved_after(
                    working_set(old(self)@.filter, feeds.deep_view(), db@),
                    old(self)@.last_updated,
                ),
            ),
            recent_first(final(self)@.items),
            rows_show(final(self)@.rows, final(self)@.items),
            final(self)@ == (AppView {
                items: final(self)@.items,
                rows: final(self)@.rows,
                last_updated: now,
                feeds: remembered_all(old(self)@.feeds, feeds.deep_view()),
                ..old(self)@
            }),
    {
        let loaded = self._load_items(feeds, db);
        let ghost all = loaded.deep_view();
        let ghost since = self.last_updated;
        let ghost newer = |item: ItemView| item.retrieved_at > since;
        let mut fresh: Vec<Item> = Vec::new();
        let mut i: usize = 0;
        while i < loaded.len()
            invariant
                i <= loaded.len(),
                all == loaded.deep_view(),
                since == self.last_updated,
                newer == |item: ItemView| item.retrieved_at > since,
                fresh.deep_view() == all.take(i as int).filter(newer),
            decreases loaded.len() - i,
        {
            proof {
                reveal(Seq::filter);
                assert(all.take(i + 1).drop_last() =~= all.take(i as int));
            }
            if loaded[i].retrieved_at > self.last_updated {
                let ghost before = fresh.deep_view();
                fresh.push(loaded[i].clone());
                assert(fresh.deep_view() =~= before.push(loaded[i as int]@));
            }
            i += 1;
        }
        assert(all.take(loaded.len() as int) =~= all);
        self.last_updated = now;
        let mut items: Vec<Item> = Vec::new();
        std::mem::swap(&mut items, &mut self.items);
        let ghost shown = items.deep_view();
        let ghost added = fresh.deep_view();
        items.append(&mut fresh);
        assert(items.deep_view() =~= shown + added);
        self.items = sort_recent_first(items);
        self.update_items_table();
    }


    /// The title of the remembered feed with this URL.
    pub fn feed_title(&self, url: &String) -> (title: Option<String>)
        ensures
            title.deep_view() == title_of(self@.feeds, url@),
    {
        feed_title(&self.feeds, url)
    }

    /// How many of the items are unread.
    pub fn unread_count(&self) -> (count: usize)
        ensures
            count == unread(self@.items).len(),
    {
        let ghost items = self.items.deep_view();
        let ghost open = |item: ItemView| !item.read;
        let mut count: usize = 0;
        let mut i: usize = 0;
        while i < self.items.len()
            invariant
                i <= self.items.len(),
                items == self.items.deep_view(),
                open == |item: ItemView| !item.read,
                count == items.take(i as int).filter(open).len(),
                count <= i,
            decreases self.items.len() - i,
        {
            proof {
                reveal(Seq::filter);
                assert(items.take(i + 1).drop_last() =~= items.take(i as int));
            }
            if !self.items[i].read {
                count += 1;
            }
            i += 1;
        }
        assert(items.take(self.items.len() as int) =~= items);
        count
    }

    /// The selected row, if it is a row of the items.
    pub fn selected_row(&self) -> (row: Option<usize>)
        ensures
            match row {
                Some(i) => self@.selected_item() == Some(i as int),
                None => self@.selected_item().is_none(),
            },
    {
        match self.table.state.selected() {
            Some(i) => if i < self.items.len() {
                Some(i)
            } else {
                None
            },
            None => None,
        }
    }

    /// Sets the read flag of the selected item, here and in the table of
    /// items. Without a selected item nothing changes.
    pub fn set_selected_read(&mut self, db: &mut Database, read: bool)
        ensures
            final(self)@ == old(self)@.with_selected_read(read),
            final(db)@ == old(self)@.store_with_selected_read(old(db)@, read),
    {
        match self.selected_row() {
            Some(i) => {
                let mut item = self.items[i].clone();
                item.read = read;
                db.set_item_read(&item, read);
                let ghost before = self.items.deep_view();
                self.items.set(i, item);
                assert(self.items.deep_view() =~= before.update(
                    i as int,
                    ItemView { read, ..before[i as int] },
                ));
            },
            None => {},
        }
    }

    /// Marks the selected item as read.
    pub fn mark_selected_read(&mut self, db: &mut Database)
        ensures
            final(self)@ == old(self)@.with_selected_read(true),
            final(db)@ == old(self)@.store_with_selected_read(old(db)@, true),
    {
        self.set_selected_read(db, true);
    }

    /// Marks the selected item as unread.
    pub fn mark_selected_unread(&mut self, db: &mut Database)
        ensures
            final(self)@ == old(self)@.with_selected_read(false),
            final(db)@ == old(self)@.store_with_selected_read(old(db)@, false),
    {
        self.set_selected_read(db, false);
    }

    /// Turns the read flag of the selected item.
    pub fn toggle_selected_read(&mut self, db: &mut Database)
        ensures
            final(self)@ == old(self)@.with_selected_read(old(self)@.toggled_read()),
            final(db)@ == old(self)@.store_with_selected_read(
                old(db)@,
                old(self)@.toggled_read(),
            ),
    {
        match self.selected_row() {
            Some(i) => {
                let read = !self.items[i].read;
                self.set_selected_read(db, read);
            },
            None => {},
        }
    }

    /// Turns the starred flag of the selected item, here and in the table of
    /// items. Without a selected item nothing changes.
    pub fn toggle_selected_star(&mut self, db: &mut Database)
        ensures
            final(self)@ == old(self)@.with_selected_star_toggled(),
            final(db)@ == old(self)@.store_with_selected_star_toggled(old(db)@),
    {
        match self.selected_row() {
            Some(i) => {
                let mut item = self.items[i].clone();
                item.starred = !item.starred;
                db.set_item_starred(&item, item.starred);
                let ghost before = self.items.deep_view();
                self.items.set(i, item);
                assert(self.items.deep_view() =~= before.update(
                    i as int,
                    ItemView { starred: !before[i as int].starred, ..before[i as int] },
                ));
            },
            None => {},
        }
    }

    /// The query that a search for `query` runs: the text as a group,
    /// letter case aside. There is none for a text that makes no pattern.
    pub fn build_query(&self, query: &String) -> (built: Option<Query>)
        ensures
            built.deep_view() == query_for(query@),
    {
        let mut pattern = String::from_str("(");
        pattern.append(query.as_str());
        pattern.append(")");
        proof {
            reveal_strlit("(");
            reveal_strlit(")");
            assert(pattern@ =~= query_pattern(query@));
        }
        Query::new(pattern.as_str())
    }

    /// Runs a search: the results are the rows whose title the query matches.
    pub fn execute_search(&mut self, query: &Query)
        ensures
            final(self)@ == old(self)@.searched(query@),
    {
        let mut results: Vec<usize> = Vec::new();
        let mut i: usize = 0;
        assert(self.items.deep_view().take(0) =~= Seq::<ItemView>::empty());
        while i < self.items.len()
            invariant
                i <= self.items.len(),
                self == old(self),
                results@ == matching_rows(self.items.deep_view().take(i as int), query@),
            decreases self.items.len() - i,
        {
            proof {
                assert(self.items.deep_view().take(i + 1).drop_last()
                    =~= self.items.deep_view().take(i as int));
            }
            let found = match &self.items[i].title {
                Some(title) => query.is_match(title.as_str()),
                None => false,
            };
            if found {
                results.push(i);
            }
            i += 1;
        }
        assert(self.items.deep_view().take(self.items.len() as int) =~= self.items.deep_view());
        self.search_results = results;
    }

    /// Enters search mode with an empty entry.
    pub fn start_search(&mut self)
        ensures
            final(self)@ == old(self)@.search_started(),
    {
        self.search_input_raw = String::new();
        self.search_input = None;
        self.input_mode = InputMode::Search;
    }

    /// Leaves search mode and drops the entry.
    pub fn end_search(&mut self)
        ensures
            final(self)@ == old(self)@.search_ended(),
    {
        self.search_input_raw = String::new();
        self.input_mode = InputMode::Normal;
    }

    /// Commits the entry: it becomes the query, the search runs, and search
    /// mode is left. An entry that makes no pattern leaves no query and no
    /// results.
    pub fn commit_search(&mut self)
        ensures
            final(self)@ == old(self)@.search_committed(),
    {
        match self.build_query(&self.search_input_raw) {
            Some(query) => {
                self.execute_search(&query);
                self.search_query = Some(query);
            },
            None => {
                self.search_results = Vec::new();
                self.search_query = None;
            },
        }
        self.end_search();
    }

    /// Takes a character into the entry and makes the query that is shown
    /// while typing. An entry that makes no pattern shows none.
    pub fn type_search(&mut self, c: char)
        ensures
            final(self)@ == old(self)@.typed(c),
    {
        push_char(&mut self.search_input_raw, c);
        self.search_input = self.build_query(&self.search_input_raw);
    }

    /// Erases the last character of the entry and makes the query that is
    /// shown while typing.
    pub fn erase_search(&mut self)
        ensures
            final(self)@ == old(self)@.erased(),
    {
        let n = self.search_input_raw.as_str().unicode_len();
        if n > 0 {
            let shorter = String::from_str(self.search_input_raw.as_str().substring_char(0, n - 1));
            assert(shorter@ =~= self.search_input_raw@.drop_last());
            self.search_input_raw = shorter;
        }
        self.search_input = self.build_query(&self.search_input_raw);
    }

    /// Moves the selection to `row`, marks the item there as read and shows
    /// it in the reader from the top.
    fn move_to(&mut self, row: usize, db: &mut Database)
        ensures
            final(self)@ == old(self)@.moved_to(row),
            final(db)@ == old(self)@.store_moved_to(old(db)@, row),
    {
        self.table.state.select(Some(row));
        self.mark_selected_read(db);
        self.reset_reader_scroll();
    }

    /// Moves the selection up by a row, from the first row to the last.
    pub fn scroll_items_up(&mut self, db: &mut Database)
        ensures
            final(self)@ == old(self)@.moved_to(
                previous_row(old(self)@.selected, old(self)@.rows.len()),
            ),
            final(db)@ == old(self)@.store_moved_to(
                old(db)@,
                previous_row(old(self)@.selected, old(self)@.rows.len()),
            ),
    {
        let row = step_backward(self.table.state.selected(), self.table.items.len());
        self.move_to(row, db);
    }

    /// Moves the selection down by a row, from the last row to the first.
    pub fn scroll_items_down(&mut self, db: &mut Database)
        ensures
            final(self)@ == old(self)@.moved_to(
                next_row(old(self)@.selected, old(self)@.rows.len()),
            ),
            final(db)@ == old(self)@.store_moved_to(
                old(db)@,
                next_row(old(self)@.selected, old(self)@.rows.len()),
            ),
    {
        let row = step_forward(self.table.state.selected(), self.table.items.len());
        self.move_to(row, db);
    }

    /// Moves the selection up by a page, but not beyond the first row.
    pub fn page_items_up(&mut self, db: &mut Database)
        ensures
            final(self)@ == old(self)@.moved_to(row_back(old(self)@.selected, PAGE)),
            final(db)@ == old(self)@.store_moved_to(
                old(db)@,
                row_back(old(self)@.selected, PAGE),
            ),
    {
        let row = jump_back(self.table.state.selected(), PAGE);
        self.move_to(row, db);
    }

    /// Moves the selection down by a page, but not beyond the last row.
    pub fn page_items_down(&mut self, db: &mut Database)
        ensures
            final(self)@ == old(self)@.moved_to(
                row_ahead(old(self)@.selected, PAGE, old(self)@.rows.len()),
            ),
            final(db)@ == old(self)@.store_moved_to(
                old(db)@,
                row_ahead(old(self)@.selected, PAGE, old(self)@.rows.len()),
            ),
    {
        let row = jump_ahead(self.table.state.selected(), PAGE, self.table.items.len());
        self.move_to(row, db);
    }

    /// Shows the reader from its top.
    pub fn reset_reader_scroll(&mut self)
        ensures
            final(self)@ == (AppView { reader_scroll: 0, ..old(self)@ }),
    {
        self.reader_scroll = 0;
    }

    /// Scrolls the reader up by a line, unless it is at its top.
    pub fn scroll_reader_up(&mut self)
        ensures
            final(self)@ == old(self)@.reader_up(),
    {
        if self.reader_scroll > 0 {
            self.reader_scroll -= 1;
        }
    }

    /// Scrolls the reader down by a line, as far as lines can be counted.
    pub fn scroll_reader_down(&mut self)
        ensures
            final(self)@ == old(self)@.reader_down(),
    {
        if self.reader_scroll < u16::MAX {
            self.reader_scroll += 1;
        }
    }

    /// Gives the reader the whole screen, or takes that back.
    pub fn toggle_focus_reader(&mut self)
        ensures
            final(self)@ == (AppView { focus_reader: !old(self)@.focus_reader, ..old(self)@ }),
    {
        self.focus_reader = !self.focus_reader;
    }

    /// The URL of the selected item, for the caller to open in the browser.
    pub fn open_selected(&self) -> (url: Option<String>)
        ensures
            url.deep_view() == self@.selected_url(),
    {
        match self.selected_row() {
            Some(i) => Some(self.items[i].url.clone()),
            None => None,
        }
    }

    /// The URLs of the marked items, in the order of the marks, for the
    /// caller to open in the browser. A mark on a row that is no row of the
    /// items gives none.
    pub fn open_marked(&self) -> (urls: Vec<String>)
        ensures
            urls.deep_view() == marked_urls(self@.items, self@.marked),
    {
        let ghost items = self.items.deep_view();
        let ghost valid = |row: usize| row < items.len();
        let ghost url_of = |row: usize| items[row as int].url;
        let mut urls: Vec<String> = Vec::new();
        let mut k: usize = 0;
        assert(self.marked@.take(0) =~= Seq::<usize>::empty());
        while k < self.marked.len()
            invariant
                k <= self.marked.len(),
                items == self.items.deep_view(),
                valid == |row: usize| row < items.len(),
                url_of == |row: usize| items[row as int].url,
                urls.deep_view() == self.marked@.take(k as int).filter(valid).map_values(url_of),
            decreases self.marked.len() - k,
        {
            proof {
                reveal(Seq::filter);
                assert(self.marked@.take(k + 1).drop_last() =~= self.marked@.take(k as int));
            }
            let row = self.marked[k];
            if row < self.items.len() {
                let ghost before = urls.deep_view();
                let ghost kept = self.marked@.take(k as int).filter(valid);
                urls.push(self.items[row].url.clone());
                assert(kept.push(row).map_values(url_of) =~= kept.map_values(url_of).push(
                    items[row as int].url,
                ));
                assert(urls.deep_view() =~= before.push(items[row as int].url));
            }
            k += 1;
        }
        assert(self.marked@.take(self.marked.len() as int) =~= self.marked@);
        urls
    }

    /// Moves the selection to the next search result: the first result after
    /// the selected row, or the first of all from the last result on and
    /// where nothing is selected. Without results the selection stays.
    pub fn jump_to_next_result(&mut self)
        ensures
            final(self)@ == old(self)@.jumped_to_next(),
    {
        let n = self.search_results.len();
        if n > 0 {
            match self.table.state.selected() {
                Some(row) => {
                    if row >= self.search_results[n - 1] {
                        self.table.state.select(Some(self.search_results[0]));
                    } else {
                        let mut k: usize = 0;
                        while k < n && self.search_results[k] <= row
                            invariant
                                k <= n,
                                n == self.search_results.len(),
                                self == old(self),
                                forall|j: int| 0 <= j < k ==> self.search_results@[j] <= row,
                            decreases n - k,
                        {
                            k += 1;
                        }
                        proof {
                            lemma_first_above(self.search_results@, row, k as int);
                        }
                        if k < n {
                            self.table.state.select(Some(self.search_results[k]));
                        }
                    }
                },
                None => {
                    self.table.state.select(Some(self.search_results[0]));
                },
            }
        }
    }

    /// Moves the selection to the previous search result: the last result
    /// before the selected row, or the last of all from the first result
    /// back; the first result where nothing is selected. Without results the
    /// selection stays.
    pub fn jump_to_prev_result(&mut self)
        ensures
            final(self)@ == old(self)@.jumped_to_previous(),
    {
        let n = self.search_results.len();
        if n > 0 {
            match self.table.state.selected() {
                Some(row) => {
                    if row <= self.search_results[0] {
                        self.table.state.select(Some(self.search_results[n - 1]));
                    } else {
                        let mut k: usize = n;
                        while k > 0 && self.search_results[k - 1] >= row
                            invariant
                                k <= n,
                                n == self.search_results.len(),
                                self == old(self),
                                forall|j: int| k <= j < n ==> self.search_results@[j] >= row,
                            decreases k,
                        {
                            k -= 1;
                        }
                        proof {
                            lemma_last_below(self.search_results@, row, k - 1);
                        }
                        if k > 0 {
                            self.table.state.select(Some(self.search_results[k - 1]));
                        }
                    }
                },
                None => {
                    self.table.state.select(Some(self.search_results[0]));
                },
            }
        }
    }

    /// Forgets all marks.
    pub fn clear_marked(&mut self)
        ensures
            final(self)@ == (AppView { marked: Seq::empty(), ..old(self)@ }),
    {
        self.marked.clear();
    }

    /// Turns the mark of the selected row: a marked row loses its mark, an
    /// unmarked row is marked last. Without a selection nothing changes.
    pub fn toggle_selected_mark(&mut self)
        ensures
            final(self)@ == (AppView {
                marked: match old(self)@.selected {
                    Some(row) => mark_toggled(old(self)@.marked, row),
                    None => old(self)@.marked,
                },
                ..old(self)@
            }),
    {
        match self.table.state.selected() {
            Some(row) => {
                let ghost others = other_than(row);
                let mut kept: Vec<usize> = Vec::new();
                let mut k: usize = 0;
                assert(self.marked@.take(0) =~= Seq::<usize>::empty());
                while k < self.marked.len()
                    invariant
                        k <= self.marked.len(),
                        self == old(self),
                        others == other_than(row),
                        kept@ == self.marked@.take(k as int).filter(others),
                        kept.len() == k <==> !self.marked@.take(k as int).contains(row),
                        kept.len() <= k,
                    decreases self.marked.len() - k,
                {
                    proof {
                        reveal(Seq::filter);
                        assert(self.marked@.take(k + 1).drop_last() =~= self.marked@.take(
                            k as int,
                        ));
                        assert(self.marked@.take(k + 1).last() == self.marked@[k as int]);
                        let seen = self.marked@.take(k as int);
                        let more = self.marked@.take(k + 1);
                        if seen.contains(row) {
                            let j = choose|j: int| 0 <= j < seen.len() && #[trigger] seen[j] == row;
                            assert(more[j] == row);
                        }
                        if more.contains(row) && self.marked@[k as int] != row {
                            let j = choose|j: int| 0 <= j < more.len() && #[trigger] more[j] == row;
                            assert(seen[j] == row);
                        }
                    }
                    if self.marked[k] != row {
                        kept.push(self.marked[k]);
                    }
                    k += 1;
                }
                assert(self.marked@.take(self.marked.len() as int) =~= self.marked@);
                if kept.len() == self.marked.len() {
                    self.marked.push(row);
                } else {
                    self.marked = kept;
                }
            },
            None => {},
        }
    }

    /// Turns the read filter to its next setting and reloads the items.
    pub fn toggle_read_filter(&mut self, feeds: &Vec<Feed>, db: &Database)
        ensures
            final(self)@.filter == (FilterView {
                read: next_read_filter(old(self)@.filter.read),
                ..old(self)@.filter
            }),
            final(self)@.items == working_set(final(self)@.filter, feeds.deep_view(), db@),
            recent_first(final(self)@.items),
            rows_show(final(self)@.rows, final(self)@.items),
            final(self)@ == (AppView {
                filter: final(self)@.filter,
                items: final(self)@.items,
                rows: final(self)@.rows,
                last_updated: final(self)@.last_updated,
                feeds: remembered_all(old(self)@.feeds, feeds.deep_view()),
                ..old(self)@
            }),
    {
        self.filter.read = match self.filter.read {
            Some(false) => None,
            None => Some(true),
            Some(true) => Some(false),
        };
        self.load_items(feeds, db);
    }

    /// Turns the starred filter to its next setting and reloads the items.
    pub fn toggle_starred_filter(&mut self, feeds: &Vec<Feed>, db: &Database)
        ensures
            final(self)@.filter == (FilterView {
                starred: next_starred_filter(old(self)@.filter.starred),
                ..old(self)@.filter
            }),
            final(self)@.items == working_set(final(self)@.filter, feeds.deep_view(), db@),
            recent_first(final(self)@.items),
            rows_show(final(self)@.rows, final(self)@.items),
            final(self)@ == (AppView {
                filter: final(self)@.filter,
                items: final(self)@.items,
                rows: final(self)@.rows,
                last_updated: final(self)@.last_updated,
                feeds: remembered_all(old(self)@.feeds, feeds.deep_view()),
                ..old(self)@
            }),
    {
        self.filter.starred = match self.filter.starred {
            None => Some(true),
            Some(true) => Some(false),
            Some(false) => None,
        };
        self.load_items(feeds, db);
    }

    /// Takes a key: a command in normal mode, a piece of the entry in search
    /// mode. Says what the caller is to do after it.
    pub fn handle_key(&mut self, key: Key, db: &mut Database) -> (action: Action)
        ensures
            final(self)@ == old(self)@.after_key(key),
            final(db)@ == old(self)@.store_after_key(old(db)@, key),
            action@ == old(self)@.action_for(key),
    {
        match self.input_mode {
            InputMode::Normal => match key {
                Key::Char('q') => Action::Quit,
                Key::Char('u') => {
                    self.mark_selected_unread(db);
                    Action::Nothing
                },
                Key::Char('j') => {
                    self.scroll_items_down(db);
                    Action::Nothing
                },
                Key::Char('k') => {
                    self.scroll_items_up(db);
                    Action::Nothing
                },
                Key::Ctrl('d') => {
                    self.page_items_down(db);
                    Action::Nothing
                },
                Key::Ctrl('u') => {
                    self.page_items_up(db);
                    Action::Nothing
                },
                Key::Char('o') => match self.open_selected() {
                    Some(url) => Action::Open(url),
                    None => Action::Nothing,
                },
                Key::Char('J') => {
                    self.scroll_reader_down();
                    Action::Nothing
                },
                Key::Char('K') => {
                    self.scroll_reader_up();
                    Action::Nothing
                },
                Key::Char('n') => {
                    self.jump_to_next_result();
                    Action::Nothing
                },
                Key::Char('N') => {
                    self.jump_to_prev_result();
                    Action::Nothing
                },
                Key::Char('f') => {
                    self.toggle_focus_reader();
                    Action::Nothing
                },
                Key::Char('/') => {
                    self.start_search();
                    Action::IgnoreExitKey(true)
                },
                _ => Action::Nothing,
            },
            InputMode::Search => match key {
                Key::Char('\n') => {
                    self.commit_search();
                    Action::IgnoreExitKey(false)
                },
                Key::Char(c) => {
                    self.type_search(c);
                    Action::Nothing
                },
                Key::Backspace => {
                    self.erase_search();
                    Action::Nothing
                },
                Key::Esc => {
                    self.end_search();
                    Action::IgnoreExitKey(false)
                },
                _ => Action::Nothing,
            },
        }
    }

    /// Takes an event: a key, or the start or the end of a synchronisation
    /// pass. After the end of a pass the caller is to reload the items.
    pub fn handle_event(&mut self, event: Event<Key>, db: &mut Database) -> (action: Action)
        ensures
            match event {
                Event::Input(key) => {
                    &&& final(self)@ == old(self)@.after_key(key)
                    &&& final(db)@ == old(self)@.store_after_key(old(db)@, key)
                    &&& action@ == old(self)@.action_for(key)
                },
                Event::Updating => {
                    &&& final(self)@ == (AppView { status: Status::Updating, ..old(self)@ })
                    &&& final(db)@ == old(db)@
                    &&& action@ == ActionView::Nothing
                },
                Event::Updated => {
                    &&& final(self)@ == (AppView { status: Status::Idle, ..old(self)@ })
                    &&& final(db)@ == old(db)@
                    &&& action@ == ActionView::Reload
                },
            },
    {
        match event {
            Event::Input(key) => self.handle_key(key, db),
            Event::Updating => {
                self.status = Status::Updating;
                Action::Nothing
            },
            Event::Updated => {
                self.status = Status::Idle;
                Action::Reload
            },
        }
    }

    /// Delta reload at the time that the clock shows.
    pub fn load_new_items(&mut self, feeds: &Vec<Feed>, db: &Database)
        ensures
            final(self)@.items == by_recency(
                old(self)@.items + retrieved_after(
                    working_set(old(self)@.filter, feeds.deep_view(), db@),
                    old(self)@.last_updated,
                ),
            ),
            recent_first(final(self)@.items),
            rows_show(final(self)@.rows, final(self)@.items),
            final(self)@ == (AppView {
                items: final(self)@.items,
                rows: final(self)@.rows,
                last_updated: final(self)@.last_updated,
                feeds: remembered_all(old(self)@.feeds, feeds.deep_view()),
                ..old(self)@
            }),
    {
        let now = unix_now();
        self.load_new_items_at(feeds, db, now);
    }
}

} // verus!
