//! The view model as a mathematical value, and what each operation makes of
//! it.

use crate::app::{InputMode, Status};
use crate::db::{distinct_urls, of_feed, with_read, with_starred, ItemView};
use crate::events::{exit_key, input_ends, Key};
use crate::feeds::FeedView;
use crate::order::{by_recency, lemma_by_recency, lemma_by_recency_urls};
use crate::search::{pattern_compiles, pattern_matches};
use crate::sync::{lemma_second_pass_adds_nothing, rows_after_pass, FetchedView};
use crate::text::occurs_in;
use crate::ui::{next_row, previous_row, row_ahead, row_back};
use vstd::prelude::*;

verus! {

/// How many rows a page key moves the selection.
pub const PAGE: usize = 5;

/// The mathematical value of a [`Filter`].
pub struct FilterView {
    pub read: Option<bool>,
    pub starred: Option<bool>,
    pub feeds: Seq<Seq<char>>,
    pub keywords: Seq<Seq<char>>,
    pub tags: Seq<Seq<char>>,
}

/// The filter that a session starts with: unread items of every feed.
pub open spec fn default_filter() -> FilterView {
    FilterView {
        read: Some(false),
        starred: None,
        feeds: Seq::empty(),
        keywords: Seq::empty(),
        tags: Seq::empty(),
    }
}

/// The feed is one of the filter's feeds, if it names any, and carries one of
/// the filter's tags, if it names any.
pub open spec fn feed_passes(filter: FilterView, feed: FeedView) -> bool {
    &&& filter.feeds.len() == 0 || filter.feeds.contains(feed.url)
    &&& filter.tags.len() == 0 || exists|i: int|
        0 <= i < filter.tags.len() && feed.tags.contains(#[trigger] filter.tags[i])
}

/// One of the keywords stands in the title.
pub open spec fn title_has_keyword(keywords: Seq<Seq<char>>, title: Option<Seq<char>>) -> bool {
    exists|i: int|
        0 <= i < keywords.len() && title.is_some() && occurs_in(
            #[trigger] keywords[i],
            title.unwrap(),
        )
}

/// The item's read and starred flags are those that the filter asks for, if
/// it asks, and its title holds one of the filter's keywords, if it names
/// any.
pub open spec fn item_passes(filter: FilterView, item: ItemView) -> bool {
    &&& filter.read.is_some() ==> item.read == filter.read.unwrap()
    &&& filter.starred.is_some() ==> item.starred == filter.starred.unwrap()
    &&& filter.keywords.len() == 0 || title_has_keyword(filter.keywords, item.title)
}

/// The rows that one feed brings to the working set.
pub open spec fn feed_rows(filter: FilterView, feed: FeedView, rows: Seq<ItemView>) -> Seq<
    ItemView,
> {
    if feed_passes(filter, feed) {
        of_feed(rows, feed.url).filter(|item: ItemView| item_passes(filter, item))
    } else {
        Seq::empty()
    }
}

/// What the feeds bring to the working set, feed by feed, before sorting.
pub open spec fn gathered(filter: FilterView, feeds: Seq<FeedView>, rows: Seq<ItemView>) -> Seq<
    ItemView,
>
    decreases feeds.len(),
{
    if feeds.len() == 0 {
        Seq::empty()
    } else {
        gathered(filter, feeds.drop_last(), rows) + feed_rows(filter, feeds.last(), rows)
    }
}

/// The working set: the rows of the feeds that pass the filter, those of them
/// that pass it themselves, most recent first.
pub open spec fn working_set(filter: FilterView, feeds: Seq<FeedView>, rows: Seq<ItemView>) -> Seq<
    ItemView,
> {
    by_recency(gathered(filter, feeds, rows))
}

/// The mathematical value of an [`App`].
pub struct AppView {
    pub focus_reader: bool,
    pub status: Status,
    pub input_mode: InputMode,
    pub last_updated: i64,
    pub filter: FilterView,
    pub items: Seq<ItemView>,
    pub feeds: Seq<FeedView>,
    pub selected: Option<usize>,
    pub rows: Seq<Seq<Seq<char>>>,
    pub search_results: Seq<usize>,
    pub search_input_raw: Seq<char>,
    pub search_input: Option<Seq<char>>,
    pub search_query: Option<Seq<char>>,
    pub reader_scroll: u16,
    pub marked: Seq<usize>,
}

/// The title that the table shows for an item.
pub open spec fn shown_title(item: ItemView) -> Seq<char> {
    match item.title {
        Some(title) => title,
        None => "<no title>"@,
    }
}

/// The date that the table shows for an item whose date reads `date`.
pub open spec fn shown_date(date: Option<Seq<char>>) -> Seq<char> {
    match date {
        Some(text) => text,
        None => "<no pub date>"@,
    }
}

/// The row shows the item: its title, or a placeholder for a missing one,
/// and then a date, which is a placeholder where the item has none.
pub open spec fn row_shows(row: Seq<Seq<char>>, item: ItemView) -> bool {
    &&& row.len() == 2
    &&& row[0] == shown_title(item)
    &&& item.published_at.is_none() ==> row[1] == shown_date(None)
}

/// The rows show the items, one each, in order.
pub open spec fn rows_show(rows: Seq<Seq<Seq<char>>>, items: Seq<ItemView>) -> bool {
    &&& rows.len() == items.len()
    &&& forall|i: int| 0 <= i < items.len() ==> row_shows(#[trigger] rows[i], items[i])
}

/// The unread items.
pub open spec fn unread(items: Seq<ItemView>) -> Seq<ItemView> {
    items.filter(|item: ItemView| !item.read)
}

/// The marks that show what the filter asks for, in brackets: `R` for read
/// items and a mirrored `R` for unread ones, `S` for starred items and a
/// mirrored `S` for unstarred ones, `T` where it names tags, `C` where it
/// names feeds.
pub open spec fn filter_marks(filter: FilterView) -> Seq<char> {
    seq!['['] + (match filter.read {
        Some(true) => seq!['R'],
        Some(false) => seq!['Я'],
        None => Seq::empty(),
    }) + (match filter.starred {
        Some(true) => seq!['S'],
        Some(false) => seq!['Ƨ'],
        None => Seq::empty(),
    }) + (if filter.tags.len() == 0 {
        Seq::empty()
    } else {
        seq!['T']
    }) + (if filter.feeds.len() == 0 {
        Seq::empty()
    } else {
        seq!['C']
    }) + seq![']']
}

/// The items that were retrieved after `since`.
pub open spec fn retrieved_after(items: Seq<ItemView>, since: i64) -> Seq<ItemView> {
    items.filter(|item: ItemView| item.retrieved_at > since)
}

/// The pattern that a search for `text` looks for: the text as a group.
pub open spec fn query_pattern(text: Seq<char>) -> Seq<char> {
    seq!['('] + text + seq![')']
}

/// The query that a search for `text` runs, if the text makes a pattern.
pub open spec fn query_for(text: Seq<char>) -> Option<Seq<char>> {
    if pattern_compiles(query_pattern(text)) {
        Some(query_pattern(text))
    } else {
        None
    }
}

/// The item has a title, and the pattern matches in it.
pub open spec fn title_matches(item: ItemView, pattern: Seq<char>) -> bool {
    item.title.is_some() && pattern_matches(pattern, item.title.unwrap())
}

/// The positions of the items whose title the pattern matches, in order.
pub open spec fn matching_rows(items: Seq<ItemView>, pattern: Seq<char>) -> Seq<usize>
    decreases items.len(),
{
    if items.len() == 0 {
        Seq::empty()
    } else if title_matches(items.last(), pattern) {
        matching_rows(items.drop_last(), pattern).push((items.len() - 1) as usize)
    } else {
        matching_rows(items.drop_last(), pattern)
    }
}

/// The position in `results` of the first row after `row`, or the length of
/// `results` if there is none.
pub open spec fn first_above(results: Seq<usize>, row: usize) -> int
    decreases results.len(),
{
    if results.len() == 0 {
        0
    } else if results[0] > row {
        0
    } else {
        1 + first_above(results.drop_first(), row)
    }
}

/// The position in `results` of the last row before `row`, or -1 if there is
/// none.
pub open spec fn last_below(results: Seq<usize>, row: usize) -> int
    decreases results.len(),
{
    if results.len() == 0 {
        -1
    } else if results.last() < row {
        results.len() - 1
    } else {
        last_below(results.drop_last(), row)
    }
}

/// The selection after a jump to the next search result: the first result
/// after the selected row; the first result of all from the last result on,
/// and where nothing is selected. Without results the selection stays.
pub open spec fn next_result(results: Seq<usize>, selected: Option<usize>) -> Option<usize> {
    if results.len() == 0 {
        selected
    } else {
        match selected {
            Some(row) => if row >= results.last() {
                Some(results[0])
            } else if first_above(results, row) < results.len() {
                Some(results[first_above(results, row)])
            } else {
                selected
            },
            None => Some(results[0]),
        }
    }
}

/// The selection after a jump to the previous search result: the last result
/// before the selected row; the last result of all from the first result
/// back; the first result where nothing is selected. Without results the
/// selection stays.
pub open spec fn previous_result(results: Seq<usize>, selected: Option<usize>) -> Option<usize> {
    if results.len() == 0 {
        selected
    } else {
        match selected {
            Some(row) => if row <= results[0] {
                Some(results.last())
            } else if last_below(results, row) >= 0 {
                Some(results[last_below(results, row)])
            } else {
                selected
            },
            None => Some(results[0]),
        }
    }
}

/// The read filter after a turn: unread, then all, then read, then unread
/// again.
pub open spec fn next_read_filter(read: Option<bool>) -> Option<bool> {
    match read {
        Some(false) => None,
        None => Some(true),
        Some(true) => Some(false),
    }
}

/// The starred filter after a turn: all, then starred, then unstarred, then
/// all again.
pub open spec fn next_starred_filter(starred: Option<bool>) -> Option<bool> {
    match starred {
        None => Some(true),
        Some(true) => Some(false),
        Some(false) => None,
    }
}

/// Being a row other than `row`.
pub open spec fn other_than(row: usize) -> spec_fn(usize) -> bool {
    |other: usize| other != row
}

/// The marks after the mark of `row` is turned: without `row` if it was
/// marked, with it at the end if it was not.
pub open spec fn mark_toggled(marked: Seq<usize>, row: usize) -> Seq<usize> {
    if marked.contains(row) {
        marked.filter(other_than(row))
    } else {
        marked.push(row)
    }
}

/// The URLs of the marked rows that are rows of the items, in the order of
/// the marks.
pub open spec fn marked_urls(items: Seq<ItemView>, marked: Seq<usize>) -> Seq<Seq<char>> {
    marked.filter(|row: usize| row < items.len()).map_values(|row: usize| items[row as int].url)
}

/// `first_above` is the first position that holds a row after `row`.
pub(crate) proof fn lemma_first_above(results: Seq<usize>, row: usize, at: int)
    requires
        0 <= at <= results.len(),
        forall|k: int| 0 <= k < at ==> results[k] <= row,
        at < results.len() ==> results[at] > row,
    ensures
        first_above(results, row) == at,
    decreases results.len(),
{
    if at > 0 {
        let rest = results.drop_first();
        assert forall|k: int| 0 <= k < at - 1 implies rest[k] <= row by {
            assert(rest[k] == results[k + 1]);
        }
        lemma_first_above(rest, row, at - 1);
    }
}

/// `last_below` is the last position that holds a row before `row`.
pub(crate) proof fn lemma_last_below(results: Seq<usize>, row: usize, at: int)
    requires
        -1 <= at < results.len(),
        forall|k: int| at < k < results.len() ==> results[k] >= row,
        at >= 0 ==> results[at] < row,
    ensures
        last_below(results, row) == at,
    decreases results.len(),
{
    if at < results.len() - 1 {
        let rest = results.drop_last();
        assert forall|k: int| at < k < rest.len() implies rest[k] >= row by {
            assert(rest[k] == results[k]);
        }
        lemma_last_below(rest, row, at);
    }
}

/// The search results are rows of the items, in rising order, and exactly
/// the rows whose title the pattern matches.
pub proof fn lemma_matching_rows(items: Seq<ItemView>, pattern: Seq<char>)
    requires
        items.len() <= usize::MAX,
    ensures
        forall|k: int|
            0 <= k < matching_rows(items, pattern).len() ==> (#[trigger] matching_rows(
                items,
                pattern,
            )[k]) < items.len() && title_matches(
                items[matching_rows(items, pattern)[k] as int],
                pattern,
            ),
        forall|j: int, k: int|
            0 <= j < k < matching_rows(items, pattern).len() ==> (#[trigger] matching_rows(
                items,
                pattern,
            )[j]) < (#[trigger] matching_rows(items, pattern)[k]),
        forall|row: int|
            0 <= row < items.len() && title_matches(#[trigger] items[row], pattern)
                ==> matching_rows(items, pattern).contains(row as usize),
        matching_rows(items, pattern).len() <= items.len(),
    decreases items.len(),
{
    if items.len() > 0 {
        let rest = items.drop_last();
        let fewer = matching_rows(rest, pattern);
        let all = matching_rows(items, pattern);
        lemma_matching_rows(rest, pattern);
        assert forall|k: int| 0 <= k < all.len() implies (#[trigger] all[k]) < items.len()
            && title_matches(items[all[k] as int], pattern) by {
            if k < fewer.len() {
                assert(all[k] == fewer[k]);
                assert(rest[fewer[k] as int] == items[fewer[k] as int]);
            }
        }
        assert forall|j: int, k: int| 0 <= j < k < all.len() implies (#[trigger] all[j]) < (
        #[trigger] all[k]) by {
            assert(all[j] == fewer[j]);
            if k < fewer.len() {
                assert(all[k] == fewer[k]);
            }
        }
        assert forall|row: int|
            0 <= row < items.len() && title_matches(
                #[trigger] items[row],
                pattern,
            ) implies all.contains(row as usize) by {
            if row < rest.len() {
                assert(rest[row] == items[row]);
                assert(fewer.contains(row as usize));
                let k = choose|k: int| 0 <= k < fewer.len() && fewer[k] == row as usize;
                assert(all[k] == row as usize);
            } else {
                assert(all[all.len() - 1] == row as usize);
            }
        }
    }
}


/// What the caller is to do after a key.
pub enum ActionView {
    /// Nothing.
    Nothing,
    /// End the session.
    Quit,
    /// Open this URL in the browser.
    Open(Seq<char>),
    /// Tell the reader of keys whether the quit key is to be ignored.
    IgnoreExitKey(bool),
    /// Read the feeds and reload the items.
    Reload,
}

impl AppView {
    /// The selected row, if it is a row of the items.
    pub open spec fn selected_item(self) -> Option<int> {
        match self.selected {
            Some(row) if row < self.items.len() => Some(row as int),
            _ => None,
        }
    }

    /// The URL of the selected item.
    pub open spec fn selected_url(self) -> Option<Seq<char>> {
        match self.selected_item() {
            Some(i) => Some(self.items[i].url),
            None => None,
        }
    }

    /// The selected item's read flag set. Without a selected item nothing
    /// changes.
    pub open spec fn with_selected_read(self, read: bool) -> AppView {
        match self.selected_item() {
            Some(i) => AppView {
                items: self.items.update(i, ItemView { read, ..self.items[i] }),
                ..self
            },
            None => self,
        }
    }

    /// The table of items once the selected item's read flag is set there.
    pub open spec fn store_with_selected_read(self, rows: Seq<ItemView>, read: bool) -> Seq<
        ItemView,
    > {
        match self.selected_url() {
            Some(url) => with_read(rows, url, read),
            None => rows,
        }
    }

    /// The read flag that a toggle gives the selected item.
    pub open spec fn toggled_read(self) -> bool {
        match self.selected_item() {
            Some(i) => !self.items[i].read,
            None => false,
        }
    }

    /// The starred flag that a toggle gives the selected item.
    pub open spec fn toggled_starred(self) -> bool {
        match self.selected_item() {
            Some(i) => !self.items[i].starred,
            None => false,
        }
    }

    /// The selected item's starred flag turned. Without a selected item
    /// nothing changes.
    pub open spec fn with_selected_star_toggled(self) -> AppView {
        match self.selected_item() {
            Some(i) => AppView {
                items: self.items.update(
                    i,
                    ItemView { starred: !self.items[i].starred, ..self.items[i] },
                ),
                ..self
            },
            None => self,
        }
    }

    /// The table of items once the selected item's starred flag is turned
    /// there.
    pub open spec fn store_with_selected_star_toggled(self, rows: Seq<ItemView>) -> Seq<
        ItemView,
    > {
        match self.selected_url() {
            Some(url) => with_starred(rows, url, self.toggled_starred()),
            None => rows,
        }
    }

    /// The selection moved to `row`: the item there is marked read, and the
    /// reader shows it from the top.
    pub open spec fn moved_to(self, row: usize) -> AppView {
        AppView {
            reader_scroll: 0,
            ..(AppView { selected: Some(row), ..self }).with_selected_read(true)
        }
    }

    /// The table of items once the selection has moved to `row`.
    pub open spec fn store_moved_to(self, rows: Seq<ItemView>, row: usize) -> Seq<ItemView> {
        (AppView { selected: Some(row), ..self }).store_with_selected_read(rows, true)
    }

    /// The search results replaced by the rows that the pattern matches.
    pub open spec fn searched(self, pattern: Seq<char>) -> AppView {
        AppView { search_results: matching_rows(self.items, pattern), ..self }
    }

    /// Search mode entered, with an empty entry.
    pub open spec fn search_started(self) -> AppView {
        AppView {
            input_mode: InputMode::Search,
            search_input_raw: Seq::empty(),
            search_input: None,
            ..self
        }
    }

    /// Search mode left, the entry dropped.
    pub open spec fn search_ended(self) -> AppView {
        AppView { input_mode: InputMode::Normal, search_input_raw: Seq::empty(), ..self }
    }

    /// The entry committed: it becomes the query, the results are those of
    /// the query, and search mode is left. An entry that makes no pattern
    /// leaves no query and no results.
    pub open spec fn search_committed(self) -> AppView {
        match query_for(self.search_input_raw) {
            Some(pattern) => (AppView {
                search_query: Some(pattern),
                ..self.searched(pattern)
            }).search_ended(),
            None => (AppView {
                search_query: None,
                search_results: Seq::empty(),
                ..self
            }).search_ended(),
        }
    }

    /// The entry replaced, and with it the query that is shown while typing.
    pub open spec fn with_entry(self, entry: Seq<char>) -> AppView {
        AppView { search_input_raw: entry, search_input: query_for(entry), ..self }
    }

    /// A character typed into the entry.
    pub open spec fn typed(self, c: char) -> AppView {
        self.with_entry(self.search_input_raw.push(c))
    }

    /// The last character of the entry erased, if there is one.
    pub open spec fn erased(self) -> AppView {
        if self.search_input_raw.len() > 0 {
            self.with_entry(self.search_input_raw.drop_last())
        } else {
            self.with_entry(self.search_input_raw)
        }
    }

    /// The reader scrolled up by a line, unless it is at its top.
    pub open spec fn reader_up(self) -> AppView {
        AppView {
            reader_scroll: if self.reader_scroll > 0 {
                (self.reader_scroll - 1) as u16
            } else {
                0
            },
            ..self
        }
    }

    /// The reader scrolled down by a line, as far as lines can be counted.
    pub open spec fn reader_down(self) -> AppView {
        AppView {
            reader_scroll: if self.reader_scroll < u16::MAX {
                (self.reader_scroll + 1) as u16
            } else {
                u16::MAX
            },
            ..self
        }
    }

    /// The selection moved to the next search result.
    pub open spec fn jumped_to_next(self) -> AppView {
        AppView { selected: next_result(self.search_results, self.selected), ..self }
    }

    /// The selection moved to the previous search result.
    pub open spec fn jumped_to_previous(self) -> AppView {
        AppView { selected: previous_result(self.search_results, self.selected), ..self }
    }

    /// The row that a key moves the selection to, for the keys that move it
    /// by rows.
    pub open spec fn row_for(self, key: Key) -> Option<usize> {
        match key {
            Key::Char('j') => Some(next_row(self.selected, self.rows.len())),
            Key::Char('k') => Some(previous_row(self.selected, self.rows.len())),
            Key::Ctrl('d') => Some(row_ahead(self.selected, PAGE, self.rows.len())),
            Key::Ctrl('u') => Some(row_back(self.selected, PAGE)),
            _ => None,
        }
    }

    /// The view model after a key.
    pub open spec fn after_key(self, key: Key) -> AppView {
        match self.input_mode {
            InputMode::Normal => match key {
                Key::Char('u') => self.with_selected_read(false),
                Key::Char('j') | Key::Char('k') | Key::Ctrl('d') | Key::Ctrl('u') => self.moved_to(
                    self.row_for(key).unwrap(),
                ),
                Key::Char('J') => self.reader_down(),
                Key::Char('K') => self.reader_up(),
                Key::Char('n') => self.jumped_to_next(),
                Key::Char('N') => self.jumped_to_previous(),
                Key::Char('f') => AppView { focus_reader: !self.focus_reader, ..self },
                Key::Char('/') => self.search_started(),
                _ => self,
            },
            InputMode::Search => match key {
                Key::Char('\n') => self.search_committed(),
                Key::Char(c) => self.typed(c),
                Key::Backspace => self.erased(),
                Key::Esc => self.search_ended(),
                _ => self,
            },
        }
    }

    /// The table of items after a key.
    pub open spec fn store_after_key(self, rows: Seq<ItemView>, key: Key) -> Seq<ItemView> {
        match self.input_mode {
            InputMode::Normal => match key {
                Key::Char('u') => self.store_with_selected_read(rows, false),
                Key::Char('j') | Key::Char('k') | Key::Ctrl('d') | Key::Ctrl('u') => self.store_moved_to(
                    rows,
                    self.row_for(key).unwrap(),
                ),
                _ => rows,
            },
            InputMode::Search => rows,
        }
    }

    /// What the caller is to do after a key.
    pub open spec fn action_for(self, key: Key) -> ActionView {
        match self.input_mode {
            InputMode::Normal => match key {
                Key::Char('q') => ActionView::Quit,
                Key::Char('o') => match self.selected_url() {
                    Some(url) => ActionView::Open(url),
                    None => ActionView::Nothing,
                },
                Key::Char('/') => ActionView::IgnoreExitKey(true),
                _ => ActionView::Nothing,
            },
            InputMode::Search => match key {
                Key::Char('\n') | Key::Esc => ActionView::IgnoreExitKey(false),
                _ => ActionView::Nothing,
            },
        }
    }
}

/// The quit-key flag after the caller has done what it was asked to: set as
/// told, or left as it was.
pub open spec fn flag_after(action: ActionView, ignore_exit_key: bool) -> bool {
    match action {
        ActionView::IgnoreExitKey(ignore) => ignore,
        _ => ignore_exit_key,
    }
}

/// As long as the caller does what each key asks of it, the reader of keys
/// ignores the exit key exactly while the view model is in search mode. So in
/// search mode no key ends the reading of keys, the exit key included, which
/// goes into the entry; in normal mode the exit key ends it.
pub proof fn lemma_mode_isolation(app: AppView, key: Key, ignore_exit_key: bool)
    requires
        ignore_exit_key == (app.input_mode == InputMode::Search),
    ensures
        flag_after(app.action_for(key), ignore_exit_key) == (app.after_key(key).input_mode
            == InputMode::Search),
        app.input_mode == InputMode::Search ==> !input_ends(key, ignore_exit_key),
        app.input_mode == InputMode::Search ==> app.after_key(exit_key()) == app.typed('q'),
        app.input_mode == InputMode::Normal ==> input_ends(exit_key(), ignore_exit_key),
{
}

/// A second pass over the same documents, at the same time or later, leaves
/// the working set as the first pass left it: the same items, as many as
/// before.
pub proof fn lemma_second_pass_shows_the_same(
    filter: FilterView,
    feeds: Seq<FeedView>,
    rows: Seq<ItemView>,
    fetched: Seq<FetchedView>,
    now: i64,
    later: i64,
)
    requires
        now <= later,
    ensures
        working_set(
            filter,
            feeds,
            rows_after_pass(rows_after_pass(rows, fetched, now), fetched, later),
        ) == working_set(filter, feeds, rows_after_pass(rows, fetched, now)),
{
    lemma_second_pass_adds_nothing(rows, fetched, now, later);
}

/// The rows with the read flag set on each row whose URL is one of `urls`.
pub open spec fn all_read(rows: Seq<ItemView>, urls: Seq<Seq<char>>) -> Seq<ItemView>
    decreases urls.len(),
{
    if urls.len() == 0 {
        rows
    } else {
        with_read(all_read(rows, urls.drop_last()), urls.last(), true)
    }
}

/// The URLs of the items, in order.
pub open spec fn urls_of(items: Seq<ItemView>) -> Seq<Seq<char>> {
    items.map_values(|item: ItemView| item.url)
}

/// What a filter keeps is what it was given and passes the test, and keeps
/// all of that.
proof fn lemma_filter_members<A>(all: Seq<A>, test: spec_fn(A) -> bool)
    ensures
        forall|k: int|
            0 <= k < all.filter(test).len() ==> test(#[trigger] all.filter(test)[k])
                && all.contains(all.filter(test)[k]),
        forall|i: int|
            0 <= i < all.len() && test(#[trigger] all[i]) ==> all.filter(test).contains(all[i]),
    decreases all.len(),
{
    reveal(Seq::filter);
    if all.len() > 0 {
        let rest = all.drop_last();
        let kept = all.filter(test);
        lemma_filter_members(rest, test);
        assert forall|k: int| 0 <= k < kept.len() implies test(#[trigger] kept[k])
            && all.contains(kept[k]) by {
            if k < rest.filter(test).len() {
                assert(kept[k] == rest.filter(test)[k]);
                let i = choose|i: int| 0 <= i < rest.len() && rest[i] == rest.filter(test)[k];
                assert(all[i] == kept[k]);
            } else {
                assert(all[all.len() - 1] == kept[k]);
            }
        }
        assert forall|i: int| 0 <= i < all.len() && test(#[trigger] all[i]) implies kept.contains(
            all[i],
        ) by {
            if i < rest.len() {
                assert(rest[i] == all[i]);
                let k = choose|k: int|
                    0 <= k < rest.filter(test).len() && rest.filter(test)[k] == rest[i];
                assert(kept[k] == all[i]);
            } else {
                assert(kept[kept.len() - 1] == all[i]);
            }
        }
    }
}

/// Setting read flags changes nothing else: the rows stay where they are,
/// and each has its flag set if its URL is among those named and is as it
/// was if not.
pub proof fn lemma_all_read(rows: Seq<ItemView>, urls: Seq<Seq<char>>)
    ensures
        all_read(rows, urls).len() == rows.len(),
        forall|i: int|
            0 <= i < rows.len() ==> #[trigger] all_read(rows, urls)[i] == if urls.contains(
                rows[i].url,
            ) {
                ItemView { read: true, ..rows[i] }
            } else {
                rows[i]
            },
    decreases urls.len(),
{
    if urls.len() > 0 {
        let fewer = urls.drop_last();
        let before = all_read(rows, fewer);
        lemma_all_read(rows, fewer);
        assert forall|i: int| 0 <= i < rows.len() implies #[trigger] all_read(rows, urls)[i]
            == if urls.contains(rows[i].url) {
            ItemView { read: true, ..rows[i] }
        } else {
            rows[i]
        } by {
            if fewer.contains(rows[i].url) {
                let k = choose|k: int| 0 <= k < fewer.len() && fewer[k] == rows[i].url;
                assert(urls[k] == rows[i].url);
            }
            if urls.contains(rows[i].url) && rows[i].url != urls.last() {
                let k = choose|k: int| 0 <= k < urls.len() && urls[k] == rows[i].url;
                assert(fewer[k] == rows[i].url);
            }
            if rows[i].url == urls.last() {
                assert(urls[urls.len() - 1] == rows[i].url);
            }
        }
    }
}

/// What is gathered is exactly the rows that pass the filter and belong to a
/// feed that passes it.
pub proof fn lemma_gathered(filter: FilterView, feeds: Seq<FeedView>, rows: Seq<ItemView>)
    ensures
        forall|k: int|
            0 <= k < gathered(filter, feeds, rows).len() ==> {
                let item = #[trigger] gathered(filter, feeds, rows)[k];
                &&& rows.contains(item)
                &&& item_passes(filter, item)
                &&& exists|j: int|
                    0 <= j < feeds.len() && feed_passes(filter, #[trigger] feeds[j]) && item.feed
                        == feeds[j].url
            },
        forall|i: int, j: int|
            0 <= i < rows.len() && 0 <= j < feeds.len() && item_passes(filter, #[trigger] rows[i])
                && feed_passes(filter, #[trigger] feeds[j]) && rows[i].feed == feeds[j].url
                ==> gathered(filter, feeds, rows).contains(rows[i]),
    decreases feeds.len(),
{
    if feeds.len() > 0 {
        let fewer = feeds.drop_last();
        let feed = feeds.last();
        let before = gathered(filter, fewer, rows);
        let these = feed_rows(filter, feed, rows);
        let all = gathered(filter, feeds, rows);
        let own = |row: ItemView| row.feed == feed.url;
        let pass = |item: ItemView| item_passes(filter, item);
        lemma_gathered(filter, fewer, rows);
        lemma_filter_members(rows, own);
        lemma_filter_members(rows.filter(own), pass);
        assert forall|k: int| 0 <= k < all.len() implies {
            let item = #[trigger] all[k];
            &&& rows.contains(item)
            &&& item_passes(filter, item)
            &&& exists|j: int|
                0 <= j < feeds.len() && feed_passes(filter, #[trigger] feeds[j]) && item.feed
                    == feeds[j].url
        } by {
            let item = all[k];
            if k < before.len() {
                assert(item == before[k]);
                let j = choose|j: int|
                    0 <= j < fewer.len() && feed_passes(filter, #[trigger] fewer[j]) && item.feed
                        == fewer[j].url;
                assert(feeds[j] == fewer[j]);
            } else {
                let m = k - before.len();
                assert(item == these[m]);
                assert(feed_passes(filter, feed));
                let own_rows = rows.filter(own);
                assert(pass(own_rows.filter(pass)[m]));
                assert(own_rows.contains(item));
                let n = choose|n: int| 0 <= n < own_rows.len() && own_rows[n] == item;
                assert(own(own_rows[n]));
                assert(feeds[feeds.len() - 1] == feed);
            }
        }
        assert forall|i: int, j: int|
            0 <= i < rows.len() && 0 <= j < feeds.len() && item_passes(filter, #[trigger] rows[i])
                && feed_passes(filter, #[trigger] feeds[j]) && rows[i].feed
                == feeds[j].url implies all.contains(rows[i]) by {
            if j < fewer.len() {
                assert(fewer[j] == feeds[j]);
                assert(before.contains(rows[i]));
                let k = choose|k: int| 0 <= k < before.len() && before[k] == rows[i];
                assert(all[k] == rows[i]);
            } else {
                let own_rows = rows.filter(own);
                assert(own(rows[i]));
                assert(own_rows.contains(rows[i]));
                let n = choose|n: int| 0 <= n < own_rows.len() && own_rows[n] == rows[i];
                assert(pass(own_rows[n]));
                assert(own_rows.filter(pass).contains(own_rows[n]));
                let m = choose|m: int| 0 <= m < these.len() && these[m] == rows[i];
                assert(all[before.len() + m] == rows[i]);
            }
        }
    }
}

/// No two feeds of the catalogue share a URL.
pub open spec fn distinct_feeds(feeds: Seq<FeedView>) -> bool {
    forall|i: int, j: int|
        0 <= i < j < feeds.len() ==> (#[trigger] feeds[i]).url != (#[trigger] feeds[j]).url
}

/// What a filter keeps of rows with distinct URLs has distinct URLs.
proof fn lemma_filter_distinct(rows: Seq<ItemView>, test: spec_fn(ItemView) -> bool)
    requires
        distinct_urls(rows),
    ensures
        distinct_urls(rows.filter(test)),
    decreases rows.len(),
{
    reveal(Seq::filter);
    if rows.len() > 0 {
        let rest = rows.drop_last();
        let kept = rows.filter(test);
        let fewer = rest.filter(test);
        assert forall|i: int, j: int| 0 <= i < j < rest.len() implies (#[trigger] rest[i]).url != (
        #[trigger] rest[j]).url by {
            assert(rows[i].url != rows[j].url);
        }
        lemma_filter_distinct(rest, test);
        lemma_filter_members(rest, test);
        assert forall|i: int, j: int| 0 <= i < j < kept.len() implies (#[trigger] kept[i]).url != (
        #[trigger] kept[j]).url by {
            if j < fewer.len() {
                assert(fewer[i].url != fewer[j].url);
            } else {
                assert(kept[j] == rows[rows.len() - 1]);
                assert(kept[i] == fewer[i]);
                assert(rest.contains(fewer[i]));
                let m = choose|m: int| 0 <= m < rest.len() && rest[m] == fewer[i];
                assert(rows[m].url != rows[rows.len() - 1].url);
            }
        }
    }
}

/// Where no two rows of the table and no two feeds of the catalogue share a
/// URL, what is gathered holds each URL at most once.
pub proof fn lemma_gathered_distinct(
    filter: FilterView,
    feeds: Seq<FeedView>,
    rows: Seq<ItemView>,
)
    requires
        distinct_urls(rows),
        distinct_feeds(feeds),
    ensures
        distinct_urls(gathered(filter, feeds, rows)),
    decreases feeds.len(),
{
    if feeds.len() > 0 {
        let fewer = feeds.drop_last();
        let feed = feeds.last();
        let before = gathered(filter, fewer, rows);
        let these = feed_rows(filter, feed, rows);
        let all = gathered(filter, feeds, rows);
        let own = |row: ItemView| row.feed == feed.url;
        let pass = |item: ItemView| item_passes(filter, item);
        assert forall|i: int, j: int| 0 <= i < j < fewer.len() implies (#[trigger] fewer[i]).url
            != (#[trigger] fewer[j]).url by {
            assert(feeds[i].url != feeds[j].url);
        }
        lemma_gathered_distinct(filter, fewer, rows);
        lemma_gathered(filter, fewer, rows);
        if feed_passes(filter, feed) {
            lemma_filter_distinct(rows, own);
            lemma_filter_distinct(rows.filter(own), pass);
            lemma_filter_members(rows, own);
            lemma_filter_members(rows.filter(own), pass);
        }
        assert forall|i: int, j: int| 0 <= i < j < all.len() implies (#[trigger] all[i]).url != (
        #[trigger] all[j]).url by {
            if j < before.len() {
                assert(before[i].url != before[j].url);
            } else if i >= before.len() {
                assert(these[i - before.len()].url != these[j - before.len()].url);
            } else {
                let x = before[i];
                let y = these[j - before.len()];
                assert(all[i] == x && all[j] == y);
                let own_rows = rows.filter(own);
                assert(own_rows.contains(y));
                let n = choose|n: int| 0 <= n < own_rows.len() && own_rows[n] == y;
                assert(own(own_rows[n]));
                assert(rows.contains(y));
                assert(rows.contains(x));
                let p = choose|p: int| 0 <= p < rows.len() && rows[p] == x;
                let q = choose|q: int| 0 <= q < rows.len() && rows[q] == y;
                let f = choose|f: int|
                    0 <= f < fewer.len() && feed_passes(filter, #[trigger] fewer[f]) && x.feed
                        == fewer[f].url;
                assert(feeds[f].url != feeds[feeds.len() - 1].url);
                if x.url == y.url {
                    if p < q {
                        assert(rows[p].url != rows[q].url);
                    } else if q < p {
                        assert(rows[q].url != rows[p].url);
                    }
                }
            }
        }
    }
}

/// Where no two rows of the table and no two feeds of the catalogue share a
/// URL, the working set holds each URL at most once.
pub proof fn lemma_working_set_distinct(
    filter: FilterView,
    feeds: Seq<FeedView>,
    rows: Seq<ItemView>,
)
    requires
        distinct_urls(rows),
        distinct_feeds(feeds),
    ensures
        distinct_urls(working_set(filter, feeds, rows)),
{
    lemma_gathered_distinct(filter, feeds, rows);
    lemma_by_recency_urls(gathered(filter, feeds, rows));
}

/// With a filter that shows unread items only, marking every item of the
/// working set as read and loading again leaves nothing to show.
pub proof fn lemma_filter_round_trip(
    filter: FilterView,
    feeds: Seq<FeedView>,
    rows: Seq<ItemView>,
)
    requires
        filter.read == Some(false),
    ensures
        working_set(
            filter,
            feeds,
            all_read(rows, urls_of(working_set(filter, feeds, rows))),
        ) == Seq::<ItemView>::empty(),
{
    broadcast use vstd::seq_lib::group_to_multiset_ensures;

    let shown = working_set(filter, feeds, rows);
    let urls = urls_of(shown);
    let after = all_read(rows, urls);
    let left = gathered(filter, feeds, after);
    lemma_all_read(rows, urls);
    lemma_gathered(filter, feeds, after);
    lemma_gathered(filter, feeds, rows);
    lemma_by_recency(gathered(filter, feeds, rows));
    if left.len() > 0 {
        let item = left[0];
        let i = choose|i: int| 0 <= i < after.len() && after[i] == item;
        let j = choose|j: int|
            0 <= j < feeds.len() && feed_passes(filter, #[trigger] feeds[j]) && item.feed
                == feeds[j].url;
        assert(!item.read);
        assert(after[i] == rows[i]);
        assert(!urls.contains(rows[i].url));
        assert(item_passes(filter, rows[i]));
        assert(gathered(filter, feeds, rows).contains(rows[i]));
        assert(gathered(filter, feeds, rows).to_multiset().count(rows[i]) > 0);
        assert(shown.to_multiset().count(rows[i]) > 0);
        assert(shown.contains(rows[i]));
        let n = choose|n: int| 0 <= n < shown.len() && shown[n] == rows[i];
        assert(urls[n] == rows[i].url);
        assert(false);
    }
    assert(left =~= Seq::<ItemView>::empty());
}

} // verus!
