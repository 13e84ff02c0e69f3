use rssrs::app::{table_row, Action, App, Filter, InputMode, Status};
use rssrs::db::{Database, Item};
use rssrs::events::{ends_input, Event, Key};
use rssrs::feeds::{load_feeds, Feed};
use rssrs::search::Query;

fn item(url: &str, feed: &str, title: Option<&str>, published_at: Option<i64>, retrieved_at: i64) -> Item {
    Item {
        read: false,
        starred: false,
        feed: feed.to_string(),
        retrieved_at,
        title: title.map(|t| t.to_string()),
        url: url.to_string(),
        published_at,
        description: None,
    }
}

fn feed(url: &str, tags: &[&str]) -> Feed {
    Feed { url: url.to_string(), title: format!("Feed {}", url), tags: tags.iter().map(|t| t.to_string()).collect() }
}

fn store() -> (Vec<Feed>, Database) {
    let feeds = vec![feed("f1", &["news", "tech"]), feed("f2", &["art"])];
    let mut db = Database::new();
    db.add_item(&item("u1", "f1", Some("Rust released"), Some(300), 10));
    db.add_item(&item("u2", "f2", Some("Painting"), Some(500), 10));
    db.add_item(&item("u3", "f1", None, None, 20));
    db.add_item(&item("u4", "f1", Some("More rust"), Some(400), 30));
    db.add_item(&item("u5", "f3", Some("Unlisted feed"), Some(900), 30));
    (feeds, db)
}

fn urls(app: &App) -> Vec<&str> {
    app.items.iter().map(|i| i.url.as_str()).collect()
}

fn titled(n: usize) -> App {
    let mut app = App::new();
    app.items = (0..n).map(|i| item(&format!("u{}", i), "f", Some(&format!("title {}", i)), Some(i as i64), 0)).collect();
    app.update_items_table();
    app
}

#[test]
fn a_new_app_shows_nothing() {
    let app = App::new();
    assert!(app.items.is_empty());
    assert!(app.feeds.is_empty());
    assert!(app.table.items.is_empty());
    assert_eq!(app.table.state.selected(), None);
    assert_eq!(app.input_mode, InputMode::Normal);
    assert_eq!(app.status, Status::Idle);
    assert_eq!(app.last_updated, 0);
    assert!(!app.focus_reader);
    assert_eq!(app.reader_scroll, 0);
    assert!(app.search_results.is_empty());
    assert!(app.search_input_raw.is_empty());
    assert!(app.search_input.is_none());
    assert!(app.search_query.is_none());
    assert!(app.marked.is_empty());
    assert_eq!(app.filter.read, Some(false));
    assert_eq!(app.filter.starred, None);
}

#[test]
fn the_default_filter_shows_unread_items() {
    let filter = Filter::default();
    assert_eq!(filter.read, Some(false));
    assert_eq!(filter.starred, None);
    assert!(filter.feeds.is_empty());
    assert!(filter.keywords.is_empty());
    assert!(filter.tags.is_empty());
    let mut it = item("u", "f", None, None, 0);
    assert!(filter.filter_item(&it));
    it.read = true;
    assert!(!filter.filter_item(&it));
    assert!(filter.filter_feed(&feed("any", &[])));
}

#[test]
fn a_filter_names_feeds_and_tags() {
    let mut filter = Filter::default();
    filter.feeds = vec!["f1".to_string(), "f2".to_string()];
    assert!(filter.filter_feed(&feed("f2", &[])));
    assert!(!filter.filter_feed(&feed("f3", &["news"])));
    filter.tags = vec!["news".to_string(), "art".to_string()];
    assert!(!filter.filter_feed(&feed("f2", &[])));
    assert!(filter.filter_feed(&feed("f2", &["x", "art"])));
    assert!(!filter.filter_feed(&feed("f3", &["art"])));
    filter.feeds.clear();
    assert!(filter.filter_feed(&feed("f3", &["art"])));
    assert!(!filter.filter_feed(&feed("f3", &["arts"])));
}

#[test]
fn a_filter_asks_for_flags_and_keywords() {
    let mut filter = Filter::default();
    filter.read = None;
    filter.starred = Some(true);
    let mut it = item("u", "f", Some("Rust and more"), None, 0);
    assert!(!filter.filter_item(&it));
    it.starred = true;
    assert!(filter.filter_item(&it));
    it.read = true;
    assert!(filter.filter_item(&it));
    filter.starred = Some(false);
    assert!(!filter.filter_item(&it));
    filter.starred = None;
    filter.read = Some(true);
    assert!(filter.filter_item(&it));
    filter.keywords = vec!["go".to_string(), "and".to_string()];
    assert!(filter.filter_item(&it));
    filter.keywords = vec!["rust".to_string()];
    assert!(!filter.filter_item(&it));
    filter.keywords = vec!["Rust".to_string()];
    assert!(filter.filter_item(&it));
    it.title = None;
    assert!(!filter.filter_item(&it));
    filter.keywords = vec!["".to_string()];
    assert!(!filter.filter_item(&it));
    it.title = Some("".to_string());
    assert!(filter.filter_item(&it));
}

#[test]
fn a_full_reload_shows_the_working_set() {
    let (feeds, db) = store();
    let mut app = App::new();
    app.load_items(&feeds, &db);
    assert_eq!(urls(&app), vec!["u2", "u4", "u1", "u3"]);
    assert_eq!(app.last_updated, 30);
    assert_eq!(app.table.items.len(), 4);
    assert_eq!(app.table.items[0][0], "Painting");
    assert_eq!(app.table.items[3], vec!["<no title>".to_string(), "<no pub date>".to_string()]);
    assert_eq!(app.table.items[1].len(), 2);
    assert_ne!(app.table.items[1][1], "<no pub date>");
    assert_eq!(app.feeds.len(), 2);
    assert_eq!(app.feeds[1].url, "f2");
    assert_eq!(app.table.state.selected(), None);
}

#[test]
fn a_reload_of_an_empty_table_keeps_the_time() {
    let mut app = App::new();
    app.last_updated = 77;
    app.load_items(&vec![feed("f1", &[])], &Database::new());
    assert!(app.items.is_empty());
    assert_eq!(app.last_updated, 77);
}

#[test]
fn a_feed_listed_twice_shows_its_items_twice() {
    let (_, db) = store();
    let mut app = App::new();
    let items = app._load_items(&vec![feed("f2", &[]), feed("f2", &["x"])], &db);
    assert_eq!(items.len(), 2);
    assert_eq!(app.feeds.len(), 1);
    assert_eq!(app.feeds[0].tags, vec!["x".to_string()]);
}

#[test]
fn a_delta_reload_adds_what_is_new() {
    let (feeds, mut db) = store();
    let mut app = App::new();
    app.load_items(&feeds, &db);
    app.table.state.select(Some(1));
    db.add_item(&item("u6", "f2", Some("Newest"), Some(450), 40));
    db.add_item(&item("u7", "f1", Some("Undated new"), None, 41));
    db.add_item(&item("u8", "f1", Some("Same second"), Some(1000), 30));
    app.load_new_items_at(&feeds, &db, 50);
    assert_eq!(urls(&app), vec!["u2", "u6", "u4", "u1", "u3", "u7"]);
    assert_eq!(app.last_updated, 50);
    assert_eq!(app.table.items.len(), 6);
    assert_eq!(app.table.items[1][0], "Newest");
    assert_eq!(app.table.state.selected(), Some(1));
    app.load_new_items_at(&feeds, &db, 60);
    assert_eq!(app.items.len(), 6);
    assert_eq!(app.last_updated, 60);
    app.load_new_items(&feeds, &db);
    assert_eq!(app.items.len(), 6);
    assert!(app.last_updated > 1_600_000_000);
}

#[test]
fn filter_round_trip() {
    let (feeds, mut db) = store();
    let mut app = App::new();
    assert_eq!(app.filter.read, Some(false));
    app.load_items(&feeds, &db);
    assert_eq!(app.items.len(), 4);
    for row in 0..app.items.len() {
        app.table.state.select(Some(row));
        app.toggle_selected_read(&mut db);
    }
    assert!(app.items.iter().all(|i| i.read));
    app.load_items(&feeds, &db);
    assert!(app.items.is_empty());
    assert!(app.table.items.is_empty());
}

#[test]
fn the_read_filter_turns_through_three_settings() {
    let (feeds, mut db) = store();
    db.set_item_read(&item("u1", "f1", None, None, 0), true);
    let mut app = App::new();
    app.load_items(&feeds, &db);
    assert_eq!(urls(&app), vec!["u2", "u4", "u3"]);
    app.toggle_read_filter(&feeds, &db);
    assert_eq!(app.filter.read, None);
    assert_eq!(urls(&app), vec!["u2", "u4", "u1", "u3"]);
    app.toggle_read_filter(&feeds, &db);
    assert_eq!(app.filter.read, Some(true));
    assert_eq!(urls(&app), vec!["u1"]);
    app.toggle_read_filter(&feeds, &db);
    assert_eq!(app.filter.read, Some(false));
    assert_eq!(urls(&app), vec!["u2", "u4", "u3"]);
}

#[test]
fn the_starred_filter_turns_through_three_settings() {
    let (feeds, mut db) = store();
    db.set_item_starred(&item("u4", "f1", None, None, 0), true);
    let mut app = App::new();
    app.toggle_starred_filter(&feeds, &db);
    assert_eq!(app.filter.starred, Some(true));
    assert_eq!(urls(&app), vec!["u4"]);
    app.toggle_starred_filter(&feeds, &db);
    assert_eq!(app.filter.starred, Some(false));
    assert_eq!(urls(&app), vec!["u2", "u1", "u3"]);
    app.toggle_starred_filter(&feeds, &db);
    assert_eq!(app.filter.starred, None);
    assert_eq!(app.items.len(), 4);
}

#[test]
fn table_rows_have_placeholders() {
    let it = item("u", "f", Some("A title"), Some(5), 0);
    assert_eq!(table_row(&it, Some("01/01/70 00:00".to_string())), vec!["A title".to_string(), "01/01/70 00:00".to_string()]);
    assert_eq!(table_row(&it, None), vec!["A title".to_string(), "<no pub date>".to_string()]);
    let it = item("u", "f", None, None, 0);
    assert_eq!(table_row(&it, None), vec!["<no title>".to_string(), "<no pub date>".to_string()]);
}

#[test]
fn reading_and_starring_write_through() {
    let (feeds, mut db) = store();
    let mut app = App::new();
    app.load_items(&feeds, &db);
    app.mark_selected_read(&mut db);
    assert!(app.items.iter().all(|i| !i.read));
    app.table.state.select(Some(2));
    assert_eq!(app.selected_row(), Some(2));
    app.mark_selected_read(&mut db);
    assert!(app.items[2].read);
    assert!(db.get_feed_items("f1")[0].read);
    assert!(!db.get_feed_items("f1")[1].read);
    app.mark_selected_unread(&mut db);
    assert!(!app.items[2].read);
    assert!(!db.get_feed_items("f1")[0].read);
    app.toggle_selected_read(&mut db);
    assert!(app.items[2].read);
    app.toggle_selected_read(&mut db);
    assert!(!app.items[2].read);
    assert!(!db.get_feed_items("f1")[0].read);
    app.toggle_selected_star(&mut db);
    assert!(app.items[2].starred);
    assert!(db.get_feed_items("f1")[0].starred);
    app.toggle_selected_star(&mut db);
    assert!(!app.items[2].starred);
    assert!(!db.get_feed_items("f1")[0].starred);
}

#[test]
fn a_selection_beyond_the_items_selects_nothing() {
    let (feeds, mut db) = store();
    let mut app = App::new();
    app.load_items(&feeds, &db);
    app.table.state.select(Some(4));
    assert_eq!(app.selected_row(), None);
    app.mark_selected_read(&mut db);
    app.toggle_selected_star(&mut db);
    app.toggle_selected_read(&mut db);
    assert!(app.items.iter().all(|i| !i.read && !i.starred));
    assert_eq!(app.open_selected(), None);
    assert!(db.get_feed_items("f1").iter().all(|i| !i.read && !i.starred));
}

#[test]
fn moving_marks_as_read() {
    let (feeds, mut db) = store();
    let mut app = App::new();
    app.load_items(&feeds, &db);
    app.reader_scroll = 9;
    app.scroll_items_down(&mut db);
    assert_eq!(app.table.state.selected(), Some(0));
    assert!(app.items[0].read);
    assert_eq!(app.reader_scroll, 0);
    assert!(db.get_feed_items("f2")[0].read);
    app.scroll_items_up(&mut db);
    assert_eq!(app.table.state.selected(), Some(3));
    assert!(app.items[3].read);
    app.scroll_items_down(&mut db);
    assert_eq!(app.table.state.selected(), Some(0));
    app.scroll_items_down(&mut db);
    assert_eq!(app.table.state.selected(), Some(1));
    assert!(app.items[1].read);
    assert!(!app.items[2].read);
}

#[test]
fn pages_are_five_rows() {
    let mut db = Database::new();
    let mut app = titled(12);
    app.page_items_down(&mut db);
    assert_eq!(app.table.state.selected(), Some(0));
    app.page_items_down(&mut db);
    assert_eq!(app.table.state.selected(), Some(5));
    app.page_items_down(&mut db);
    app.page_items_down(&mut db);
    assert_eq!(app.table.state.selected(), Some(11));
    assert!(app.items[11].read);
    app.page_items_up(&mut db);
    assert_eq!(app.table.state.selected(), Some(6));
    app.page_items_up(&mut db);
    app.page_items_up(&mut db);
    assert_eq!(app.table.state.selected(), Some(0));
}

#[test]
fn moving_in_an_empty_table_selects_its_first_row() {
    let mut db = Database::new();
    let mut app = App::new();
    app.scroll_items_down(&mut db);
    assert_eq!(app.table.state.selected(), Some(0));
    assert_eq!(app.selected_row(), None);
    app.scroll_items_up(&mut db);
    app.page_items_down(&mut db);
    app.page_items_up(&mut db);
    assert_eq!(app.table.state.selected(), Some(0));
}

#[test]
fn the_reader_scrolls_within_its_bounds() {
    let mut app = App::new();
    app.scroll_reader_up();
    assert_eq!(app.reader_scroll, 0);
    app.scroll_reader_down();
    app.scroll_reader_down();
    assert_eq!(app.reader_scroll, 2);
    app.scroll_reader_up();
    assert_eq!(app.reader_scroll, 1);
    app.reader_scroll = u16::MAX;
    app.scroll_reader_down();
    assert_eq!(app.reader_scroll, u16::MAX);
    app.reset_reader_scroll();
    assert_eq!(app.reader_scroll, 0);
    app.toggle_focus_reader();
    assert!(app.focus_reader);
    app.toggle_focus_reader();
    assert!(!app.focus_reader);
}

#[test]
fn a_query_is_the_entry_as_a_group() {
    let app = App::new();
    assert_eq!(app.build_query(&"rust".to_string()).unwrap().as_str(), "(rust)");
    assert_eq!(app.build_query(&"".to_string()).unwrap().as_str(), "()");
    assert_eq!(app.build_query(&"a|b".to_string()).unwrap().as_str(), "(a|b)");
    assert!(app.build_query(&"(".to_string()).is_none());
    assert!(app.build_query(&")".to_string()).is_none());
    assert!(app.build_query(&"[".to_string()).is_none());
}

#[test]
fn a_search_finds_the_rows_with_matching_titles() {
    let (feeds, db) = store();
    let mut app = App::new();
    app.load_items(&feeds, &db);
    app.execute_search(&Query::new("(RUST)").unwrap());
    assert_eq!(app.search_results, vec![1, 2]);
    app.execute_search(&Query::new("(^p)").unwrap());
    assert_eq!(app.search_results, vec![0]);
    app.execute_search(&Query::new("()").unwrap());
    assert_eq!(app.search_results, vec![0, 1, 2]);
    app.execute_search(&Query::new("(zzz)").unwrap());
    assert!(app.search_results.is_empty());
}

#[test]
fn search_wrap() {
    let mut app = titled(12);
    app.search_results = vec![2, 5, 9];
    app.table.state.select(Some(9));
    app.jump_to_next_result();
    assert_eq!(app.table.state.selected(), Some(2));
    app.table.state.select(None);
    app.jump_to_next_result();
    assert_eq!(app.table.state.selected(), Some(2));
}

#[test]
fn jumps_go_to_the_next_result() {
    let mut app = titled(12);
    app.search_results = vec![2, 5, 9];
    app.table.state.select(Some(0));
    app.jump_to_next_result();
    assert_eq!(app.table.state.selected(), Some(2));
    app.jump_to_next_result();
    assert_eq!(app.table.state.selected(), Some(5));
    app.table.state.select(Some(6));
    app.jump_to_next_result();
    assert_eq!(app.table.state.selected(), Some(9));
    app.table.state.select(Some(11));
    app.jump_to_next_result();
    assert_eq!(app.table.state.selected(), Some(2));
}

#[test]
fn jumps_go_to_the_previous_result() {
    let mut app = titled(12);
    app.search_results = vec![2, 5, 9];
    app.table.state.select(Some(9));
    app.jump_to_prev_result();
    assert_eq!(app.table.state.selected(), Some(5));
    app.table.state.select(Some(4));
    app.jump_to_prev_result();
    assert_eq!(app.table.state.selected(), Some(2));
    app.jump_to_prev_result();
    assert_eq!(app.table.state.selected(), Some(9));
    app.table.state.select(Some(0));
    app.jump_to_prev_result();
    assert_eq!(app.table.state.selected(), Some(9));
    app.table.state.select(Some(11));
    app.jump_to_prev_result();
    assert_eq!(app.table.state.selected(), Some(9));
    app.table.state.select(None);
    app.jump_to_prev_result();
    assert_eq!(app.table.state.selected(), Some(2));
}

#[test]
fn jumps_without_results_stay() {
    let mut app = titled(3);
    app.table.state.select(Some(1));
    app.jump_to_next_result();
    assert_eq!(app.table.state.selected(), Some(1));
    app.jump_to_prev_result();
    assert_eq!(app.table.state.selected(), Some(1));
    app.table.state.select(None);
    app.jump_to_next_result();
    app.jump_to_prev_result();
    assert_eq!(app.table.state.selected(), None);
}

#[test]
fn marks_are_turned_and_opened() {
    let mut app = titled(4);
    app.toggle_selected_mark();
    assert!(app.marked.is_empty());
    app.table.state.select(Some(2));
    app.toggle_selected_mark();
    app.table.state.select(Some(0));
    app.toggle_selected_mark();
    app.table.state.select(Some(7));
    app.toggle_selected_mark();
    assert_eq!(app.marked, vec![2, 0, 7]);
    assert_eq!(app.open_marked(), vec!["u2".to_string(), "u0".to_string()]);
    app.table.state.select(Some(2));
    app.toggle_selected_mark();
    assert_eq!(app.marked, vec![0, 7]);
    assert_eq!(app.open_selected(), Some("u2".to_string()));
    app.marked = vec![1, 3, 1];
    app.table.state.select(Some(1));
    app.toggle_selected_mark();
    assert_eq!(app.marked, vec![3]);
    app.clear_marked();
    assert!(app.marked.is_empty());
    assert!(app.open_marked().is_empty());
}

#[test]
fn the_slash_starts_a_search() {
    let mut db = Database::new();
    let mut app = titled(3);
    app.search_input_raw = "stale".to_string();
    let action = app.handle_key(Key::Char('/'), &mut db);
    assert!(matches!(action, Action::IgnoreExitKey(true)));
    assert_eq!(app.input_mode, InputMode::Search);
    assert!(app.search_input_raw.is_empty());
    assert!(app.search_input.is_none());
}

#[test]
fn typing_builds_the_entry() {
    let mut db = Database::new();
    let mut app = titled(3);
    app.handle_key(Key::Char('/'), &mut db);
    assert!(matches!(app.handle_key(Key::Char('t'), &mut db), Action::Nothing));
    assert!(matches!(app.handle_key(Key::Char('('), &mut db), Action::Nothing));
    assert_eq!(app.search_input_raw, "t(");
    assert!(app.search_input.is_none());
    app.handle_key(Key::Backspace, &mut db);
    assert_eq!(app.search_input_raw, "t");
    assert_eq!(app.search_input.as_ref().unwrap().as_str(), "(t)");
    app.handle_key(Key::Char('é'), &mut db);
    assert_eq!(app.search_input_raw, "té");
    app.handle_key(Key::Backspace, &mut db);
    app.handle_key(Key::Backspace, &mut db);
    assert_eq!(app.search_input_raw, "");
    assert_eq!(app.search_input.as_ref().unwrap().as_str(), "()");
    app.handle_key(Key::Backspace, &mut db);
    assert_eq!(app.search_input_raw, "");
    app.handle_key(Key::Other, &mut db);
    app.handle_key(Key::Ctrl('d'), &mut db);
    assert_eq!(app.search_input_raw, "");
    assert_eq!(app.input_mode, InputMode::Search);
    assert_eq!(app.table.state.selected(), None);
}

#[test]
fn enter_commits_the_search() {
    let mut db = Database::new();
    let mut app = titled(12);
    app.handle_key(Key::Char('/'), &mut db);
    for c in "TITLE 1".chars() {
        app.handle_key(Key::Char(c), &mut db);
    }
    let action = app.handle_key(Key::Char('\n'), &mut db);
    assert!(matches!(action, Action::IgnoreExitKey(false)));
    assert_eq!(app.input_mode, InputMode::Normal);
    assert!(app.search_input_raw.is_empty());
    assert_eq!(app.search_query.as_ref().unwrap().as_str(), "(TITLE 1)");
    assert_eq!(app.search_results, vec![1, 10, 11]);
    app.handle_key(Key::Char('n'), &mut db);
    assert_eq!(app.table.state.selected(), Some(1));
    app.handle_key(Key::Char('n'), &mut db);
    assert_eq!(app.table.state.selected(), Some(10));
    app.handle_key(Key::Char('N'), &mut db);
    assert_eq!(app.table.state.selected(), Some(1));
    assert!(!app.items[1].read);
}

#[test]
fn a_broken_entry_commits_to_no_match() {
    let mut db = Database::new();
    let mut app = titled(3);
    app.search_results = vec![0, 1];
    app.search_query = Query::new("(title)");
    app.handle_key(Key::Char('/'), &mut db);
    app.handle_key(Key::Char('['), &mut db);
    let action = app.handle_key(Key::Char('\n'), &mut db);
    assert!(matches!(action, Action::IgnoreExitKey(false)));
    assert_eq!(app.input_mode, InputMode::Normal);
    assert!(app.search_query.is_none());
    assert!(app.search_results.is_empty());
    assert!(app.search_input_raw.is_empty());
}

#[test]
fn escape_drops_the_entry() {
    let mut db = Database::new();
    let mut app = titled(3);
    app.search_results = vec![1];
    app.search_query = Query::new("(title 1)");
    app.handle_key(Key::Char('/'), &mut db);
    app.handle_key(Key::Char('x'), &mut db);
    let action = app.handle_key(Key::Esc, &mut db);
    assert!(matches!(action, Action::IgnoreExitKey(false)));
    assert_eq!(app.input_mode, InputMode::Normal);
    assert!(app.search_input_raw.is_empty());
    assert_eq!(app.search_query.as_ref().unwrap().as_str(), "(title 1)");
    assert_eq!(app.search_results, vec![1]);
}

#[test]
fn mode_isolation() {
    let mut db = Database::new();
    let mut app = titled(3);
    let mut ignore_exit_key = false;
    let mut press = |app: &mut App, key: Key, ignore: &mut bool| -> (bool, bool) {
        let ends = ends_input(key, *ignore);
        let action = app.handle_key(key, &mut db);
        if let Action::IgnoreExitKey(flag) = action {
            *ignore = flag;
        }
        (ends, matches!(action, Action::Quit))
    };
    press(&mut app, Key::Char('/'), &mut ignore_exit_key);
    assert!(ignore_exit_key);
    let (ends, quits) = press(&mut app, Key::Char('q'), &mut ignore_exit_key);
    assert!(!ends);
    assert!(!quits);
    assert_eq!(app.search_input_raw, "q");
    assert_eq!(app.input_mode, InputMode::Search);
    press(&mut app, Key::Char('\n'), &mut ignore_exit_key);
    assert!(!ignore_exit_key);
    press(&mut app, Key::Char('/'), &mut ignore_exit_key);
    press(&mut app, Key::Esc, &mut ignore_exit_key);
    assert!(!ignore_exit_key);
    assert_eq!(app.input_mode, InputMode::Normal);
    let (ends, quits) = press(&mut app, Key::Char('q'), &mut ignore_exit_key);
    assert!(ends);
    assert!(quits);
}

#[test]
fn keys_are_commands_in_normal_mode() {
    let (feeds, mut db) = store();
    let mut app = App::new();
    app.load_items(&feeds, &db);
    assert!(matches!(app.handle_key(Key::Char('o'), &mut db), Action::Nothing));
    assert!(matches!(app.handle_key(Key::Char('j'), &mut db), Action::Nothing));
    assert_eq!(app.table.state.selected(), Some(0));
    assert!(app.items[0].read);
    match app.handle_key(Key::Char('o'), &mut db) {
        Action::Open(url) => assert_eq!(url, "u2"),
        other => panic!("expected a URL to open, got {:?}", other),
    }
    app.handle_key(Key::Char('u'), &mut db);
    assert!(!app.items[0].read);
    assert!(!db.get_feed_items("f2")[0].read);
    app.handle_key(Key::Char('k'), &mut db);
    assert_eq!(app.table.state.selected(), Some(3));
    app.handle_key(Key::Ctrl('u'), &mut db);
    assert_eq!(app.table.state.selected(), Some(0));
    app.handle_key(Key::Ctrl('d'), &mut db);
    assert_eq!(app.table.state.selected(), Some(3));
    app.handle_key(Key::Char('J'), &mut db);
    app.handle_key(Key::Char('J'), &mut db);
    app.handle_key(Key::Char('K'), &mut db);
    assert_eq!(app.reader_scroll, 1);
    app.handle_key(Key::Char('f'), &mut db);
    assert!(app.focus_reader);
    assert!(matches!(app.handle_key(Key::Char('x'), &mut db), Action::Nothing));
    assert!(matches!(app.handle_key(Key::Esc, &mut db), Action::Nothing));
    assert!(matches!(app.handle_key(Key::Char('\n'), &mut db), Action::Nothing));
    assert!(matches!(app.handle_key(Key::Backspace, &mut db), Action::Nothing));
    assert_eq!(app.input_mode, InputMode::Normal);
    assert!(matches!(app.handle_key(Key::Char('q'), &mut db), Action::Quit));
}

#[test]
fn events_set_the_status() {
    let mut db = Database::new();
    let mut app = titled(2);
    assert!(matches!(app.handle_event(Event::Updating, &mut db), Action::Nothing));
    assert_eq!(app.status, Status::Updating);
    assert!(matches!(app.handle_event(Event::Updated, &mut db), Action::Reload));
    assert_eq!(app.status, Status::Idle);
    assert!(matches!(app.handle_event(Event::Input(Key::Char('q')), &mut db), Action::Quit));
    assert!(matches!(app.handle_event(Event::Input(Key::Char('/')), &mut db), Action::IgnoreExitKey(true)));
}

#[test]
fn a_catalogue_text_drives_a_reload() {
    let (_, db) = store();
    let feeds = load_feeds("# my feeds\nf2|Art|art\nf1|News|news,tech\n");
    let mut app = App::new();
    app.filter.tags = vec!["tech".to_string()];
    app.load_items(&feeds, &db);
    assert_eq!(urls(&app), vec!["u4", "u1", "u3"]);
    assert_eq!(app.feeds.len(), 2);
    assert_eq!(app.feeds[0].title, "Art");
}

#[test]
fn unread_items_are_counted() {
    let mut app = titled(4);
    assert_eq!(app.unread_count(), 4);
    app.items[1].read = true;
    app.items[3].read = true;
    assert_eq!(app.unread_count(), 2);
    assert_eq!(App::new().unread_count(), 0);
}

#[test]
fn filter_marks_show_what_is_asked_for() {
    let mut filter = Filter::default();
    assert_eq!(filter.marks(), "[Я]");
    filter.read = Some(true);
    filter.starred = Some(false);
    assert_eq!(filter.marks(), "[RƧ]");
    filter.read = None;
    filter.starred = Some(true);
    filter.tags = vec!["t".to_string()];
    assert_eq!(filter.marks(), "[ST]");
    filter.starred = None;
    filter.feeds = vec!["f".to_string()];
    assert_eq!(filter.marks(), "[TC]");
    filter.tags.clear();
    filter.feeds.clear();
    assert_eq!(filter.marks(), "[]");
}

#[test]
fn the_working_set_holds_each_url_once() {
    let (feeds, db) = store();
    let mut app = App::new();
    app.filter.read = None;
    app.load_items(&feeds, &db);
    let mut seen: Vec<&str> = urls(&app);
    seen.sort();
    seen.dedup();
    assert_eq!(seen.len(), app.items.len());
    assert_eq!(app.feed_title(&"f2".to_string()).as_deref(), Some("Feed f2"));
    assert_eq!(app.feed_title(&"f9".to_string()), None);
}
