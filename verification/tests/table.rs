use rssrs::db::{Database, Item};

fn item(url: &str, feed: &str, retrieved_at: i64) -> Item {
    Item {
        read: false,
        starred: false,
        feed: feed.to_string(),
        retrieved_at,
        title: Some(format!("title of {}", url)),
        url: url.to_string(),
        published_at: Some(retrieved_at - 10),
        description: None,
    }
}

#[test]
fn a_new_table_is_empty() {
    let db = Database::new();
    assert_eq!(db.len(), 0);
    assert_eq!(db.last_update(), None);
    assert!(db.get_feed_items("f").is_empty());
}

#[test]
fn an_item_is_stored_once() {
    let mut db = Database::new();
    assert!(db.add_item(&item("u1", "f", 100)));
    assert!(!db.add_item(&item("u1", "f", 200)));
    assert_eq!(db.len(), 1);
    assert!(db.contains(&"u1".to_string()));
    assert!(!db.contains(&"u2".to_string()));
    let rows = db.get_feed_items("f");
    assert_eq!(rows.len(), 1);
    assert_eq!(rows[0].retrieved_at, 100);
}

#[test]
fn the_row_that_is_there_wins() {
    let mut db = Database::new();
    db.add_item(&item("u1", "f", 100));
    db.set_item_read(&item("u1", "f", 100), true);
    db.set_item_starred(&item("u1", "f", 100), true);
    let mut again = item("u1", "other", 999);
    again.title = Some("changed".to_string());
    assert!(!db.add_item(&again));
    let rows = db.get_feed_items("f");
    assert_eq!(rows.len(), 1);
    assert!(rows[0].read);
    assert!(rows[0].starred);
    assert_eq!(rows[0].retrieved_at, 100);
    assert_eq!(rows[0].title.as_deref(), Some("title of u1"));
    assert!(db.get_feed_items("other").is_empty());
}

#[test]
fn a_new_row_starts_unread_and_unstarred() {
    let mut db = Database::new();
    let mut it = item("u1", "f", 100);
    it.read = true;
    it.starred = true;
    assert!(db.add_item(&it));
    let rows = db.get_feed_items("f");
    assert!(!rows[0].read);
    assert!(!rows[0].starred);
}

#[test]
fn flags_are_set_by_url() {
    let mut db = Database::new();
    db.add_item(&item("u1", "f", 100));
    db.add_item(&item("u2", "f", 100));
    db.set_item_read(&item("u2", "whatever", 0), true);
    db.set_item_starred(&item("u1", "whatever", 0), true);
    db.set_item_read(&item("missing", "f", 0), true);
    let rows = db.get_feed_items("f");
    assert_eq!(rows.len(), 2);
    assert!(!rows[0].read && rows[0].starred);
    assert!(rows[1].read && !rows[1].starred);
    db.set_item_read(&item("u2", "f", 0), false);
    assert!(!db.get_feed_items("f")[1].read);
}

#[test]
fn rows_of_a_feed_come_in_table_order() {
    let mut db = Database::new();
    db.add_item(&item("u3", "f", 1));
    db.add_item(&item("u1", "g", 2));
    db.add_item(&item("u2", "f", 3));
    let urls: Vec<String> = db.get_feed_items("f").into_iter().map(|i| i.url).collect();
    assert_eq!(urls, vec!["u3".to_string(), "u2".to_string()]);
    let urls: Vec<String> = db.get_feed_items("g").into_iter().map(|i| i.url).collect();
    assert_eq!(urls, vec!["u1".to_string()]);
}

#[test]
fn the_last_update_is_the_latest_retrieval() {
    let mut db = Database::new();
    db.add_item(&item("u1", "f", 50));
    db.add_item(&item("u2", "f", 70));
    db.add_item(&item("u3", "f", 60));
    assert_eq!(db.last_update(), Some(70));
    let mut db = Database::new();
    db.add_item(&item("u1", "f", -5));
    assert_eq!(db.last_update(), Some(-5));
}

#[test]
fn added_items_are_handed_back() {
    let mut db = Database::new();
    db.add_item(&item("u1", "f", 1));
    let added = db.add_items(&vec![item("u2", "f", 2), item("u1", "f", 3), item("u2", "f", 4), item("u3", "f", 5)]);
    let urls: Vec<&str> = added.iter().map(|i| i.url.as_str()).collect();
    assert_eq!(urls, vec!["u2", "u3"]);
    assert_eq!(added[0].retrieved_at, 2);
    assert_eq!(db.len(), 3);
}

#[test]
fn rows_are_taken_as_they_are() {
    let mut first = item("u1", "f", 1);
    first.read = true;
    first.starred = true;
    let db = Database::with_rows(vec![first, item("u2", "f", 2), item("u1", "f", 3)]);
    assert_eq!(db.len(), 2);
    let rows = db.get_feed_items("f");
    assert!(rows[0].read && rows[0].starred);
    assert_eq!(rows[0].retrieved_at, 1);
    assert_eq!(rows[1].url, "u2");
}
