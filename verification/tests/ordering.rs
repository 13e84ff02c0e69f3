use rssrs::db::Item;
use rssrs::order::{later, sort_recent_first};

fn item(url: &str, published_at: Option<i64>) -> Item {
    Item {
        read: false,
        starred: false,
        feed: "f".to_string(),
        retrieved_at: 0,
        title: None,
        url: url.to_string(),
        published_at,
        description: None,
    }
}

fn sorted_urls(items: Vec<Item>) -> Vec<String> {
    sort_recent_first(items).into_iter().map(|i| i.url).collect()
}

#[test]
fn sort_invariant() {
    let sorted = sort_recent_first(vec![
        item("a", Some(5)),
        item("b", None),
        item("c", Some(50)),
        item("d", Some(-7)),
        item("e", None),
        item("f", Some(20)),
        item("g", Some(50)),
    ]);
    assert_eq!(sorted.len(), 7);
    for pair in sorted.windows(2) {
        match (pair[0].published_at, pair[1].published_at) {
            (Some(x), Some(y)) => assert!(x >= y),
            (None, Some(_)) => panic!("an undated item stands before a dated one"),
            _ => {}
        }
    }
}

#[test]
fn most_recent_first_and_undated_last() {
    let urls = sorted_urls(vec![
        item("a", Some(5)),
        item("b", None),
        item("c", Some(50)),
        item("d", Some(-7)),
        item("f", Some(20)),
    ]);
    assert_eq!(urls, vec!["c", "f", "a", "d", "b"]);
}

#[test]
fn undated_items_stand_after_dates_before_1970() {
    let urls = sorted_urls(vec![item("n", None), item("old", Some(i64::MIN)), item("zero", Some(0))]);
    assert_eq!(urls, vec!["zero", "old", "n"]);
}

#[test]
fn equal_dates_keep_their_order() {
    let urls = sorted_urls(vec![
        item("a1", Some(1)),
        item("n1", None),
        item("b1", Some(2)),
        item("a2", Some(1)),
        item("n2", None),
        item("b2", Some(2)),
        item("a3", Some(1)),
    ]);
    assert_eq!(urls, vec!["b1", "b2", "a1", "a2", "a3", "n1", "n2"]);
}

#[test]
fn nothing_and_one_item_sort_to_themselves() {
    assert!(sort_recent_first(Vec::new()).is_empty());
    assert_eq!(sorted_urls(vec![item("a", None)]), vec!["a"]);
}

#[test]
fn a_date_ranks_above_an_earlier_one_and_above_none() {
    assert!(later(Some(2), Some(1)));
    assert!(!later(Some(1), Some(1)));
    assert!(!later(Some(1), Some(2)));
    assert!(later(Some(i64::MIN), None));
    assert!(!later(None, Some(i64::MIN)));
    assert!(!later(None, None));
}
