use rssrs::search::Query;
use rssrs::text::{chars_of, contains_text, find_from, has_text};
use rssrs::util::{cuts, split_keep, Cut};

#[test]
fn characters_not_bytes() {
    assert_eq!(chars_of("aü日"), vec!['a', 'ü', '日']);
    assert!(chars_of("").is_empty());
}

#[test]
fn find_from_finds_the_first_at_or_after() {
    let chars = chars_of("a|b|c");
    assert_eq!(find_from(&chars, 0, '|'), 1);
    assert_eq!(find_from(&chars, 1, '|'), 1);
    assert_eq!(find_from(&chars, 2, '|'), 3);
    assert_eq!(find_from(&chars, 4, '|'), 5);
    assert_eq!(find_from(&chars, 5, '|'), 5);
}

#[test]
fn a_text_contains_its_parts() {
    assert!(contains_text("hello world", "lo w"));
    assert!(contains_text("hello world", "hello world"));
    assert!(contains_text("hello world", ""));
    assert!(contains_text("", ""));
    assert!(contains_text("hello", "o"));
    assert!(contains_text("hello", "h"));
    assert!(!contains_text("hello", "Hello"));
    assert!(!contains_text("hello", "hello!"));
    assert!(!contains_text("", "a"));
    assert!(contains_text("aab", "ab"));
    assert!(contains_text("naïve café", "ïve c"));
}

#[test]
fn a_list_has_its_texts() {
    let list = vec!["a".to_string(), "bc".to_string()];
    assert!(has_text(&list, &"bc".to_string()));
    assert!(!has_text(&list, &"b".to_string()));
    assert!(!has_text(&Vec::new(), &"".to_string()));
}

#[test]
fn a_query_ignores_case() {
    let query = Query::new("(rust)").unwrap();
    assert_eq!(query.as_str(), "(rust)");
    assert!(query.is_match("Learning RUST today"));
    assert!(query.is_match("rust"));
    assert!(!query.is_match("rest"));
    let copy = query.clone();
    assert_eq!(copy.as_str(), "(rust)");
}

#[test]
fn a_query_is_an_expression() {
    let query = Query::new("(a.c|x+)").unwrap();
    assert!(query.is_match("abc"));
    assert!(query.is_match("..XxX.."));
    assert!(!query.is_match("ac"));
    assert!(Query::new("()").unwrap().is_match("anything"));
    assert!(Query::new("()").unwrap().is_match(""));
}

#[test]
fn a_broken_pattern_makes_no_query() {
    assert!(Query::new("(").is_none());
    assert!(Query::new("(a))").is_none());
    assert!(Query::new("([a-)").is_none());
    assert!(Query::new("(*)").is_none());
}

#[test]
fn matches_are_found_as_byte_ranges() {
    let query = Query::new("(ö)").unwrap();
    assert_eq!(query.find_all("xöyÖz"), vec![(1, 3), (4, 6)]);
    assert!(query.find_all("none").is_empty());
    assert_eq!(Query::new("(a*)").unwrap().find_all("baab"), vec![(0, 0), (1, 3), (4, 4)]);
}

#[test]
fn cuts_cover_the_text() {
    let cut = |start, end, matched| Cut { start, end, matched };
    assert_eq!(cuts(&vec![(2, 4), (4, 5), (7, 9)], 10), vec![
        cut(0, 2, false),
        cut(2, 4, true),
        cut(4, 5, true),
        cut(5, 7, false),
        cut(7, 9, true),
        cut(9, 10, false),
    ]);
    assert_eq!(cuts(&vec![(0, 3)], 3), vec![cut(0, 3, true)]);
    assert_eq!(cuts(&Vec::new(), 3), vec![cut(0, 3, false)]);
    assert!(cuts(&Vec::new(), 0).is_empty());
    assert_eq!(cuts(&vec![(0, 0)], 0), vec![cut(0, 0, true)]);
}

#[test]
fn split_keep_marks_the_matches() {
    let query = Query::new("(foo)").unwrap();
    assert_eq!(split_keep(&query, "a foo and FOO"), vec![
        ("a ", false),
        ("foo", true),
        (" and ", false),
        ("FOO", true),
    ]);
    assert_eq!(split_keep(&query, "foofoo!"), vec![("foo", true), ("foo", true), ("!", false)]);
    assert_eq!(split_keep(&query, "nothing"), vec![("nothing", false)]);
    assert!(split_keep(&query, "").is_empty());
}

#[test]
fn split_keep_cuts_at_characters() {
    let query = Query::new("(é+)").unwrap();
    assert_eq!(split_keep(&query, "caféé au lait — é"), vec![
        ("caf", false),
        ("éé", true),
        (" au lait — ", false),
        ("é", true),
    ]);
}

#[test]
fn find_from_beyond_the_end_finds_nothing() {
    let chars = chars_of("a|b");
    assert_eq!(find_from(&chars, 9, '|'), 3);
    assert_eq!(find_from(&Vec::new(), 0, '|'), 0);
}
