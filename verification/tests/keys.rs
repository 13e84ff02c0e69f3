use rssrs::conf::{Config, UPDATE_RATE};
use rssrs::events::{ends_input, next_step, Key, SyncStep};

#[test]
fn the_exit_key_ends_input_unless_ignored() {
    assert!(ends_input(Key::Char('q'), false));
    assert!(!ends_input(Key::Char('q'), true));
    assert!(!ends_input(Key::Char('Q'), false));
    assert!(!ends_input(Key::Ctrl('q'), false));
    assert!(!ends_input(Key::Esc, false));
    assert!(!ends_input(Key::Char('x'), true));
}

#[test]
fn the_steps_of_the_worker_form_a_ring() {
    assert_eq!(next_step(SyncStep::Announce, true), SyncStep::Pass);
    assert_eq!(next_step(SyncStep::Pass, true), SyncStep::Report);
    assert_eq!(next_step(SyncStep::Pass, false), SyncStep::Report);
    assert_eq!(next_step(SyncStep::Report, true), SyncStep::Rest);
    assert_eq!(next_step(SyncStep::Rest, true), SyncStep::Announce);
    assert_eq!(next_step(SyncStep::Rest, false), SyncStep::Announce);
}

#[test]
fn the_worker_stops_when_nobody_listens() {
    assert_eq!(next_step(SyncStep::Announce, false), SyncStep::Stop);
    assert_eq!(next_step(SyncStep::Report, false), SyncStep::Stop);
    assert_eq!(next_step(SyncStep::Stop, true), SyncStep::Stop);
}

#[test]
fn settings_start_with_the_usual_rate() {
    let config = Config::new("/tmp/x.db".to_string(), "/tmp/feeds.txt".to_string());
    assert_eq!(UPDATE_RATE, 1200);
    assert_eq!(config.update_rate, 1200);
    assert_eq!(config.db_path, "/tmp/x.db");
    assert_eq!(config.feeds_path, "/tmp/feeds.txt");
    assert!(config.keywords.is_empty());
    let copy = config.clone();
    assert_eq!(copy.db_path, "/tmp/x.db");
    assert_eq!(copy.update_rate, 1200);
}
