//! The settings of a session.

use crate::feeds::clone_texts;
use vstd::prelude::*;

verus! {

/// How many seconds lie between two synchronisation passes unless the
/// settings say otherwise.
pub const UPDATE_RATE: u64 = 1200;

/// Where the item table and the feed catalogue are kept, how often the feeds
/// are polled, and the keywords of interest.
#[derive(Debug)]
pub struct Config {
    pub db_path: String,
    pub feeds_path: String,
    pub update_rate: u64,
    pub keywords: Vec<String>,
}

impl Clone for Config {
    fn clone(&self) -> (copy: Config)
        ensures
            copy.db_path@ == self.db_path@,
            copy.feeds_path@ == self.feeds_path@,
            copy.update_rate == self.update_rate,
            copy.keywords.deep_view() == self.keywords.deep_view(),
    {
        Config {
            db_path: self.db_path.clone(),
            feeds_path: self.feeds_path.clone(),
            update_rate: self.update_rate,
            keywords: clone_texts(&self.keywords),
        }
    }
}

impl Config {
    /// The settings for these two places, with the usual update rate and no
    /// keywords.
    pub fn new(db_path: String, feeds_path: String) -> (config: Config)
        ensures
            config.db_path == db_path,
            config.feeds_path == feeds_path,
            config.update_rate == UPDATE_RATE,
            config.keywords@ == Seq::<String>::empty(),
    {
        Config { db_path, feeds_path, update_rate: UPDATE_RATE, keywords: Vec::new() }
    }
}

} // verus!
