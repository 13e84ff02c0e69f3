//! Core of a terminal feed reader: the feed catalogue, the item table,
//! the synchronisation pass and the view model, each with its contract.

pub mod app;
pub mod conf;
pub mod db;
pub mod events;
pub mod feeds;
pub mod model;
pub mod order;
pub mod search;
pub mod sync;
pub mod text;
pub mod ui;
pub mod util;
