//! A catalog of scanned filesystem locations: the reconciliation of scan
//! results against stored entries and files, user labels on entries, and a
//! filtered, sorted view over the catalog.

pub mod db;
pub mod dir_search;
pub mod laws;
pub mod lens;
pub mod models;
pub mod order;
pub mod search;
pub mod store;
pub mod text;
