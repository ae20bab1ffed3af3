//! A small file-backed key/value store (`SimpleDB`), a table of rows keyed by
//! row id (`ColonDB`), and the time-table logic of a daily notification
//! planner built on top of them.
//!
//! - `text`: character-level reading and writing (decimal numbers, trimming,
//!   splitting, joining, lines).
//! - `keyed`: lists of keyed entries and the maps they stand for.
//! - `simple_db`: the key/value store and its file format.
//! - `colon_db`: the table store and its file format.
//! - `schedule`: plans of `(time, activity)` pairs: time zones, sorting,
//!   clock texts and cron expressions.
//! - `planner`: the decisions of the planner's menus and prompts.

pub mod text;
pub mod keyed;
pub mod simple_db;
pub mod colon_db;
pub mod schedule;
pub mod planner;

pub use colon_db::ColonDB;
pub use simple_db::SimpleDB;
