//! Retention engine for timestamped backups under a grandfather-father-son
//! policy: which backups are kept, and why.

pub mod arrange;
pub mod backup;
pub mod buckets;
pub mod calendar;
pub mod civil;
pub mod config;
pub mod entry;
pub mod keys;
pub mod laws;
pub mod listing;
pub mod mark;
pub mod text;
pub mod timestamp;

pub use backup::{ArchiveMode, TimestampSelection};
pub use config::Config;
pub use entry::Entry;
pub use mark::read_backups;
