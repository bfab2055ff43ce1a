//! A persistent key-value store of strings over a segmented, append-only log.
//!
//! The log is a sequence of segments, each a run of length-prefixed records.
//! An index maps every live key to the position of its latest record, and
//! compaction rewrites the live records into a fresh log.
//!
//! This crate holds the log, the index and the store over the bytes of the
//! segments, and says which files hold them and in which steps they are
//! replaced.  Reading the files and writing them is left to the caller.
//!
//! - [`prefix`]: the length prefix of a record;
//! - [`record`]: records and their text, with [`json`] for the strings inside;
//! - [`storages`]: the segment log;
//! - [`index`]: the index;
//! - [`kv`]: the store;
//! - [`names`]: the names of segment files;
//! - [`replace`]: the steps in which the files of a log are replaced;
//! - [`laws`]: what holds of all of these.

pub mod error;
pub mod index;
pub mod json;
pub mod kv;
pub mod laws;
pub mod names;
pub mod prefix;
pub mod record;
pub mod replace;
pub mod storages;

pub use error::Error;
pub use kv::KvStore;
pub use record::Record;
