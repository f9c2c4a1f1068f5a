//! Removal of duplicate files from a directory tree, decided without I/O.
//!
//! A [`scan::Scan`] walks a tree depth first, passes over every entry whose
//! name starts with a dot, takes a fingerprint of every file, and where two
//! files have one fingerprint has the one removed that was modified earlier.
//! It does none of the work on the file system itself: it hands its driver one
//! [`scan::Request`] at a time and takes the driver's [`scan::Reply`].
//!
//! - [`entry`]: directory entries, and which of them are hidden.
//! - [`fingerprint`]: the fingerprint in the output of a hashing tool.
//! - [`registry`]: the path kept for each fingerprint, and the rule that
//!   settles a duplicate.
//! - [`log`]: the records of the log and their lines.
//! - [`scan`]: the scan itself, as a function of the replies it is given.
//! - [`trace`]: what holds of a scan whatever the driver replies.
//! - [`retention`]: which files a scan keeps and which it removes.
//! - [`tree`]: the scan of a fixed tree from its first request to its last.

pub mod entry;
pub mod fingerprint;
pub mod log;
pub mod registry;
pub mod retention;
pub mod scan;
pub mod trace;
pub mod tree;
