//! Verified core of a read-only music-library filesystem.
//!
//! A relational store of artist/album/track metadata is presented as a
//! three-level directory tree `/artist/album/song`. This crate holds the
//! engine that maps paths and numeric identifiers onto typed hierarchy
//! positions, lists directory contents with offset-based continuation,
//! keeps identifiers stable for the life of the process, and reports
//! POSIX-style attributes. The kernel transport and process startup live
//! outside the crate.

pub mod attr;
pub mod cache;
pub mod error;
pub mod fs;
pub mod ids;
pub mod listing;
pub mod path;
pub mod store;
