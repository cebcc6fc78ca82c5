//! Persistence core for a "recently opened files" list: an ordered,
//! deduplicated, size-bounded most-recently-used list of file paths,
//! together with the on-disk document format it is stored in.
//!
//! The library is pure: reading and writing the backing file is left to the
//! embedding application, which hands the file's content in and takes the
//! new content back as plain strings.

pub mod codec;
pub mod policy;
pub mod store;
