//! An incremental, content-addressed cache over a directory tree of two
//! levels: a subdirectory is an item, and the files in it are its content.
//!
//! A request loads the stored cache ([`persist`]), compares it with what a
//! scan of the tree observed ([`scan`]), merges the changes ([`merge`]),
//! and answers with the inverted index from a fingerprint to the
//! subdirectory that holds such content ([`index`]); [`engine`] puts these
//! together. Fingerprints are made in [`hash`]. What holds of all this is
//! stated in [`laws`].
//!
//! The library reads no file system: the program around it hands it what
//! it read, and asks it what to read next.

pub mod cache;
pub mod engine;
pub mod hash;
pub mod host;
pub mod index;
pub mod laws;
pub mod merge;
pub mod names;
pub mod order;
pub mod persist;
pub mod scan;
pub mod strmap;
