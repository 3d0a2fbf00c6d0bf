//! One request: from the cache as loaded and what the scan observed to the
//! cache to store and the index to answer with.

use vstd::prelude::*;
use crate::cache::{Cache, Index, cache_model, names_model};
use crate::index::{build_index, is_index_of};
use crate::merge::{apply_changes, merged};
use crate::persist::{entries_json, entries_of_cache, store_cache};
use crate::scan::{Scan, ScanError, Timestamp, diff, root_unreadable, scan_model, update_cache};

verus! {

/// What a request arrives at.
#[derive(Debug, Clone, PartialEq, Eq)]
pub struct Outcome {
    /// The cache, brought up to date.
    pub cache: Cache,
    /// The text to store it under; `None` where it could not be written
    /// as text, in which case the next request starts from the old one.
    pub stored: Option<Vec<u8>>,
    /// The inverted index of the cache.
    pub index: Index,
}

/// Brings the cache up to date with what the scan observed, and derives
/// from it the text to store and the inverted index.
///
/// It fails where [`update_cache`] does, and then nothing is to be stored.
pub fn hash_files(cache: Cache, cache_as_of: Option<Timestamp>, scan: &Scan) -> (result: Result<
    Outcome,
    ScanError,
>)
    ensures
        result is Err <==> root_unreadable(cache_as_of, scan_model(*scan)),
        match result {
            Ok(outcome) => {
                &&& cache_model(outcome.cache) == merged(
                    cache_model(cache),
                    diff(cache_model(cache), cache_as_of, scan_model(*scan)),
                )
                &&& outcome.stored.deep_view() == entries_json(entries_of_cache(outcome.cache))
                &&& is_index_of(names_model(outcome.index), cache_model(outcome.cache))
            },
            Err(error) => error == ScanError::RootUnreadable,
        },
{
    let mut cache = cache;
    match update_cache(&cache, cache_as_of, scan) {
        Ok(changes) => {
            apply_changes(&mut cache, &changes);
            let stored = store_cache(&cache);
            let index = build_index(&cache);
            Ok(Outcome { cache, stored, index })
        },
        Err(error) => Err(error),
    }
}

} // verus!
