//! The stored form of the cache: a JSON object of objects of strings,
//! read and written with `serde_json`.
//!
//! A stored cache that is missing or cannot be read as such an object
//! counts as an empty cache without a freshness token, so that the next
//! scan looks at everything.

use vstd::prelude::*;
use crate::cache::{Cache, CacheModel, Files, NamesModel, cache_model, copy_of, lemma_cache_insert,
    lemma_cache_remove, lemma_names_insert, lemma_names_remove, names_model};
use crate::scan::Timestamp;
use crate::strmap::StrMap;

verus! {

/// The files of one subdirectory as pairs of file name and fingerprint.
pub type FileEntries = Seq<(Seq<char>, Seq<char>)>;

/// A cache as pairs of subdirectory name and file entries.
pub type CacheEntries = Seq<(Seq<char>, Seq<(Seq<char>, Seq<char>)>)>;

/// What `serde_json` reads from a text as a map of maps of strings, its
/// entries in ascending order of their keys; `None` where the text is not
/// JSON of that shape.
pub uninterp spec fn json_entries(text: Seq<u8>) -> Option<CacheEntries>;

/// What `serde_json` writes for the map of maps of strings with these
/// entries; `None` where it reports an error.
pub uninterp spec fn entries_json(entries: CacheEntries) -> Option<Seq<u8>>;

/// `serde_json::from_slice`, asked for a `BTreeMap` of `BTreeMap`s of
/// strings. Its result is a function of the text alone; the maps are
/// handed on entry by entry, in the order in which a `BTreeMap` is walked.
#[verifier::external_body]
fn parse_entries(text: &[u8]) -> (entries: Option<Vec<(String, Vec<(String, String)>)>>)
    ensures
        entries.deep_view() == json_entries(text@),
{
    let parsed: std::collections::BTreeMap<String, std::collections::BTreeMap<String, String>> =
        serde_json::from_slice(text).ok()?;
    Some(parsed.into_iter().map(|(name, files)| (name, files.into_iter().collect())).collect())
}

/// `serde_json::to_vec`, given a `BTreeMap` of `BTreeMap`s of strings made
/// of the entries. Its result is a function of the entries alone.
#[verifier::external_body]
fn write_entries(entries: &Vec<(String, Vec<(String, String)>)>) -> (text: Option<Vec<u8>>)
    ensures
        text.deep_view() == entries_json(entries.deep_view()),
{
    let map: std::collections::BTreeMap<&str, std::collections::BTreeMap<&str, &str>> =
        entries.iter().map(
        |(name, files)|
            (name.as_str(), files.iter().map(|(file, hash)| (file.as_str(), hash.as_str())).collect()),
    ).collect();
    serde_json::to_vec(&map).ok()
}

/// The files that a sequence of entries stands for; of two entries with
/// one file name the later counts.
pub open spec fn files_of_entries(entries: FileEntries) -> NamesModel
    decreases entries.len(),
{
    if entries.len() == 0 {
        Map::empty()
    } else {
        files_of_entries(entries.drop_last()).insert(entries.last().0, entries.last().1)
    }
}

/// The cache that a sequence of entries stands for; of two entries with
/// one subdirectory name the later counts.
pub open spec fn cache_of_entries(entries: CacheEntries) -> CacheModel
    decreases entries.len(),
{
    if entries.len() == 0 {
        Map::empty()
    } else {
        cache_of_entries(entries.drop_last()).insert(
            entries.last().0,
            files_of_entries(entries.last().1),
        )
    }
}

/// The files of a subdirectory from their entries.
pub fn files_from_entries(entries: &Vec<(String, String)>) -> (files: Files)
    ensures
        names_model(files) == files_of_entries(entries.deep_view()),
{
    let ghost all = entries.deep_view();
    let mut files: Files = StrMap::new();
    let mut i: usize = 0;
    proof {
        lemma_names_remove(Map::empty(), Seq::empty());
        assert(all.take(0) =~= Seq::empty());
    }
    while i < entries.len()
        invariant
            i <= entries@.len(),
            all == entries.deep_view(),
            all.len() == entries@.len(),
            names_model(files) == files_of_entries(all.take(i as int)),
        decreases entries@.len() - i,
    {
        let ghost inner = files@;
        let hash = copy_of(entries[i].1.as_str());
        files.insert(copy_of(entries[i].0.as_str()), hash);
        proof {
            lemma_names_insert(inner, entries[i as int].0@, hash);
            assert(all.take(i + 1).drop_last() =~= all.take(i as int));
            assert(all.take(i + 1).last() == (entries[i as int].0@, entries[i as int].1@));
        }
        i = i + 1;
    }
    proof {
        assert(all.take(all.len() as int) =~= all);
    }
    files
}

/// A cache from its entries.
pub fn cache_from_entries(entries: &Vec<(String, Vec<(String, String)>)>) -> (cache: Cache)
    ensures
        cache_model(cache) == cache_of_entries(entries.deep_view()),
{
    let ghost all = entries.deep_view();
    let mut cache: Cache = StrMap::new();
    let mut i: usize = 0;
    proof {
        lemma_cache_remove(Map::empty(), Seq::empty());
        assert(all.take(0) =~= Seq::empty());
    }
    while i < entries.len()
        invariant
            i <= entries@.len(),
            all == entries.deep_view(),
            all.len() == entries@.len(),
            cache_model(cache) == cache_of_entries(all.take(i as int)),
        decreases entries@.len() - i,
    {
        let ghost inner = cache@;
        let files = files_from_entries(&entries[i].1);
        cache.insert(copy_of(entries[i].0.as_str()), files);
        proof {
            lemma_cache_insert(inner, entries[i as int].0@, files);
            assert(all.take(i + 1).drop_last() =~= all.take(i as int));
            assert(all.take(i + 1).last() == (
                entries[i as int].0@,
                entries[i as int].1.deep_view(),
            ));
        }
        i = i + 1;
    }
    proof {
        assert(all.take(all.len() as int) =~= all);
    }
    cache
}

/// The file entries of a subdirectory, in the order of the file names.
pub open spec fn entries_of_files(files: Files) -> FileEntries {
    Seq::new(files.keys().len(), |i: int| (files.keys()[i], files.values()[i]@))
}

/// The entries of a cache, in the order of the subdirectory names.
pub open spec fn entries_of_cache(cache: Cache) -> CacheEntries {
    Seq::new(cache.keys().len(), |i: int| (cache.keys()[i], entries_of_files(cache.values()[i])))
}

/// The files of a subdirectory as a vector of entries.
pub fn files_to_entries(files: &Files) -> (entries: Vec<(String, String)>)
    ensures
        entries.deep_view() == entries_of_files(*files),
{
    let mut entries: Vec<(String, String)> = Vec::new();
    let n = files.len();
    let mut i: usize = 0;
    while i < n
        invariant
            i <= n,
            n == files.keys().len(),
            files.wf(),
            entries@.len() == i,
            forall|j: int|
                0 <= j < i ==> (#[trigger] entries@[j]).0@ == files.keys()[j] && entries@[j].1@
                    == files.values()[j]@,
        decreases n - i,
    {
        let name = copy_of(files.key(i).as_str());
        let hash = copy_of(files.value(i).as_str());
        entries.push((name, hash));
        i = i + 1;
    }
    assert(entries.deep_view() =~= entries_of_files(*files));
    entries
}

/// A cache as a vector of entries.
pub fn cache_to_entries(cache: &Cache) -> (entries: Vec<(String, Vec<(String, String)>)>)
    ensures
        entries.deep_view() == entries_of_cache(*cache),
{
    let mut entries: Vec<(String, Vec<(String, String)>)> = Vec::new();
    let n = cache.len();
    let mut i: usize = 0;
    while i < n
        invariant
            i <= n,
            n == cache.keys().len(),
            cache.wf(),
            entries@.len() == i,
            forall|j: int|
                0 <= j < i ==> (#[trigger] entries@[j]).0@ == cache.keys()[j]
                    && entries@[j].1.deep_view() == entries_of_files(cache.values()[j]),
        decreases n - i,
    {
        let name = copy_of(cache.key(i).as_str());
        let files = files_to_entries(cache.value(i));
        entries.push((name, files));
        i = i + 1;
    }
    assert(entries.deep_view() =~= entries_of_cache(*cache));
    entries
}

/// The cache and the freshness token that a request starts from, given
/// what was read of the stored cache and the time at which the stored
/// cache was last modified.
pub open spec fn opened(parsed: Option<CacheEntries>, modified: Option<u128>) -> (
    CacheModel,
    Option<u128>,
) {
    match parsed {
        Some(entries) => (cache_of_entries(entries), modified),
        None => (Map::empty(), None),
    }
}

/// The cache and the freshness token that a request starts from, given
/// the entries read from the stored cache, if it could be read.
pub fn open_cache(
    parsed: Option<Vec<(String, Vec<(String, String)>)>>,
    modified: Option<Timestamp>,
) -> (start: (Cache, Option<Timestamp>))
    ensures
        (cache_model(start.0), start.1) == opened(parsed.deep_view(), modified),
{
    match parsed {
        Some(entries) => (cache_from_entries(&entries), modified),
        None => {
            proof {
                lemma_cache_remove(Map::empty(), Seq::empty());
            }
            (StrMap::new(), None)
        },
    }
}

/// What `serde_json` makes of the stored text, if there is one.
pub open spec fn parsed(stored: Option<&[u8]>) -> Option<CacheEntries> {
    match stored {
        Some(text) => json_entries(text@),
        None => None,
    }
}

/// Loads the cache from the text of the stored cache, `None` where there
/// is no stored cache, and takes the time at which the stored cache was
/// last modified as the freshness token.
pub fn load_cache(stored: Option<&[u8]>, modified: Option<Timestamp>) -> (start: (
    Cache,
    Option<Timestamp>,
))
    ensures
        (cache_model(start.0), start.1) == opened(parsed(stored), modified),
{
    let entries = match stored {
        Some(text) => parse_entries(text),
        None => None,
    };
    open_cache(entries, modified)
}

/// The text under which a cache is stored; `None` where `serde_json`
/// reports an error.
pub fn store_cache(cache: &Cache) -> (text: Option<Vec<u8>>)
    ensures
        text.deep_view() == entries_json(entries_of_cache(*cache)),
{
    let entries = cache_to_entries(cache);
    write_entries(&entries)
}

} // verus!
