//! The diff builder: from the prior cache, the freshness token and what a
//! scan of the directory tree observed, to the change set.
//!
//! Reading the file system is the caller's part. The decisions are made
//! here: [`is_newer`] says whether a modification time calls for a look,
//! [`needs_examination`] whether the files of a subdirectory have to be
//! listed, [`files_to_hash`] which of them have to be hashed, and
//! [`update_cache`] what the observations amount to.
//!
//! Freshness goes by modification times alone. A cached file that was not
//! modified after the token is taken as unchanged and is not hashed, so
//! that hashing grows with what changed and not with what is stored; the
//! price is that a change of content which leaves the time alone is
//! missed.

use vstd::prelude::*;
use crate::cache::{Cache, CacheModel, ChangeSet, ChangeSetModel, FileChanges, FileChangesModel,
    Files, NamesModel, cache_model, changes_model, copy_of, file_change_model,
    file_changes_model, lemma_changes_insert, lemma_file_changes_insert, lemma_take_step,
    names_model, subdir_change_model};
use crate::merge::files_in;
use crate::strmap::StrMap;

verus! {

/// A modification time, in nanoseconds since the Unix epoch.
pub type Timestamp = u128;

/// What a scan observed of one file.
#[derive(Debug, Clone, PartialEq, Eq)]
pub struct FileScan {
    /// When the file was last modified; `None` where that could not be
    /// read.
    pub modified: Option<u128>,
    /// The fingerprint of its content where it was hashed; `None` where
    /// it was not: because its cached fingerprint is fresh, or because it
    /// could not be read.
    pub hash: Option<String>,
}

/// The files found in a subdirectory.
pub type Listing = StrMap<FileScan>;

/// The mathematical value of a [`FileScan`].
pub struct FileModel {
    pub modified: Option<u128>,
    pub hash: Option<Seq<char>>,
}

/// The mathematical value of a [`Listing`].
pub type ListingModel = Map<Seq<char>, FileModel>;

/// What a scan observed of one subdirectory.
#[derive(Debug, Clone, PartialEq, Eq)]
pub struct SubdirScan {
    /// When the subdirectory was last modified; `None` where that could
    /// not be read.
    pub modified: Option<u128>,
    /// Its files; `None` where they were not listed, or could not be.
    pub files: Option<StrMap<FileScan>>,
}

/// What a scan observed of the tree.
#[derive(Debug, Clone, PartialEq, Eq)]
pub struct Scan {
    /// When the root was last modified; `None` where that could not be
    /// read.
    pub root_modified: Option<u128>,
    /// Whether the root was listed. If so, the keys of `subdirs` are the
    /// subdirectories that exist now.
    pub listed: bool,
    /// The subdirectories that were looked at.
    pub subdirs: StrMap<SubdirScan>,
}

/// The mathematical value of a [`SubdirScan`].
pub struct SubdirModel {
    pub modified: Option<u128>,
    pub files: Option<Map<Seq<char>, FileModel>>,
}

/// The mathematical value of a [`Scan`].
pub struct ScanModel {
    pub root_modified: Option<u128>,
    pub listed: bool,
    pub subdirs: Map<Seq<char>, SubdirModel>,
}

/// Why no change set could be computed.
#[derive(Debug, PartialEq, Eq, Structural)]
pub enum ScanError {
    /// The subdirectories had to be listed and the root could not be read.
    RootUnreadable,
}

impl ScanError {
    /// The error in words, for the one who sent the request.
    pub fn message(&self) -> (text: String)
        ensures
            text@ == "the directory could not be read"@,
    {
        match self {
            ScanError::RootUnreadable => "the directory could not be read".to_owned(),
        }
    }
}

/// What the scan of one file stands for.
pub open spec fn file_scan_model(scan: FileScan) -> FileModel {
    FileModel { modified: scan.modified, hash: file_change_model(scan.hash) }
}

/// A listing as a map, each file with what its scan stands for.
pub open spec fn listing_of(listing: Map<Seq<char>, FileScan>) -> ListingModel {
    listing.map_values(|scan: FileScan| file_scan_model(scan))
}

/// What a listing stands for.
pub open spec fn listing_model(listing: Listing) -> ListingModel {
    listing_of(listing@)
}

/// What the scan of one subdirectory stands for.
pub open spec fn subdir_scan_model(scan: SubdirScan) -> SubdirModel {
    SubdirModel {
        modified: scan.modified,
        files: match scan.files {
            Some(listing) => Some(listing_model(listing)),
            None => None,
        },
    }
}

/// The scanned subdirectories as a map, each with what its scan stands for.
pub open spec fn subdirs_of(subdirs: Map<Seq<char>, SubdirScan>) -> Map<Seq<char>, SubdirModel> {
    subdirs.map_values(|scan: SubdirScan| subdir_scan_model(scan))
}

/// What a scan stands for.
pub open spec fn scan_model(scan: Scan) -> ScanModel {
    ScanModel {
        root_modified: scan.root_modified,
        listed: scan.listed,
        subdirs: subdirs_of(scan.subdirs@),
    }
}

/// Whether something modified at `modified` may have changed since the
/// cache was written at `token`. Without a token, or without a readable
/// modification time, it may.
pub open spec fn newer(modified: Option<u128>, token: Option<u128>) -> bool {
    match (modified, token) {
        (Some(modified), Some(token)) => modified > token,
        _ => true,
    }
}

/// Whether a file that was found has to be hashed: it has where the
/// cache has no fingerprint for it, or the one it has is not fresh.
pub open spec fn stale(
    cached: NamesModel,
    token: Option<u128>,
    file: Seq<char>,
    modified: Option<u128>,
) -> bool {
    !cached.contains_key(file) || newer(modified, token)
}

/// The changes in one subdirectory. A listed file that had to be hashed
/// and was is added or updated with its fingerprint; a cached file that is
/// not listed is gone; nothing is said of a cached file that is fresh, nor
/// of a file that could not be hashed.
pub open spec fn file_diff(
    cached: NamesModel,
    token: Option<u128>,
    listing: ListingModel,
) -> FileChangesModel {
    Map::new(
        |file: Seq<char>|
            if listing.contains_key(file) {
                stale(cached, token, file, listing[file].modified) && listing[file].hash is Some
            } else {
                cached.contains_key(file)
            },
        |file: Seq<char>|
            if listing.contains_key(file) {
                listing[file].hash
            } else {
                None
            },
    )
}

/// The value of a key, if the map has the key.
pub open spec fn lookup<V>(map: Map<Seq<char>, V>, key: Seq<char>) -> Option<V> {
    if map.contains_key(key) {
        Some(map[key])
    } else {
        None
    }
}

/// Whether the files of a subdirectory that exists are compared with the
/// cache: they are where they were listed, and the subdirectory is new to
/// the cache or was modified after the token.
pub open spec fn examined(
    cached: Option<NamesModel>,
    token: Option<u128>,
    seen: Option<SubdirModel>,
) -> bool {
    seen is Some && seen->0.files is Some && (cached is None || newer(seen->0.modified, token))
}

/// The entry of the change set for a subdirectory that exists; `None` for
/// no entry. One that is examined has its file changes, one that is new
/// and not examined has empty ones.
pub open spec fn present_diff(
    cached: Option<NamesModel>,
    token: Option<u128>,
    seen: Option<SubdirModel>,
) -> Option<FileChangesModel> {
    if examined(cached, token, seen) {
        Some(
            file_diff(
                match cached {
                    Some(files) => files,
                    None => Map::empty(),
                },
                token,
                seen->0.files->0,
            ),
        )
    } else if cached is None {
        Some(Map::empty())
    } else {
        None
    }
}

/// Whether a subdirectory is taken to exist: if the root is newer than
/// the token, the ones that were listed do; else the ones of the cache do.
pub open spec fn present(
    cache: CacheModel,
    token: Option<u128>,
    scan: ScanModel,
    name: Seq<char>,
) -> bool {
    if newer(scan.root_modified, token) {
        scan.subdirs.contains_key(name)
    } else {
        cache.contains_key(name)
    }
}

/// The entry of the change set for a name, in three states; `None` for no
/// entry.
pub open spec fn subdir_diff(
    cache: CacheModel,
    token: Option<u128>,
    scan: ScanModel,
    name: Seq<char>,
) -> Option<Option<FileChangesModel>> {
    if present(cache, token, scan, name) {
        match present_diff(lookup(cache, name), token, lookup(scan.subdirs, name)) {
            Some(changes) => Some(Some(changes)),
            None => None,
        }
    } else if cache.contains_key(name) {
        Some(None)
    } else {
        None
    }
}

/// The change set that a scan amounts to.
pub open spec fn diff(cache: CacheModel, token: Option<u128>, scan: ScanModel) -> ChangeSetModel {
    Map::new(
        |name: Seq<char>| subdir_diff(cache, token, scan, name) is Some,
        |name: Seq<char>| subdir_diff(cache, token, scan, name)->0,
    )
}

/// The one way in which a scan is of no use: the subdirectories had to be
/// listed, and were not.
pub open spec fn root_unreadable(token: Option<u128>, scan: ScanModel) -> bool {
    newer(scan.root_modified, token) && !scan.listed
}

/// Whether `modified` is later than the token, or one of the two is not
/// known.
pub fn is_newer(modified: Option<Timestamp>, token: Option<Timestamp>) -> (answer: bool)
    ensures
        answer == newer(modified, token),
{
    match (modified, token) {
        (Some(modified), Some(token)) => modified > token,
        _ => true,
    }
}

/// Whether the files of a subdirectory that exists have to be listed.
pub fn needs_examination(
    cache: &Cache,
    token: Option<Timestamp>,
    name: &str,
    modified: Option<Timestamp>,
) -> (answer: bool)
    ensures
        answer == (!cache_model(*cache).contains_key(name@) || newer(modified, token)),
{
    !cache.contains_key(name) || is_newer(modified, token)
}

/// The files, in their order, that have to be hashed: those that the
/// cache has no fresh fingerprint for.
pub open spec fn to_hash(
    cached: NamesModel,
    token: Option<u128>,
    files: Seq<(Seq<char>, Option<u128>)>,
) -> Seq<Seq<char>>
    decreases files.len(),
{
    if files.len() == 0 {
        Seq::empty()
    } else {
        let before = to_hash(cached, token, files.drop_last());
        if stale(cached, token, files.last().0, files.last().1) {
            before.push(files.last().0)
        } else {
            before
        }
    }
}

/// Which of the files found in a subdirectory, each given with its
/// modification time, have to be hashed: those that the cache does not
/// have for the subdirectory, and those modified after the token. Without
/// a token that is all of them.
pub fn files_to_hash(
    cache: &Cache,
    token: Option<Timestamp>,
    name: &str,
    files: &Vec<(String, Option<Timestamp>)>,
) -> (work: Vec<String>)
    ensures
        work.deep_view() == to_hash(
            files_in(cache_model(*cache), name@),
            token,
            files.deep_view(),
        ),
{
    let ghost cached = files_in(cache_model(*cache), name@);
    let ghost all = files.deep_view();
    let known = cache.get(name);
    let mut work: Vec<String> = Vec::new();
    let mut i: usize = 0;
    assert(all.take(0) =~= Seq::empty());
    assert(work.deep_view() =~= Seq::empty());
    while i < files.len()
        invariant
            i <= files@.len(),
            all == files.deep_view(),
            all.len() == files@.len(),
            cached == files_in(cache_model(*cache), name@),
            known == (if cache@.contains_key(name@) {
                Some(&cache@[name@])
            } else {
                None
            }),
            work.deep_view() == to_hash(cached, token, all.take(i as int)),
        decreases files@.len() - i,
    {
        let file = &files[i].0;
        let hit = match known {
            Some(cached_files) => cached_files.contains_key(file.as_str()),
            None => false,
        };
        proof {
            assert(all.take(i + 1).drop_last() =~= all.take(i as int));
            assert(all.take(i + 1).last() == (file@, files@[i as int].1));
            assert(hit == cached.contains_key(file@));
        }
        let ghost before = work.deep_view();
        if !hit || is_newer(files[i].1, token) {
            work.push(copy_of(file.as_str()));
            assert(work.deep_view() =~= before.push(file@));
        }
        i = i + 1;
    }
    assert(all.take(all.len() as int) =~= all);
    work
}

/// A listing knows the files that its map has, each as its scan stands
/// for it.
proof fn lemma_listed(listing: Listing, file: Seq<char>)
    ensures
        listing_model(listing).contains_key(file) == listing@.contains_key(file),
        listing@.contains_key(file) ==> listing_model(listing)[file] == file_scan_model(
            listing@[file],
        ),
{
}

/// The file changes with only the first `done` listed files looked at.
pub open spec fn file_diff_listed(
    cached: NamesModel,
    token: Option<u128>,
    listing: ListingModel,
    names: Seq<Seq<char>>,
    done: int,
) -> FileChangesModel {
    Map::new(
        |file: Seq<char>|
            names.take(done).contains(file) && stale(cached, token, file, listing[file].modified)
                && listing[file].hash is Some,
        |file: Seq<char>| listing[file].hash,
    )
}

/// The file changes with all listed files and only the first `done` cached
/// files looked at.
pub open spec fn file_diff_cached(
    cached: NamesModel,
    token: Option<u128>,
    listing: ListingModel,
    names: Seq<Seq<char>>,
    done: int,
) -> FileChangesModel {
    Map::new(
        |file: Seq<char>|
            if listing.contains_key(file) {
                stale(cached, token, file, listing[file].modified) && listing[file].hash is Some
            } else {
                names.take(done).contains(file)
            },
        |file: Seq<char>|
            if listing.contains_key(file) {
                listing[file].hash
            } else {
                None
            },
    )
}

/// The files that the cache has: those given, or none.
pub open spec fn files_or_none(cached: Option<&Files>) -> NamesModel {
    match cached {
        Some(files) => names_model(*files),
        None => Map::empty(),
    }
}

/// Compares the files found in a subdirectory with those that the cache
/// has for it.
pub fn file_changes(cached: Option<&Files>, token: Option<Timestamp>, listing: &Listing) -> (changes:
    FileChanges)
    ensures
        file_changes_model(changes) == file_diff(
            files_or_none(cached),
            token,
            listing_model(*listing),
        ),
{
    let ghost old_files = files_or_none(cached);
    let ghost found = listing_model(*listing);
    let ghost names = listing.keys();
    let mut changes: FileChanges = StrMap::new();
    let n = listing.len();
    let mut i: usize = 0;
    proof {
        lemma_file_changes_insert(Map::empty(), Seq::empty(), None);
        assert(file_changes_model(changes) =~= file_diff_listed(
            old_files,
            token,
            found,
            names,
            0,
        )) by {
            assert forall|file: Seq<char>| !names.take(0).contains(file) by {
                assert(names.take(0).len() == 0);
            }
        }
    }
    while i < n
        invariant
            i <= n,
            n == names.len(),
            names == listing.keys(),
            listing.wf(),
            old_files == files_or_none(cached),
            found == listing_model(*listing),
            file_changes_model(changes) == file_diff_listed(
                old_files,
                token,
                found,
                names,
                i as int,
            ),
        decreases n - i,
    {
        let file = listing.key(i);
        let seen = listing.value(i);
        let ghost inner = changes@;
        let ghost now = file_changes_model(changes);
        let known = match cached {
            Some(files) => files.contains_key(file.as_str()),
            None => false,
        };
        proof {
            lemma_listed(*listing, file@);
            assert(known == old_files.contains_key(file@));
        }
        let ghost mut added = false;
        if !known || is_newer(seen.modified, token) {
            match &seen.hash {
                Some(hash) => {
                    let change = Some(copy_of(hash.as_str()));
                    changes.insert(copy_of(file.as_str()), change);
                    proof {
                        lemma_file_changes_insert(inner, file@, change);
                        added = true;
                    }
                },
                None => {},
            }
        }
        proof {
            let after = file_changes_model(changes);
            let next = file_diff_listed(old_files, token, found, names, i + 1);
            assert(after == if added {
                now.insert(file@, found[file@].hash)
            } else {
                now
            });
            assert forall|other: Seq<char>| after.contains_key(other) == next.contains_key(
                other,
            ) by {
                lemma_take_step(names, i as int, other);
            }
            assert forall|other: Seq<char>| after.contains_key(other) implies after[other]
                == next[other] by {
                lemma_take_step(names, i as int, other);
            }
            assert(after =~= next);
        }
        i = i + 1;
    }
    match cached {
        None => {
            proof {
                assert(names.take(n as int) =~= names);
                assert(file_changes_model(changes) =~= file_diff(old_files, token, found));
            }
        },
        Some(files) => {
            let ghost cached_names = files.keys();
            let m = files.len();
            let mut j: usize = 0;
            proof {
                assert(names.take(n as int) =~= names);
                assert(file_changes_model(changes) =~= file_diff_cached(
                    old_files,
                    token,
                    found,
                    cached_names,
                    0,
                )) by {
                    assert forall|file: Seq<char>| !cached_names.take(0).contains(file) by {
                        assert(cached_names.take(0).len() == 0);
                    }
                }
            }
            while j < m
                invariant
                    j <= m,
                    m == cached_names.len(),
                    cached_names == files.keys(),
                    files.wf(),
                    old_files == names_model(*files),
                    found == listing_model(*listing),
                    file_changes_model(changes) == file_diff_cached(
                        old_files,
                        token,
                        found,
                        cached_names,
                        j as int,
                    ),
                decreases m - j,
            {
                let file = files.key(j);
                let ghost inner = changes@;
                let ghost now = file_changes_model(changes);
                let listed = listing.contains_key(file.as_str());
                proof {
                    lemma_listed(*listing, file@);
                    assert(old_files.contains_key(file@));
                }
                if !listed {
                    changes.insert(copy_of(file.as_str()), None);
                    proof {
                        lemma_file_changes_insert(inner, file@, None);
                    }
                }
                proof {
                    let after = file_changes_model(changes);
                    let next = file_diff_cached(old_files, token, found, cached_names, j + 1);
                    assert(after == if listed {
                        now
                    } else {
                        now.insert(file@, None)
                    });
                    assert forall|other: Seq<char>| after.contains_key(other)
                        == next.contains_key(other) by {
                        lemma_take_step(cached_names, j as int, other);
                    }
                    assert forall|other: Seq<char>| after.contains_key(other) implies after[other]
                        == next[other] by {
                        lemma_take_step(cached_names, j as int, other);
                    }
                    assert(after =~= next);
                }
                j = j + 1;
            }
            proof {
                assert(cached_names.take(m as int) =~= cached_names);
                assert(file_changes_model(changes) =~= file_diff(old_files, token, found));
            }
        },
    }
    changes
}

/// What the cache has for a subdirectory, as a mathematical value.
pub open spec fn cached_model(cached: Option<&Files>) -> Option<NamesModel> {
    match cached {
        Some(files) => Some(names_model(*files)),
        None => None,
    }
}

/// What was seen of a subdirectory, as a mathematical value.
pub open spec fn seen_model(seen: Option<&SubdirScan>) -> Option<SubdirModel> {
    match seen {
        Some(scan) => Some(subdir_scan_model(*scan)),
        None => None,
    }
}

/// The entry of the change set for a subdirectory that exists: its file
/// changes where it is examined, empty ones where it is new and not
/// examined, and none otherwise.
pub fn examine(cached: Option<&Files>, token: Option<Timestamp>, seen: Option<&SubdirScan>) -> (changes:
    Option<FileChanges>)
    ensures
        subdir_change_model(changes) == present_diff(cached_model(cached), token, seen_model(seen)),
{
    match seen {
        Some(subdir) => {
            match &subdir.files {
                Some(listing) => {
                    if cached.is_none() || is_newer(subdir.modified, token) {
                        return Some(file_changes(cached, token, listing));
                    }
                },
                None => {},
            }
        },
        None => {},
    }
    if cached.is_none() {
        let empty: FileChanges = StrMap::new();
        proof {
            lemma_file_changes_insert(Map::empty(), Seq::empty(), None);
        }
        Some(empty)
    } else {
        None
    }
}

/// Enters the entry of a subdirectory that exists into the change set, if
/// it has one.
fn enter(changes: &mut ChangeSet, name: &str, entry: Option<FileChanges>)
    ensures
        changes_model(*final(changes)) == (match subdir_change_model(entry) {
            Some(files) => changes_model(*old(changes)).insert(name@, Some(files)),
            None => changes_model(*old(changes)),
        }),
{
    match entry {
        Some(files) => {
            let ghost inner = changes@;
            let change = Some(files);
            changes.insert(copy_of(name), change);
            proof {
                lemma_changes_insert(inner, name@, change);
            }
        },
        None => {},
    }
}

/// The change set with only the first `done` subdirectories of the cache
/// looked at, and only for whether they are gone.
pub open spec fn diff_gone(scan: ScanModel, names: Seq<Seq<char>>, done: int) -> ChangeSetModel {
    Map::new(
        |name: Seq<char>| names.take(done).contains(name) && !scan.subdirs.contains_key(name),
        |name: Seq<char>| None,
    )
}

/// The change set with the subdirectories that are gone and the first
/// `done` of those that were listed.
pub open spec fn diff_listed(
    cache: CacheModel,
    token: Option<u128>,
    scan: ScanModel,
    names: Seq<Seq<char>>,
    done: int,
) -> ChangeSetModel {
    Map::new(
        |name: Seq<char>|
            if scan.subdirs.contains_key(name) {
                names.take(done).contains(name) && subdir_diff(cache, token, scan, name) is Some
            } else {
                cache.contains_key(name)
            },
        |name: Seq<char>| subdir_diff(cache, token, scan, name)->0,
    )
}

/// The change set with only the first `done` subdirectories of the cache
/// looked at, where the root was not listed.
pub open spec fn diff_carried(
    cache: CacheModel,
    token: Option<u128>,
    scan: ScanModel,
    names: Seq<Seq<char>>,
    done: int,
) -> ChangeSetModel {
    Map::new(
        |name: Seq<char>|
            names.take(done).contains(name) && subdir_diff(cache, token, scan, name) is Some,
        |name: Seq<char>| subdir_diff(cache, token, scan, name)->0,
    )
}

/// The cache and the scan know the names that their maps have.
proof fn lemma_known(cache: Cache, scan: Scan, name: Seq<char>)
    ensures
        cache_model(cache).contains_key(name) == cache@.contains_key(name),
        scan_model(scan).subdirs.contains_key(name) == scan.subdirs@.contains_key(name),
        cache@.contains_key(name) ==> cache_model(cache)[name] == names_model(cache@[name]),
        scan.subdirs@.contains_key(name) ==> scan_model(scan).subdirs[name] == subdir_scan_model(
            scan.subdirs@[name],
        ),
{
}

/// Computes the change set from the prior cache, the time at which the
/// cache was written, and what a scan of the tree observed.
///
/// It fails where the subdirectories had to be listed and the scan has no
/// listing. What the scan holds beyond what the freshness rule asks for
/// is not looked at.
pub fn update_cache(cache: &Cache, cache_as_of: Option<Timestamp>, scan: &Scan) -> (result: Result<
    ChangeSet,
    ScanError,
>)
    ensures
        result is Err <==> root_unreadable(cache_as_of, scan_model(*scan)),
        match result {
            Ok(changes) => changes_model(changes) == diff(
                cache_model(*cache),
                cache_as_of,
                scan_model(*scan),
            ),
            Err(error) => error == ScanError::RootUnreadable,
        },
{
    let ghost old_cache = cache_model(*cache);
    let ghost seen = scan_model(*scan);
    let ghost cached_names = cache.keys();
    let mut changes: ChangeSet = StrMap::new();
    let n = cache.len();
    proof {
        lemma_changes_insert(Map::empty(), Seq::empty(), None);
    }
    if is_newer(scan.root_modified, cache_as_of) {
        if !scan.listed {
            return Err(ScanError::RootUnreadable);
        }
        let mut i: usize = 0;
        proof {
            assert(changes_model(changes) =~= diff_gone(seen, cached_names, 0)) by {
                assert forall|name: Seq<char>| !cached_names.take(0).contains(name) by {
                    assert(cached_names.take(0).len() == 0);
                }
            }
        }
        while i < n
            invariant
                i <= n,
                n == cached_names.len(),
                cached_names == cache.keys(),
                cache.wf(),
                seen == scan_model(*scan),
                changes_model(changes) == diff_gone(seen, cached_names, i as int),
            decreases n - i,
        {
            let name = cache.key(i);
            let ghost inner = changes@;
            let ghost now = changes_model(changes);
            let found = scan.subdirs.contains_key(name.as_str());
            if !found {
                changes.insert(copy_of(name.as_str()), None);
                proof {
                    lemma_changes_insert(inner, name@, None);
                }
            }
            proof {
                lemma_known(*cache, *scan, name@);
                let after = changes_model(changes);
                let next = diff_gone(seen, cached_names, i + 1);
                assert(after == if found {
                    now
                } else {
                    now.insert(name@, None)
                });
                assert forall|other: Seq<char>| after.contains_key(other) == next.contains_key(
                    other,
                ) by {
                    lemma_take_step(cached_names, i as int, other);
                }
                assert(after =~= next);
            }
            i = i + 1;
        }
        let ghost listed_names = scan.subdirs.keys();
        let m = scan.subdirs.len();
        let mut j: usize = 0;
        proof {
            assert(cached_names.take(n as int) =~= cached_names);
            assert forall|name: Seq<char>|
                changes_model(changes).contains_key(name) == diff_listed(
                    old_cache,
                    cache_as_of,
                    seen,
                    listed_names,
                    0,
                ).contains_key(name) by {
                lemma_known(*cache, *scan, name);
                assert(listed_names.take(0).len() == 0);
            }
            assert forall|name: Seq<char>|
                changes_model(changes).contains_key(name) implies changes_model(changes)[name]
                == diff_listed(old_cache, cache_as_of, seen, listed_names, 0)[name] by {
                lemma_known(*cache, *scan, name);
            }
            assert(changes_model(changes) =~= diff_listed(
                old_cache,
                cache_as_of,
                seen,
                listed_names,
                0,
            ));
        }
        while j < m
            invariant
                j <= m,
                m == listed_names.len(),
                listed_names == scan.subdirs.keys(),
                scan.subdirs.wf(),
                newer(scan.root_modified, cache_as_of),
                old_cache == cache_model(*cache),
                seen == scan_model(*scan),
                changes_model(changes) == diff_listed(
                    old_cache,
                    cache_as_of,
                    seen,
                    listed_names,
                    j as int,
                ),
            decreases m - j,
        {
            let name = scan.subdirs.key(j);
            let subdir = scan.subdirs.value(j);
            let ghost now = changes_model(changes);
            let entry = examine(cache.get(name.as_str()), cache_as_of, Some(subdir));
            proof {
                lemma_known(*cache, *scan, name@);
                assert(subdir_change_model(entry) == present_diff(
                    lookup(old_cache, name@),
                    cache_as_of,
                    lookup(seen.subdirs, name@),
                ));
            }
            let ghost added = entry is Some;
            enter(&mut changes, name.as_str(), entry);
            proof {
                let after = changes_model(changes);
                let next = diff_listed(old_cache, cache_as_of, seen, listed_names, j + 1);
                assert(after == if added {
                    now.insert(name@, subdir_diff(old_cache, cache_as_of, seen, name@)->0)
                } else {
                    now
                });
                assert forall|other: Seq<char>| after.contains_key(other) == next.contains_key(
                    other,
                ) by {
                    lemma_take_step(listed_names, j as int, other);
                }
                assert forall|other: Seq<char>| after.contains_key(other) implies after[other]
                    == next[other] by {
                    lemma_take_step(listed_names, j as int, other);
                }
                assert(after =~= next);
            }
            j = j + 1;
        }
        proof {
            assert(listed_names.take(m as int) =~= listed_names);
            assert forall|name: Seq<char>|
                changes_model(changes).contains_key(name) == diff(
                    old_cache,
                    cache_as_of,
                    seen,
                ).contains_key(name) by {
                lemma_known(*cache, *scan, name);
            }
            assert(changes_model(changes) =~= diff(old_cache, cache_as_of, seen));
        }
    } else {
        let mut i: usize = 0;
        proof {
            assert(changes_model(changes) =~= diff_carried(
                old_cache,
                cache_as_of,
                seen,
                cached_names,
                0,
            )) by {
                assert forall|name: Seq<char>| !cached_names.take(0).contains(name) by {
                    assert(cached_names.take(0).len() == 0);
                }
            }
        }
        while i < n
            invariant
                i <= n,
                n == cached_names.len(),
                cached_names == cache.keys(),
                cache.wf(),
                !newer(scan.root_modified, cache_as_of),
                old_cache == cache_model(*cache),
                seen == scan_model(*scan),
                changes_model(changes) == diff_carried(
                    old_cache,
                    cache_as_of,
                    seen,
                    cached_names,
                    i as int,
                ),
            decreases n - i,
        {
            let name = cache.key(i);
            let files = cache.value(i);
            let ghost now = changes_model(changes);
            let entry = examine(Some(files), cache_as_of, scan.subdirs.get(name.as_str()));
            proof {
                lemma_known(*cache, *scan, name@);
                assert(subdir_change_model(entry) == present_diff(
                    lookup(old_cache, name@),
                    cache_as_of,
                    lookup(seen.subdirs, name@),
                ));
            }
            let ghost added = entry is Some;
            enter(&mut changes, name.as_str(), entry);
            proof {
                let after = changes_model(changes);
                let next = diff_carried(old_cache, cache_as_of, seen, cached_names, i + 1);
                assert(after == if added {
                    now.insert(name@, subdir_diff(old_cache, cache_as_of, seen, name@)->0)
                } else {
                    now
                });
                assert forall|other: Seq<char>| after.contains_key(other) == next.contains_key(
                    other,
                ) by {
                    lemma_take_step(cached_names, i as int, other);
                }
                assert forall|other: Seq<char>| after.contains_key(other) implies after[other]
                    == next[other] by {
                    lemma_take_step(cached_names, i as int, other);
                }
                assert(after =~= next);
            }
            i = i + 1;
        }
        proof {
            assert(cached_names.take(n as int) =~= cached_names);
            assert forall|name: Seq<char>|
                changes_model(changes).contains_key(name) == diff(
                    old_cache,
                    cache_as_of,
                    seen,
                ).contains_key(name) by {
                lemma_known(*cache, *scan, name);
            }
            assert(changes_model(changes) =~= diff(old_cache, cache_as_of, seen));
        }
    }
    Ok(changes)
}

} // verus!
