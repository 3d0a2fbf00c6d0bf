//! What holds of the engine as a whole, stated over the mathematical
//! values of caches, scans and change sets.

use vstd::prelude::*;
use crate::cache::{CacheModel, NamesModel};
use crate::index::{holds, is_index_of};
use crate::merge::{files_in, merged};
use crate::order::{lemma_name_asymmetric, name_before};
use crate::scan::{FileModel, ScanModel, SubdirModel, diff, examined, lookup, newer, present,
    root_unreadable, stale, subdir_diff, to_hash};

verus! {

/// What a tree holds: subdirectory name to file name to the fingerprint of
/// the file's content.
pub type TreeModel = Map<Seq<char>, Map<Seq<char>, Seq<char>>>;

/// Whether the scan took the fingerprint of a file anew: the file was found
/// in a subdirectory that was examined, and the cache had no fresh
/// fingerprint for it.
pub open spec fn rehashed(
    cache: CacheModel,
    token: Option<u128>,
    scan: ScanModel,
    name: Seq<char>,
    file: Seq<char>,
) -> bool {
    &&& examined(lookup(cache, name), token, lookup(scan.subdirs, name))
    &&& scan.subdirs[name].files->0.contains_key(file)
    &&& stale(files_in(cache, name), token, file, scan.subdirs[name].files->0[file].modified)
}

/// Whether a scan shows the tree as far as the freshness rule asks.
///
/// The subdirectories taken to exist are those of the tree. Of one that is
/// examined the listing has the tree's files, each file that had to be
/// hashed with the fingerprint of its content. One that is not examined
/// has the files that the cache knows of it: names did not change where
/// modification times did not.
pub open spec fn shows(cache: CacheModel, token: Option<u128>, scan: ScanModel, tree: TreeModel) -> bool {
    &&& !root_unreadable(token, scan)
    &&& forall|name: Seq<char>| #[trigger]
        tree.contains_key(name) <==> present(cache, token, scan, name)
    &&& forall|name: Seq<char>, file: Seq<char>| #[trigger]
        tree[name].contains_key(file) && tree.contains_key(name) && examined(
            lookup(cache, name),
            token,
            lookup(scan.subdirs, name),
        ) ==> {
            let listing = scan.subdirs[name].files->0;
            &&& listing.contains_key(file)
            &&& rehashed(cache, token, scan, name, file) ==> listing[file].hash == Some(
                tree[name][file],
            )
        }
    &&& forall|name: Seq<char>, file: Seq<char>|
        tree.contains_key(name) && examined(lookup(cache, name), token, lookup(scan.subdirs, name))
            && #[trigger] scan.subdirs[name].files->0.contains_key(file)
            ==> tree[name].contains_key(file)
    &&& forall|name: Seq<char>, file: Seq<char>|
        tree.contains_key(name) && !examined(
            lookup(cache, name),
            token,
            lookup(scan.subdirs, name),
        ) ==> (#[trigger] tree[name].contains_key(file) <==> files_in(cache, name).contains_key(
            file,
        ))
}

/// Whether a cache has the subdirectories and the files of a tree.
pub open spec fn has_names_of(cache: CacheModel, tree: TreeModel) -> bool {
    &&& forall|name: Seq<char>| cache.contains_key(name) <==> tree.contains_key(name)
    &&& forall|name: Seq<char>, file: Seq<char>|
        tree.contains_key(name) ==> (#[trigger] cache[name].contains_key(file)
            <==> tree[name].contains_key(file))
}

/// Whether a cache has the names of a tree, for a file whose fingerprint
/// the scan took anew the fingerprint of its content, and for any other
/// file the fingerprint that `prior` had.
pub open spec fn reproduces(
    cache: CacheModel,
    prior: CacheModel,
    token: Option<u128>,
    scan: ScanModel,
    tree: TreeModel,
) -> bool {
    &&& has_names_of(cache, tree)
    &&& forall|name: Seq<char>, file: Seq<char>|
        tree.contains_key(name) && #[trigger] tree[name].contains_key(file) ==> cache[name][file]
            == if rehashed(prior, token, scan, name, file) {
            tree[name][file]
        } else {
            prior[name][file]
        }
}

/// Completeness. Where the scan shows the tree, the prior cache with the
/// change set merged into it has exactly the subdirectories and files of
/// the tree; a file that is new to the cache or was modified after the
/// token has the fingerprint of its content, and any other file keeps the
/// fingerprint that the cache had.
pub proof fn lemma_merge_reproduces_tree(
    cache: CacheModel,
    token: Option<u128>,
    scan: ScanModel,
    tree: TreeModel,
)
    requires
        shows(cache, token, scan, tree),
    ensures
        reproduces(merged(cache, diff(cache, token, scan)), cache, token, scan, tree),
{
    let changes = diff(cache, token, scan);
    let after = merged(cache, changes);
    assert forall|name: Seq<char>| after.contains_key(name) <==> tree.contains_key(name) by {
        assert(tree.contains_key(name) <==> present(cache, token, scan, name));
    }
    assert forall|name: Seq<char>, file: Seq<char>| tree.contains_key(name) implies (
    #[trigger] after[name].contains_key(file) <==> tree[name].contains_key(file)) && (
    tree[name].contains_key(file) ==> after[name][file] == if rehashed(
        cache,
        token,
        scan,
        name,
        file,
    ) {
        tree[name][file]
    } else {
        cache[name][file]
    }) by {
        assert(tree.contains_key(name) <==> present(cache, token, scan, name));
        if examined(lookup(cache, name), token, lookup(scan.subdirs, name)) {
            let listing = scan.subdirs[name].files->0;
            if tree[name].contains_key(file) {
                assert(listing.contains_key(file));
            }
            if listing.contains_key(file) {
                assert(tree[name].contains_key(file));
            }
        } else {
            assert(tree[name].contains_key(file) <==> files_in(cache, name).contains_key(file));
        }
    }
}

/// A file that was modified after the token is updated. Where a
/// subdirectory is examined and a file found in it was modified after the
/// token and hashed, the change set has the new fingerprint for it,
/// whether or not the cache knew the file, and so has the merged cache.
pub proof fn lemma_modified_file_is_updated(
    cache: CacheModel,
    token: Option<u128>,
    scan: ScanModel,
    name: Seq<char>,
    file: Seq<char>,
    hash: Seq<char>,
)
    requires
        present(cache, token, scan, name),
        examined(lookup(cache, name), token, lookup(scan.subdirs, name)),
        scan.subdirs[name].files->0.contains_key(file),
        newer(scan.subdirs[name].files->0[file].modified, token),
        scan.subdirs[name].files->0[file].hash == Some(hash),
    ensures
        diff(cache, token, scan).contains_key(name),
        diff(cache, token, scan)[name] is Some,
        diff(cache, token, scan)[name]->0.contains_key(file),
        diff(cache, token, scan)[name]->0[file] == Some(hash),
        merged(cache, diff(cache, token, scan)).contains_key(name),
        merged(cache, diff(cache, token, scan))[name].contains_key(file),
        merged(cache, diff(cache, token, scan))[name][file] == hash,
{
}

/// Idempotence. A cache that has the names of a tree is left as it is by
/// the change set of any scan that shows the tree, if the files that the
/// scan hashed again still have the content whose fingerprint the cache
/// holds: whatever entries the change set has change nothing.
pub proof fn lemma_second_scan_changes_nothing(
    cache: CacheModel,
    token: Option<u128>,
    scan: ScanModel,
    tree: TreeModel,
)
    requires
        has_names_of(cache, tree),
        shows(cache, token, scan, tree),
        forall|name: Seq<char>, file: Seq<char>|
            tree.contains_key(name) && #[trigger] tree[name].contains_key(file) && rehashed(
                cache,
                token,
                scan,
                name,
                file,
            ) ==> tree[name][file] == cache[name][file],
    ensures
        merged(cache, diff(cache, token, scan)) == cache,
{
    lemma_merge_reproduces_tree(cache, token, scan, tree);
    let after = merged(cache, diff(cache, token, scan));
    assert forall|name: Seq<char>| after.contains_key(name) implies after[name] =~= cache[name] by {
        assert forall|file: Seq<char>| #[trigger]
            after[name].contains_key(file) implies after[name][file] == cache[name][file] by {
            assert(tree[name].contains_key(file));
        }
        assert forall|file: Seq<char>|
            after[name].contains_key(file) == cache[name].contains_key(file) by {
            assert(after[name].contains_key(file) <==> tree[name].contains_key(file));
            assert(cache[name].contains_key(file) <==> tree[name].contains_key(file));
        }
    }
    assert(after =~= cache);
}

/// Idempotence, over two requests. After a request has merged what its
/// scan showed of a tree, the change set of a second request whose scan
/// shows the same tree changes nothing, if the files that the second scan
/// hashed again still have the content whose fingerprint the cache holds.
pub proof fn lemma_second_request_changes_nothing(
    cache: CacheModel,
    token: Option<u128>,
    scan: ScanModel,
    later_token: Option<u128>,
    later_scan: ScanModel,
    tree: TreeModel,
)
    requires
        shows(cache, token, scan, tree),
        shows(merged(cache, diff(cache, token, scan)), later_token, later_scan, tree),
        forall|name: Seq<char>, file: Seq<char>|
            tree.contains_key(name) && #[trigger] tree[name].contains_key(file) && rehashed(
                merged(cache, diff(cache, token, scan)),
                later_token,
                later_scan,
                name,
                file,
            ) ==> tree[name][file] == merged(cache, diff(cache, token, scan))[name][file],
    ensures
        ({
            let after = merged(cache, diff(cache, token, scan));
            merged(after, diff(after, later_token, later_scan)) == after
        }),
{
    let after = merged(cache, diff(cache, token, scan));
    lemma_merge_reproduces_tree(cache, token, scan, tree);
    lemma_second_scan_changes_nothing(after, later_token, later_scan, tree);
}

/// Idempotence, as to the work. Where the cache has a fresh fingerprint
/// for every file that was found, none is to be hashed.
pub proof fn lemma_fresh_files_are_not_hashed(
    cached: NamesModel,
    token: Option<u128>,
    files: Seq<(Seq<char>, Option<u128>)>,
)
    requires
        forall|i: int|
            0 <= i < files.len() ==> !stale(cached, token, (#[trigger] files[i]).0, files[i].1),
    ensures
        to_hash(cached, token, files) == Seq::<Seq<char>>::empty(),
    decreases files.len(),
{
    if files.len() > 0 {
        lemma_fresh_files_are_not_hashed(cached, token, files.drop_last());
    }
}

/// Idempotence, as to the scan. Where neither the root nor a subdirectory
/// that the scan looked at is newer than the token, the change set is
/// empty, whatever the scan holds.
pub proof fn lemma_nothing_newer_nothing_changed(
    cache: CacheModel,
    token: Option<u128>,
    scan: ScanModel,
)
    requires
        !newer(scan.root_modified, token),
        forall|name: Seq<char>| #[trigger]
            scan.subdirs.contains_key(name) ==> !newer(scan.subdirs[name].modified, token),
    ensures
        diff(cache, token, scan) == Map::<Seq<char>, Option<Map<Seq<char>, Option<Seq<char>>>>>::empty(),
{
    assert forall|name: Seq<char>| !diff(cache, token, scan).contains_key(name) by {
        if scan.subdirs.contains_key(name) {
            assert(!newer(scan.subdirs[name].modified, token));
        }
    }
    assert(diff(cache, token, scan) =~= Map::empty());
}

/// The scan with other files seen in one subdirectory.
pub open spec fn with_files(
    scan: ScanModel,
    name: Seq<char>,
    files: Option<Map<Seq<char>, FileModel>>,
) -> ScanModel {
    ScanModel {
        root_modified: scan.root_modified,
        listed: scan.listed,
        subdirs: scan.subdirs.insert(
            name,
            SubdirModel { modified: scan.subdirs[name].modified, files: files },
        ),
    }
}

/// The freshness shortcut. The files of a subdirectory that the cache
/// knows and that is not newer than the token are not looked at: the
/// change set has no entry for it while it exists, and is the same
/// whatever was found in it.
pub proof fn lemma_fresh_subdirectory_is_not_examined(
    cache: CacheModel,
    token: Option<u128>,
    scan: ScanModel,
    name: Seq<char>,
    files: Option<Map<Seq<char>, FileModel>>,
)
    requires
        cache.contains_key(name),
        scan.subdirs.contains_key(name),
        !newer(scan.subdirs[name].modified, token),
    ensures
        !diff(cache, token, scan).contains_key(name),
        diff(cache, token, with_files(scan, name, files)) == diff(cache, token, scan),
{
    let other = with_files(scan, name, files);
    assert forall|any: Seq<char>|
        subdir_diff(cache, token, other, any) == subdir_diff(cache, token, scan, any) by {
        if any != name {
            assert(lookup(other.subdirs, any) == lookup(scan.subdirs, any));
        }
    }
    assert(diff(cache, token, other) =~= diff(cache, token, scan));
}

/// Deterministic collision resolution. A cache has one inverted index.
pub proof fn lemma_index_is_unique(cache: CacheModel, first: NamesModel, second: NamesModel)
    requires
        is_index_of(first, cache),
        is_index_of(second, cache),
    ensures
        first == second,
{
    assert forall|hash: Seq<char>| first.contains_key(hash) implies first[hash] == second[hash] by {
        assert(second.contains_key(hash));
        assert(holds(cache, first[hash], hash));
        assert(holds(cache, second[hash], hash));
        if first[hash] != second[hash] {
            lemma_name_asymmetric(first[hash], second[hash]);
        }
    }
    assert(first =~= second);
}

/// Deterministic collision resolution, on two subdirectories. Where both
/// hold content with one fingerprint, the index does not answer with the
/// one whose name comes later.
pub proof fn lemma_index_prefers_first_name(
    cache: CacheModel,
    index: NamesModel,
    hash: Seq<char>,
    first: Seq<char>,
    second: Seq<char>,
)
    requires
        is_index_of(index, cache),
        holds(cache, first, hash),
        holds(cache, second, hash),
        name_before(first, second),
    ensures
        index.contains_key(hash),
        index[hash] != second,
        index[hash] == first || name_before(index[hash], first),
{
    if index[hash] == second {
        lemma_name_asymmetric(first, second);
    }
}

} // verus!
