//! Applying a change set to a cache.

use vstd::prelude::*;
use crate::cache::{Cache, CacheModel, ChangeSet, ChangeSetModel, FileChanges, FileChangesModel,
    Files, NamesModel, cache_model, changes_model, copy_of, file_changes_model,
    lemma_cache_insert, lemma_cache_remove, lemma_names_insert, lemma_names_remove,
    lemma_take_step, names_model, file_change_model, subdir_change_model};
use crate::strmap::StrMap;

verus! {

/// The files of a subdirectory after its changes: a file under `Some`
/// has the new fingerprint, one under `None` is gone, any other is as it
/// was.
pub open spec fn applied_files(files: NamesModel, changes: FileChangesModel) -> NamesModel {
    Map::new(
        |file: Seq<char>|
            if changes.contains_key(file) {
                changes[file] is Some
            } else {
                files.contains_key(file)
            },
        |file: Seq<char>|
            if changes.contains_key(file) {
                changes[file]->0
            } else {
                files[file]
            },
    )
}

/// The files that a cache has for a subdirectory; none where it does not
/// know the subdirectory.
pub open spec fn files_in(cache: CacheModel, name: Seq<char>) -> NamesModel {
    if cache.contains_key(name) {
        cache[name]
    } else {
        Map::empty()
    }
}

/// The cache after a change set: a subdirectory under `None` is gone, one
/// under `Some` is there with its file changes applied, any other is as it
/// was.
pub open spec fn merged(cache: CacheModel, changes: ChangeSetModel) -> CacheModel {
    Map::new(
        |name: Seq<char>|
            if changes.contains_key(name) {
                changes[name] is Some
            } else {
                cache.contains_key(name)
            },
        |name: Seq<char>|
            if changes.contains_key(name) {
                applied_files(files_in(cache, name), changes[name]->0)
            } else {
                cache[name]
            },
    )
}

/// The files with only the changes of the first `done` names applied.
pub open spec fn applied_files_so_far(
    files: NamesModel,
    changes: FileChangesModel,
    names: Seq<Seq<char>>,
    done: int,
) -> NamesModel {
    Map::new(
        |file: Seq<char>|
            if names.take(done).contains(file) {
                changes[file] is Some
            } else {
                files.contains_key(file)
            },
        |file: Seq<char>|
            if names.take(done).contains(file) {
                changes[file]->0
            } else {
                files[file]
            },
    )
}

/// The cache with only the changes of the first `done` names applied.
pub open spec fn merged_so_far(
    cache: CacheModel,
    changes: ChangeSetModel,
    names: Seq<Seq<char>>,
    done: int,
) -> CacheModel {
    Map::new(
        |name: Seq<char>|
            if names.take(done).contains(name) {
                changes[name] is Some
            } else {
                cache.contains_key(name)
            },
        |name: Seq<char>|
            if names.take(done).contains(name) {
                applied_files(files_in(cache, name), changes[name]->0)
            } else {
                cache[name]
            },
    )
}

/// Applies the changes of one subdirectory to its files.
pub fn apply_file_changes(files: &mut Files, changes: &FileChanges)
    ensures
        names_model(*final(files)) == applied_files(
            names_model(*old(files)),
            file_changes_model(*changes),
        ),
{
    let ghost before = names_model(*files);
    let ghost model = file_changes_model(*changes);
    let ghost names = changes.keys();
    let n = changes.len();
    let mut i: usize = 0;
    assert(names_model(*files) =~= applied_files_so_far(before, model, names, 0)) by {
        assert forall|file: Seq<char>| !names.take(0).contains(file) by {
            assert(names.take(0).len() == 0);
        }
    }
    while i < n
        invariant
            i <= n,
            n == names.len(),
            names == changes.keys(),
            changes.wf(),
            model == file_changes_model(*changes),
            names_model(*files) == applied_files_so_far(before, model, names, i as int),
        decreases n - i,
    {
        let name = changes.key(i);
        let ghost inner = files@;
        match changes.value(i) {
            Some(hash) => {
                let hash = copy_of(hash.as_str());
                files.insert(copy_of(name.as_str()), hash);
                proof {
                    lemma_names_insert(inner, name@, hash);
                }
            },
            None => {
                files.remove(name.as_str());
                proof {
                    lemma_names_remove(inner, name@);
                }
            },
        }
        proof {
            let prev = applied_files_so_far(before, model, names, i as int);
            assert(model.contains_key(name@));
            assert(model[name@] == file_change_model(changes@[name@]));
            assert(names_model(*files) == if model[name@] is Some {
                prev.insert(name@, model[name@]->0)
            } else {
                prev.remove(name@)
            });
            let next = applied_files_so_far(before, model, names, i + 1);
            let now = names_model(*files);
            assert forall|file: Seq<char>| now.contains_key(file) == next.contains_key(file) by {
                lemma_take_step(names, i as int, file);
            }
            assert forall|file: Seq<char>| now.contains_key(file) implies now[file] == next[file] by {
                lemma_take_step(names, i as int, file);
            }
            assert(now =~= next);
        }
        i = i + 1;
    }
    proof {
        assert(names.take(n as int) =~= names);
        assert(names_model(*files) =~= applied_files(before, model));
    }
}

/// Applies a change set to a cache.
pub fn apply_changes(cache: &mut Cache, changes: &ChangeSet)
    ensures
        cache_model(*final(cache)) == merged(cache_model(*old(cache)), changes_model(*changes)),
{
    let ghost before = cache_model(*cache);
    let ghost model = changes_model(*changes);
    let ghost names = changes.keys();
    let n = changes.len();
    let mut i: usize = 0;
    assert(cache_model(*cache) =~= merged_so_far(before, model, names, 0)) by {
        assert forall|name: Seq<char>| !names.take(0).contains(name) by {
            assert(names.take(0).len() == 0);
        }
    }
    while i < n
        invariant
            i <= n,
            n == names.len(),
            names == changes.keys(),
            changes.wf(),
            model == changes_model(*changes),
            cache_model(*cache) == merged_so_far(before, model, names, i as int),
        decreases n - i,
    {
        let name = changes.key(i);
        let ghost inner = cache@;
        proof {
            assert forall|other: Seq<char>|
                names.take(i + 1).contains(other) <==> names.take(i as int).contains(other)
                    || names[i as int] == other by {
                lemma_take_step(names, i as int, other);
            }
            if names.take(i as int).contains(name@) {
                let j = names.take(i as int).index_of(name@);
                assert(names[j] == names[i as int]);
                crate::order::lemma_name_asymmetric(names[j], names[i as int]);
            }
        }
        match changes.value(i) {
            Some(file_changes) => {
                let mut files = match cache.remove(name.as_str()) {
                    Some(files) => files,
                    None => StrMap::new(),
                };
                proof {
                    lemma_names_remove(Map::empty(), name@);
                    let so_far = merged_so_far(before, model, names, i as int);
                    assert(so_far.contains_key(name@) == inner.contains_key(name@));
                    assert(so_far.contains_key(name@) == before.contains_key(name@));
                    if inner.contains_key(name@) {
                        assert(so_far[name@] == names_model(inner[name@]));
                        assert(so_far[name@] == before[name@]);
                    }
                    assert(names_model(files) == files_in(before, name@));
                }
                apply_file_changes(&mut files, file_changes);
                cache.insert(copy_of(name.as_str()), files);
                proof {
                    lemma_cache_remove(inner, name@);
                    lemma_cache_insert(inner.remove(name@), name@, files);
                }
            },
            None => {
                cache.remove(name.as_str());
                proof {
                    lemma_cache_remove(inner, name@);
                }
            },
        }
        proof {
            assert(model.contains_key(name@));
            assert(model[name@] == subdir_change_model(changes@[name@]));
            assert(cache_model(*cache) =~= merged_so_far(before, model, names, i + 1));
        }
        i = i + 1;
    }
    proof {
        assert(names.take(n as int) =~= names);
        assert(cache_model(*cache) =~= merged(before, model));
    }
}

} // verus!
