//! The inverted index: from a fingerprint to the subdirectory that holds
//! content with it.
//!
//! Where several subdirectories hold the same content, the index answers
//! with the one whose name comes first in the order of
//! [`name_before`](crate::order::name_before).

use vstd::prelude::*;
use crate::cache::{Cache, CacheModel, Files, Index, NamesModel, cache_model, copy_of,
    lemma_names_insert, names_model};
use crate::order::name_before;
use crate::strmap::lemma_map_of_at;

verus! {

/// Whether a subdirectory of the cache has a file with this fingerprint.
pub open spec fn holds(cache: CacheModel, name: Seq<char>, hash: Seq<char>) -> bool {
    cache.contains_key(name) && cache[name].contains_value(hash)
}

/// What makes `index` the inverted index of `cache`: it knows exactly the
/// fingerprints that occur in the cache, and answers each with the first,
/// in the order of names, of the subdirectories that hold it.
pub open spec fn is_index_of(index: NamesModel, cache: CacheModel) -> bool {
    &&& forall|hash: Seq<char>|
        index.contains_key(hash) <==> exists|name: Seq<char>| holds(cache, name, hash)
    &&& forall|hash: Seq<char>| #[trigger]
        index.contains_key(hash) ==> holds(cache, index[hash], hash)
    &&& forall|hash: Seq<char>, name: Seq<char>| #[trigger]
        holds(cache, name, hash) ==> name == index[hash] || name_before(index[hash], name)
}

/// The index after one more subdirectory: fingerprints that it knew keep
/// their answer, those new with `files` are answered with `name`.
pub open spec fn indexed_with(index: NamesModel, name: Seq<char>, files: NamesModel) -> NamesModel {
    Map::new(
        |hash: Seq<char>| index.contains_key(hash) || files.contains_value(hash),
        |hash: Seq<char>|
            if index.contains_key(hash) {
                index[hash]
            } else {
                name
            },
    )
}

/// Whether one of the first `done` files has this fingerprint.
pub open spec fn among_first(
    files: NamesModel,
    names: Seq<Seq<char>>,
    done: int,
    hash: Seq<char>,
) -> bool {
    exists|at: int| 0 <= at < done && #[trigger] files[names[at]] == hash
}

/// Enters the files of one subdirectory into an index.
pub fn add_to_index(index: &mut Index, name: &str, files: &Files)
    ensures
        names_model(*final(index)) == indexed_with(
            names_model(*old(index)),
            name@,
            names_model(*files),
        ),
{
    let ghost before = names_model(*index);
    let ghost model = names_model(*files);
    let ghost names = files.keys();
    let n = files.len();
    let mut i: usize = 0;
    assert(names_model(*index) =~= Map::new(
        |hash: Seq<char>| before.contains_key(hash) || among_first(model, names, 0, hash),
        |hash: Seq<char>|
            if before.contains_key(hash) {
                before[hash]
            } else {
                name@
            },
    ));
    while i < n
        invariant
            i <= n,
            n == names.len(),
            names == files.keys(),
            files.wf(),
            model == names_model(*files),
            names_model(*index) == Map::new(
                |hash: Seq<char>|
                    before.contains_key(hash) || among_first(model, names, i as int, hash),
                |hash: Seq<char>|
                    if before.contains_key(hash) {
                        before[hash]
                    } else {
                        name@
                    },
            ),
        decreases n - i,
    {
        let hash = files.value(i);
        let ghost inner = index@;
        let ghost now = names_model(*index);
        proof {
            lemma_map_of_at(files.keys(), files.values(), i as int);
            assert(model[names[i as int]] == hash@);
        }
        if !index.contains_key(hash.as_str()) {
            let answer = copy_of(name);
            index.insert(copy_of(hash.as_str()), answer);
            proof {
                lemma_names_insert(inner, hash@, answer);
            }
        }
        proof {
            let next = Map::new(
                |h: Seq<char>| before.contains_key(h) || among_first(model, names, i + 1, h),
                |h: Seq<char>|
                    if before.contains_key(h) {
                        before[h]
                    } else {
                        name@
                    },
            );
            assert(now.contains_key(hash@) == inner.contains_key(hash@));
            assert forall|h: Seq<char>|
                among_first(model, names, i + 1, h) == (among_first(model, names, i as int, h)
                    || h == hash@) by {
                if among_first(model, names, i + 1, h) {
                    let at = choose|at: int| 0 <= at < i + 1 && #[trigger] model[names[at]] == h;
                    if at < i {
                        assert(among_first(model, names, i as int, h));
                    }
                }
                if among_first(model, names, i as int, h) {
                    let at = choose|at: int| 0 <= at < i && #[trigger] model[names[at]] == h;
                    assert(0 <= at < i + 1 && model[names[at]] == h);
                }
                if h == hash@ {
                    assert(0 <= i < i + 1 && model[names[i as int]] == h);
                }
            }
            assert(names_model(*index) =~= next);
        }
        i = i + 1;
    }
    proof {
        assert forall|h: Seq<char>| among_first(model, names, n as int, h) == model.contains_value(
            h,
        ) by {
            if among_first(model, names, n as int, h) {
                let at = choose|at: int| 0 <= at < n && #[trigger] model[names[at]] == h;
                lemma_map_of_at(files.keys(), files.values(), at);
                assert(model.contains_key(names[at]));
            }
            if model.contains_value(h) {
                let file = choose|file: Seq<char>| model.contains_key(file) && model[file] == h;
                let at = names.index_of(file);
                assert(0 <= at < n && model[names[at]] == h);
            }
        }
        assert(names_model(*index) =~= indexed_with(before, name@, model));
    }
}

/// What holds of the index while the cache is walked: it covers the first
/// `done` subdirectories, each fingerprint answered by the first of them
/// that holds it.
pub open spec fn indexes_first(
    index: NamesModel,
    cache: CacheModel,
    names: Seq<Seq<char>>,
    done: int,
) -> bool {
    &&& forall|hash: Seq<char>| #[trigger]
        index.contains_key(hash) ==> exists|at: int|
            0 <= at < done && index[hash] == names[at] && #[trigger] holds(cache, names[at], hash)
    &&& forall|hash: Seq<char>, at: int|
        0 <= at < done && #[trigger] holds(cache, names[at], hash) ==> index.contains_key(hash)
            && (index[hash] == names[at] || name_before(index[hash], names[at]))
}

/// The inverted index of a cache.
pub fn build_index(cache: &Cache) -> (index: Index)
    ensures
        is_index_of(names_model(index), cache_model(*cache)),
{
    let ghost model = cache_model(*cache);
    let ghost names = cache.keys();
    let mut index: Index = Index::new();
    let n = cache.len();
    let mut i: usize = 0;
    assert(names_model(index) =~= Map::empty());
    while i < n
        invariant
            i <= n,
            n == names.len(),
            names == cache.keys(),
            cache.wf(),
            model == cache_model(*cache),
            indexes_first(names_model(index), model, names, i as int),
        decreases n - i,
    {
        let name = cache.key(i);
        let files = cache.value(i);
        let ghost before = names_model(index);
        add_to_index(&mut index, name.as_str(), files);
        proof {
            let after = names_model(index);
            assert(model.contains_key(name@) && model[name@] == names_model(*files));
            assert forall|hash: Seq<char>| #[trigger] after.contains_key(hash) implies exists|
                at: int,
            |
                0 <= at < i + 1 && after[hash] == names[at] && #[trigger] holds(
                    model,
                    names[at],
                    hash,
                ) by {
                if before.contains_key(hash) {
                    let at = choose|at: int|
                        0 <= at < i && before[hash] == names[at] && #[trigger] holds(
                            model,
                            names[at],
                            hash,
                        );
                    assert(0 <= at < i + 1 && after[hash] == names[at] && holds(
                        model,
                        names[at],
                        hash,
                    ));
                } else {
                    assert(holds(model, names[i as int], hash));
                }
            }
            assert forall|hash: Seq<char>, at: int|
                0 <= at < i + 1 && #[trigger] holds(model, names[at], hash) implies after.contains_key(
                hash,
            ) && (after[hash] == names[at] || name_before(after[hash], names[at])) by {
                if at == i && before.contains_key(hash) {
                    let first = choose|first: int|
                        0 <= first < i && before[hash] == names[first] && #[trigger] holds(
                            model,
                            names[first],
                            hash,
                        );
                    assert(name_before(names[first], names[at]));
                }
            }
        }
        i = i + 1;
    }
    proof {
        let result = names_model(index);
        assert forall|hash: Seq<char>|
            result.contains_key(hash) <==> exists|name: Seq<char>| holds(model, name, hash) by {
            if result.contains_key(hash) {
                let at = choose|at: int|
                    0 <= at < n && result[hash] == names[at] && #[trigger] holds(
                        model,
                        names[at],
                        hash,
                    );
                assert(holds(model, names[at], hash));
            }
            if exists|name: Seq<char>| holds(model, name, hash) {
                let name = choose|name: Seq<char>| holds(model, name, hash);
                let at = names.index_of(name);
                assert(holds(model, names[at], hash));
            }
        }
        assert forall|hash: Seq<char>, name: Seq<char>| #[trigger]
            holds(model, name, hash) implies name == result[hash] || name_before(
            result[hash],
            name,
        ) by {
            let at = names.index_of(name);
            assert(holds(model, names[at], hash));
        }
    }
    index
}

} // verus!
