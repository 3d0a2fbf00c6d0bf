//! The data of the cache, and what each piece of it stands for.
//!
//! A cache maps a subdirectory's name to its files and each file's name to
//! the fingerprint of its content. A change set is sparse and has three
//! states at both levels: a name that is absent stands for "unchanged", a
//! name under `None` for "removed", a name under `Some` for "added or
//! updated".

use vstd::prelude::*;
use crate::strmap::StrMap;

verus! {

/// The files of one subdirectory: file name to fingerprint.
pub type Files = StrMap<String>;

/// Subdirectory name to files.
pub type Cache = StrMap<StrMap<String>>;

/// What happened to the files of one subdirectory.
pub type FileChanges = StrMap<Option<String>>;

/// What happened to the subdirectories.
pub type ChangeSet = StrMap<Option<StrMap<Option<String>>>>;

/// Fingerprint to the name of a subdirectory that holds such content.
pub type Index = StrMap<String>;

/// The mathematical value of [`Files`] and of [`Index`].
pub type NamesModel = Map<Seq<char>, Seq<char>>;

/// The mathematical value of a [`Cache`].
pub type CacheModel = Map<Seq<char>, Map<Seq<char>, Seq<char>>>;

/// The mathematical value of [`FileChanges`].
pub type FileChangesModel = Map<Seq<char>, Option<Seq<char>>>;

/// The mathematical value of a [`ChangeSet`].
pub type ChangeSetModel = Map<Seq<char>, Option<Map<Seq<char>, Option<Seq<char>>>>>;

/// Fingerprints and names taken as text.
pub open spec fn names_of(names: Map<Seq<char>, String>) -> NamesModel {
    names.map_values(|text: String| text@)
}

/// What a map of names to texts stands for.
pub open spec fn names_model(names: StrMap<String>) -> NamesModel {
    names_of(names@)
}

/// A cache as a map, each subdirectory with what its files stand for.
pub open spec fn cache_of(cache: Map<Seq<char>, StrMap<String>>) -> CacheModel {
    cache.map_values(|files: StrMap<String>| names_model(files))
}

/// What a cache stands for.
pub open spec fn cache_model(cache: Cache) -> CacheModel {
    cache_of(cache@)
}

/// What the change of one file stands for.
pub open spec fn file_change_model(change: Option<String>) -> Option<Seq<char>> {
    match change {
        Some(hash) => Some(hash@),
        None => None,
    }
}

/// File changes as a map, each change with what it stands for.
pub open spec fn file_changes_of(changes: Map<Seq<char>, Option<String>>) -> FileChangesModel {
    changes.map_values(|change: Option<String>| file_change_model(change))
}

/// What the changes of the files of one subdirectory stand for.
pub open spec fn file_changes_model(changes: FileChanges) -> FileChangesModel {
    file_changes_of(changes@)
}

/// What the change of one subdirectory stands for.
pub open spec fn subdir_change_model(change: Option<FileChanges>) -> Option<FileChangesModel> {
    match change {
        Some(files) => Some(file_changes_model(files)),
        None => None,
    }
}

/// A change set as a map, each change with what it stands for.
pub open spec fn changes_of(
    changes: Map<Seq<char>, Option<StrMap<Option<String>>>>,
) -> ChangeSetModel {
    changes.map_values(|change: Option<FileChanges>| subdir_change_model(change))
}

/// What a change set stands for.
pub open spec fn changes_model(changes: ChangeSet) -> ChangeSetModel {
    changes_of(changes@)
}

/// Taking the model commutes with an insertion.
pub proof fn lemma_names_insert(names: Map<Seq<char>, String>, key: Seq<char>, text: String)
    ensures
        names_of(names.insert(key, text)) == names_of(names).insert(key, text@),
{
    assert(names_of(names.insert(key, text)) =~= names_of(names).insert(key, text@));
}

/// Taking the model commutes with a removal, and the empty map stands for
/// the empty map.
pub proof fn lemma_names_remove(names: Map<Seq<char>, String>, key: Seq<char>)
    ensures
        names_of(names.remove(key)) == names_of(names).remove(key),
        names_of(Map::empty()) == Map::<Seq<char>, Seq<char>>::empty(),
{
    assert(names_of(names.remove(key)) =~= names_of(names).remove(key));
    assert(names_of(Map::empty()) =~= Map::<Seq<char>, Seq<char>>::empty());
}

/// For a cache, taking the model commutes with an insertion.
pub proof fn lemma_cache_insert(
    cache: Map<Seq<char>, StrMap<String>>,
    key: Seq<char>,
    files: StrMap<String>,
)
    ensures
        cache_of(cache.insert(key, files)) == cache_of(cache).insert(key, names_model(files)),
{
    assert(cache_of(cache.insert(key, files)) =~= cache_of(cache).insert(key, names_model(files)));
}

/// For a cache, taking the model commutes with a removal, and the empty
/// map stands for the empty cache.
pub proof fn lemma_cache_remove(cache: Map<Seq<char>, StrMap<String>>, key: Seq<char>)
    ensures
        cache_of(cache.remove(key)) == cache_of(cache).remove(key),
        cache_of(Map::empty()) == Map::<Seq<char>, NamesModel>::empty(),
{
    assert(cache_of(cache.remove(key)) =~= cache_of(cache).remove(key));
    assert(cache_of(Map::empty()) =~= Map::<Seq<char>, NamesModel>::empty());
}

/// For file changes, taking the model commutes with an insertion, and the
/// empty map stands for no changes.
pub proof fn lemma_file_changes_insert(
    changes: Map<Seq<char>, Option<String>>,
    key: Seq<char>,
    change: Option<String>,
)
    ensures
        file_changes_of(changes.insert(key, change)) == file_changes_of(changes).insert(
            key,
            file_change_model(change),
        ),
        file_changes_of(Map::empty()) == Map::<Seq<char>, Option<Seq<char>>>::empty(),
{
    assert(file_changes_of(changes.insert(key, change)) =~= file_changes_of(changes).insert(
        key,
        file_change_model(change),
    ));
    assert(file_changes_of(Map::empty()) =~= Map::<Seq<char>, Option<Seq<char>>>::empty());
}

/// For a change set, taking the model commutes with an insertion, and the
/// empty map stands for the empty change set.
pub proof fn lemma_changes_insert(
    changes: Map<Seq<char>, Option<StrMap<Option<String>>>>,
    key: Seq<char>,
    change: Option<StrMap<Option<String>>>,
)
    ensures
        changes_of(changes.insert(key, change)) == changes_of(changes).insert(
            key,
            subdir_change_model(change),
        ),
        changes_of(Map::empty()) == Map::<Seq<char>, Option<FileChangesModel>>::empty(),
{
    assert(changes_of(changes.insert(key, change)) =~= changes_of(changes).insert(
        key,
        subdir_change_model(change),
    ));
    assert(changes_of(Map::empty()) =~= Map::<Seq<char>, Option<FileChangesModel>>::empty());
}

/// Among the first `i + 1` items are the first `i` and the one at `i`.
pub proof fn lemma_take_step<A>(s: Seq<A>, i: int, x: A)
    requires
        0 <= i < s.len(),
    ensures
        s.take(i + 1).contains(x) <==> s.take(i).contains(x) || s[i] == x,
        s.take(s.len() as int) == s,
        !s.take(0).contains(x),
{
    assert(s.take(s.len() as int) =~= s);
    if s.take(i + 1).contains(x) {
        let j = s.take(i + 1).index_of(x);
        if j < i {
            assert(s.take(i)[j] == x);
        }
    }
    if s.take(i).contains(x) {
        let j = s.take(i).index_of(x);
        assert(s.take(i + 1)[j] == x);
    }
    if s[i] == x {
        assert(s.take(i + 1)[i] == x);
    }
}

/// A copy of a name.
pub fn copy_of(text: &str) -> (copy: String)
    ensures
        copy@ == text@,
{
    text.to_owned()
}

} // verus!
