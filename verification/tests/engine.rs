use archive::cache::{Cache, ChangeSet, FileChanges, Files, Index};
use archive::engine::hash_files;
use archive::hash::base64_hash;
use archive::index::build_index;
use archive::merge::{apply_changes, apply_file_changes};
use archive::scan::{
    examine, file_changes, files_to_hash, is_newer, needs_examination, update_cache, FileScan,
    Listing, Scan, ScanError, SubdirScan,
};
use archive::strmap::StrMap;

type Seen<'a> = (&'a str, Option<u128>, Option<&'a str>);

fn files(entries: &[(&str, &str)]) -> Files {
    let mut files = StrMap::new();
    for (file, hash) in entries {
        files.insert(file.to_string(), hash.to_string());
    }
    files
}

fn cache(entries: &[(&str, &[(&str, &str)])]) -> Cache {
    let mut cache = StrMap::new();
    for (name, of_name) in entries {
        cache.insert(name.to_string(), files(of_name));
    }
    cache
}

fn listing(entries: &[Seen]) -> Listing {
    let mut listing = StrMap::new();
    for (file, modified, hash) in entries {
        listing.insert(
            file.to_string(),
            FileScan { modified: *modified, hash: hash.map(|hash| hash.to_string()) },
        );
    }
    listing
}

fn file_delta(entries: &[(&str, Option<&str>)]) -> FileChanges {
    let mut changes = StrMap::new();
    for (file, hash) in entries {
        changes.insert(file.to_string(), hash.map(|hash| hash.to_string()));
    }
    changes
}

fn subdir(modified: Option<u128>, entries: Option<&[Seen]>) -> SubdirScan {
    SubdirScan { modified, files: entries.map(listing) }
}

fn scan(root_modified: Option<u128>, listed: bool, subdirs: Vec<(&str, SubdirScan)>) -> Scan {
    let mut seen = StrMap::new();
    for (name, subdir) in subdirs {
        seen.insert(name.to_string(), subdir);
    }
    Scan { root_modified, listed, subdirs: seen }
}

fn changes(entries: Vec<(&str, Option<Vec<(&str, Option<&str>)>>)>) -> ChangeSet {
    let mut changes = StrMap::new();
    for (name, change) in entries {
        changes.insert(name.to_string(), change.map(|files| file_delta(&files)));
    }
    changes
}

fn found(entries: &[(&str, Option<u128>)]) -> Vec<(String, Option<u128>)> {
    entries.iter().map(|(file, modified)| (file.to_string(), *modified)).collect()
}

#[test]
fn newer_without_a_token_or_a_time() {
    assert!(is_newer(Some(1), None));
    assert!(is_newer(None, Some(1)));
    assert!(is_newer(None, None));
}

#[test]
fn newer_only_when_strictly_later() {
    assert!(is_newer(Some(11), Some(10)));
    assert!(!is_newer(Some(10), Some(10)));
    assert!(!is_newer(Some(9), Some(10)));
}

#[test]
fn examination_of_new_and_of_modified_subdirectories() {
    let prior = cache(&[("A", &[("x", "H1")])]);
    assert!(needs_examination(&prior, Some(10), "B", Some(1)));
    assert!(needs_examination(&prior, Some(10), "A", Some(11)));
    assert!(needs_examination(&prior, Some(10), "A", None));
    assert!(!needs_examination(&prior, Some(10), "A", Some(10)));
}

#[test]
fn unknown_and_modified_files_are_hashed() {
    let prior = cache(&[("A", &[("x", "H1"), ("z", "H3"), ("v", "H5")])]);
    let seen = found(&[
        ("z", Some(10)),
        ("y", Some(3)),
        ("x", Some(11)),
        ("w", Some(12)),
        ("v", None),
    ]);
    assert_eq!(
        files_to_hash(&prior, Some(10), "A", &seen),
        vec!["y".to_string(), "x".to_string(), "w".to_string(), "v".to_string()]
    );
    assert_eq!(
        files_to_hash(&prior, Some(10), "B", &seen),
        vec!["z".to_string(), "y".to_string(), "x".to_string(), "w".to_string(), "v".to_string()]
    );
}

#[test]
fn fresh_files_are_not_hashed() {
    let prior = cache(&[("A", &[("x", "H1"), ("z", "H3")])]);
    let seen = found(&[("x", Some(10)), ("z", Some(2))]);
    assert_eq!(files_to_hash(&prior, Some(10), "A", &seen), Vec::<String>::new());
    assert_eq!(files_to_hash(&prior, Some(10), "A", &Vec::new()), Vec::<String>::new());
}

#[test]
fn without_a_token_every_file_is_hashed() {
    let prior = cache(&[("A", &[("x", "H1"), ("z", "H3")])]);
    let seen = found(&[("x", Some(1)), ("z", Some(2))]);
    assert_eq!(
        files_to_hash(&prior, None, "A", &seen),
        vec!["x".to_string(), "z".to_string()]
    );
}

#[test]
fn file_changes_add_update_and_remove() {
    let cached = files(&[("x", "H1"), ("gone", "H2"), ("edited", "H4")]);
    let seen = listing(&[
        ("x", Some(5), None),
        ("y", Some(5), Some("H3")),
        ("edited", Some(11), Some("H5")),
        ("broken", Some(11), None),
    ]);
    assert_eq!(
        file_changes(Some(&cached), Some(10), &seen),
        file_delta(&[("y", Some("H3")), ("edited", Some("H5")), ("gone", None)])
    );
}

#[test]
fn modified_cached_file_is_updated() {
    let cached = files(&[("x", "H1")]);
    let rewritten = listing(&[("x", Some(11), Some("NEW"))]);
    assert_eq!(
        file_changes(Some(&cached), Some(10), &rewritten),
        file_delta(&[("x", Some("NEW"))])
    );
    assert_eq!(
        file_changes(Some(&cached), None, &listing(&[("x", Some(1), Some("NEW"))])),
        file_delta(&[("x", Some("NEW"))])
    );
    assert_eq!(
        file_changes(Some(&cached), Some(10), &listing(&[("x", None, Some("NEW"))])),
        file_delta(&[("x", Some("NEW"))])
    );
}

#[test]
fn fresh_cached_file_is_left_alone_whatever_was_hashed() {
    let cached = files(&[("x", "H1")]);
    let seen = listing(&[("x", Some(10), Some("OTHER"))]);
    assert_eq!(file_changes(Some(&cached), Some(10), &seen), StrMap::new());
}

#[test]
fn modified_cached_file_that_cannot_be_read_keeps_its_fingerprint() {
    let cached = files(&[("x", "H1")]);
    let seen = listing(&[("x", Some(11), None)]);
    assert_eq!(file_changes(Some(&cached), Some(10), &seen), StrMap::new());
}

#[test]
fn examine_a_new_subdirectory_that_cannot_be_listed() {
    let unreadable = subdir(Some(20), None);
    assert_eq!(examine(None, Some(10), Some(&unreadable)), Some(StrMap::new()));
    let cached = files(&[("x", "H1")]);
    assert_eq!(examine(Some(&cached), Some(10), Some(&unreadable)), None);
    assert_eq!(examine(Some(&cached), Some(10), None), None);
}

#[test]
fn first_scan_of_one_file() {
    let hash = base64_hash(b"hi");
    let seen = scan(
        None,
        true,
        vec![("A", subdir(Some(5), Some(&[("x", Some(4), Some(hash.as_str()))])))],
    );
    let outcome = hash_files(StrMap::new(), None, &seen).unwrap();
    let mut expected_index: Index = StrMap::new();
    expected_index.insert(hash.clone(), "A".to_string());
    assert_eq!(outcome.index, expected_index);
    assert_eq!(outcome.cache, cache(&[("A", &[("x", hash.as_str())])]));
    assert_eq!(
        outcome.stored,
        Some(format!("{{\"A\":{{\"x\":\"{}\"}}}}", hash).into_bytes())
    );
    assert_eq!(hash, "SfaKXIST7CwL9ImCHCH8Ow==");
}

#[test]
fn file_added_to_a_known_subdirectory() {
    let prior = cache(&[("A", &[("x", "H1")])]);
    let hash = base64_hash(b"y");
    let seen = scan(
        Some(5),
        false,
        vec![(
            "A",
            subdir(Some(11), Some(&[("x", Some(3), None), ("y", Some(11), Some(hash.as_str()))])),
        )],
    );
    let result = update_cache(&prior, Some(10), &seen).unwrap();
    assert_eq!(result, changes(vec![("A", Some(vec![("y", Some(hash.as_str()))]))]));
    assert_eq!(result.get("A").unwrap().as_ref().unwrap().get("x"), None);
}

#[test]
fn file_rewritten_in_a_known_subdirectory() {
    let mut prior = cache(&[("A", &[("x", "H1")])]);
    let hash = base64_hash(b"other content");
    assert_ne!(hash, "H1");
    let seen = scan(
        Some(5),
        false,
        vec![("A", subdir(Some(12), Some(&[("x", Some(12), Some(hash.as_str()))])))],
    );
    let result = update_cache(&prior, Some(10), &seen).unwrap();
    assert_eq!(result, changes(vec![("A", Some(vec![("x", Some(hash.as_str()))]))]));
    apply_changes(&mut prior, &result);
    assert_eq!(prior, cache(&[("A", &[("x", hash.as_str())])]));
    let without_token = update_cache(&cache(&[("A", &[("x", "H1")])]), None, &scan(
        Some(5),
        true,
        vec![("A", subdir(Some(1), Some(&[("x", Some(1), Some(hash.as_str()))])))],
    ));
    assert_eq!(
        without_token,
        Ok(changes(vec![("A", Some(vec![("x", Some(hash.as_str()))]))]))
    );
}

#[test]
fn deleted_subdirectory_leaves_cache_and_index() {
    let mut prior = cache(&[("A", &[("x", "H1")]), ("B", &[("y", "H2")])]);
    let seen = scan(Some(11), true, vec![("A", subdir(Some(5), None))]);
    let result = update_cache(&prior, Some(10), &seen).unwrap();
    assert_eq!(result, changes(vec![("B", None)]));
    apply_changes(&mut prior, &result);
    assert!(!prior.contains_key("B"));
    assert_eq!(prior, cache(&[("A", &[("x", "H1")])]));
    let index = build_index(&prior);
    assert_eq!(index.get("H2"), None);
    assert_eq!(index.get("H1"), Some(&"A".to_string()));
}

#[test]
fn unreadable_root_is_an_error() {
    let prior = cache(&[("A", &[("x", "H1")])]);
    let unlisted = scan(Some(11), false, vec![]);
    assert_eq!(update_cache(&prior, Some(10), &unlisted), Err(ScanError::RootUnreadable));
    assert_eq!(update_cache(&prior, None, &unlisted), Err(ScanError::RootUnreadable));
    let unreadable = scan(None, false, vec![]);
    assert_eq!(update_cache(&prior, Some(10), &unreadable), Err(ScanError::RootUnreadable));
    assert_eq!(hash_files(prior, Some(10), &unreadable), Err(ScanError::RootUnreadable));
    assert_eq!(ScanError::RootUnreadable.message(), "the directory could not be read");
}

#[test]
fn root_that_is_not_newer_is_not_listed() {
    let prior = cache(&[("A", &[("x", "H1")])]);
    let seen = scan(
        Some(10),
        true,
        vec![
            ("NEW", subdir(Some(20), Some(&[("n", Some(20), Some("H9"))]))),
            ("A", subdir(Some(3), None)),
        ],
    );
    assert_eq!(update_cache(&prior, Some(10), &seen), Ok(StrMap::new()));
    let unlisted = scan(Some(10), false, vec![]);
    assert_eq!(update_cache(&prior, Some(10), &unlisted), Ok(StrMap::new()));
}

#[test]
fn added_subdirectory_is_examined_whatever_its_time() {
    let prior = cache(&[]);
    let seen = scan(
        Some(11),
        true,
        vec![("A", subdir(Some(1), Some(&[("x", Some(1), Some("H1"))])))],
    );
    let result = update_cache(&prior, Some(10), &seen).unwrap();
    assert_eq!(result, changes(vec![("A", Some(vec![("x", Some("H1"))]))]));
}

#[test]
fn added_empty_subdirectory_has_empty_changes() {
    let prior = cache(&[]);
    let seen = scan(None, true, vec![("A", subdir(Some(1), Some(&[])))]);
    let result = update_cache(&prior, None, &seen).unwrap();
    assert_eq!(result, changes(vec![("A", Some(vec![]))]));
}

#[test]
fn freshness_shortcut_skips_the_files() {
    let prior = cache(&[("A", &[("x", "H1")])]);
    let seen = scan(
        Some(11),
        true,
        vec![(
            "A",
            subdir(Some(10), Some(&[("x", Some(12), Some("CHANGED")), ("y", Some(12), Some("H2"))])),
        )],
    );
    assert_eq!(update_cache(&prior, Some(10), &seen), Ok(StrMap::new()));
    assert!(!needs_examination(&prior, Some(10), "A", Some(10)));
}

#[test]
fn dirty_subdirectory_without_changes_has_empty_changes() {
    let prior = cache(&[("A", &[("x", "H1")])]);
    let seen = scan(Some(1), false, vec![("A", subdir(Some(11), Some(&[("x", Some(2), None)])))]);
    let result = update_cache(&prior, Some(10), &seen).unwrap();
    assert_eq!(result, changes(vec![("A", Some(vec![]))]));
}

#[test]
fn unreadable_file_is_left_out() {
    let prior = cache(&[("A", &[("x", "H1")])]);
    let seen = scan(
        Some(1),
        false,
        vec![(
            "A",
            subdir(
                Some(11),
                Some(&[("x", Some(2), None), ("raced", Some(11), None), ("y", Some(11), Some("H2"))]),
            ),
        )],
    );
    let result = update_cache(&prior, Some(10), &seen).unwrap();
    assert_eq!(result, changes(vec![("A", Some(vec![("y", Some("H2"))]))]));
}

#[test]
fn merge_applies_all_three_states() {
    let mut prior = cache(&[("A", &[("x", "H1"), ("old", "H0")]), ("B", &[("y", "H2")])]);
    let delta = changes(vec![
        ("A", Some(vec![("old", None), ("new", Some("H3")), ("x", Some("H1b"))])),
        ("B", None),
        ("C", Some(vec![("z", Some("H4")), ("never", None)])),
        ("D", None),
    ]);
    apply_changes(&mut prior, &delta);
    assert_eq!(
        prior,
        cache(&[("A", &[("x", "H1b"), ("new", "H3")]), ("C", &[("z", "H4")])])
    );
}

#[test]
fn merge_of_file_changes() {
    let mut cached = files(&[("x", "H1"), ("y", "H2")]);
    apply_file_changes(&mut cached, &file_delta(&[("y", None), ("z", Some("H3"))]));
    assert_eq!(cached, files(&[("x", "H1"), ("z", "H3")]));
}

#[test]
fn merge_of_nothing_changes_nothing() {
    let mut prior = cache(&[("A", &[("x", "H1")])]);
    apply_changes(&mut prior, &StrMap::new());
    assert_eq!(prior, cache(&[("A", &[("x", "H1")])]));
}

#[test]
fn index_takes_the_first_name_on_a_collision() {
    let both = cache(&[
        ("zebra", &[("a", "SAME"), ("b", "ONLY_Z")]),
        ("apple", &[("c", "SAME")]),
        ("mango", &[("d", "SAME"), ("e", "ONLY_M")]),
    ]);
    let index = build_index(&both);
    assert_eq!(index.get("SAME"), Some(&"apple".to_string()));
    assert_eq!(index.get("ONLY_Z"), Some(&"zebra".to_string()));
    assert_eq!(index.get("ONLY_M"), Some(&"mango".to_string()));
    assert_eq!(index.len(), 3);
    assert_eq!(build_index(&both), index);
}

#[test]
fn index_of_an_empty_cache_is_empty() {
    assert_eq!(build_index(&StrMap::new()), StrMap::new());
    assert_eq!(build_index(&cache(&[("A", &[])])), StrMap::new());
}

#[test]
fn second_scan_of_an_unchanged_tree_changes_nothing() {
    let first = scan(
        None,
        true,
        vec![
            ("A", subdir(Some(5), Some(&[("x", Some(4), Some("H1")), ("y", Some(5), Some("H2"))]))),
            ("B", subdir(Some(6), Some(&[]))),
        ],
    );
    let outcome = hash_files(StrMap::new(), None, &first).unwrap();
    assert_eq!(outcome.cache, cache(&[("A", &[("x", "H1"), ("y", "H2")]), ("B", &[])]));
    let seen = found(&[("x", Some(4)), ("y", Some(5))]);
    assert_eq!(files_to_hash(&outcome.cache, Some(7), "A", &seen), Vec::<String>::new());
    let second = scan(Some(6), false, vec![("A", subdir(Some(5), None)), ("B", subdir(Some(6), None))]);
    assert_eq!(update_cache(&outcome.cache, Some(7), &second), Ok(StrMap::new()));
    let eager = scan(
        Some(8),
        true,
        vec![
            ("A", subdir(Some(8), Some(&[("x", Some(4), None), ("y", Some(5), None)]))),
            ("B", subdir(Some(8), Some(&[]))),
        ],
    );
    let again = hash_files(outcome.cache.clone(), Some(7), &eager).unwrap();
    assert_eq!(again.cache, outcome.cache);
    assert_eq!(again.index, outcome.index);
}

#[test]
fn merge_of_the_diff_reproduces_the_tree() {
    let prior = cache(&[
        ("keep", &[("a", "H1")]),
        ("edit", &[("b", "H2"), ("c", "H3"), ("g", "H7")]),
        ("drop", &[("d", "H4")]),
    ]);
    let seen = scan(
        Some(20),
        true,
        vec![
            ("keep", subdir(Some(3), None)),
            (
                "edit",
                subdir(
                    Some(15),
                    Some(&[
                        ("b", Some(2), None),
                        ("e", Some(15), Some("H5")),
                        ("g", Some(14), Some("H8")),
                    ]),
                ),
            ),
            ("add", subdir(Some(16), Some(&[("f", Some(1), Some("H6"))]))),
        ],
    );
    let outcome = hash_files(prior, Some(10), &seen).unwrap();
    assert_eq!(
        outcome.cache,
        cache(&[
            ("keep", &[("a", "H1")]),
            ("edit", &[("b", "H2"), ("e", "H5"), ("g", "H8")]),
            ("add", &[("f", "H6")]),
        ])
    );
}

#[test]
fn known_subdirectory_that_cannot_be_read_is_left_alone() {
    let prior = cache(&[("A", &[("x", "H1")]), ("B", &[("y", "H2")])]);
    let carried = scan(Some(1), false, vec![("A", subdir(None, None))]);
    assert_eq!(update_cache(&prior, Some(10), &carried), Ok(StrMap::new()));
    let listed = scan(Some(11), true, vec![("A", subdir(None, None)), ("B", subdir(Some(12), None))]);
    assert_eq!(update_cache(&prior, Some(10), &listed), Ok(StrMap::new()));
}

#[test]
fn without_a_token_everything_is_examined() {
    let prior = cache(&[("A", &[("x", "H1")])]);
    let seen = scan(
        Some(1),
        true,
        vec![
            ("A", subdir(Some(1), Some(&[("x", Some(1), Some("H1n")), ("y", Some(1), Some("H2"))]))),
            ("B", subdir(Some(1), Some(&[("z", Some(1), Some("H3"))]))),
        ],
    );
    let result = update_cache(&prior, None, &seen).unwrap();
    assert_eq!(
        result,
        changes(vec![
            ("A", Some(vec![("x", Some("H1n")), ("y", Some("H2"))])),
            ("B", Some(vec![("z", Some("H3"))])),
        ])
    );
}
