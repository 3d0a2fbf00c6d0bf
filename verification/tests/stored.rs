use archive::cache::Cache;
use archive::persist::{
    cache_from_entries, cache_to_entries, files_from_entries, files_to_entries, load_cache,
    open_cache, store_cache,
};
use archive::strmap::StrMap;

fn sample() -> Cache {
    let mut a = StrMap::new();
    a.insert("x".to_string(), "H1".to_string());
    a.insert("y".to_string(), "H2".to_string());
    let mut cache = StrMap::new();
    cache.insert("B".to_string(), StrMap::new());
    cache.insert("A".to_string(), a);
    cache
}

#[test]
fn stored_text_is_json_in_the_order_of_the_names() {
    assert_eq!(
        store_cache(&sample()),
        Some(br#"{"A":{"x":"H1","y":"H2"},"B":{}}"#.to_vec())
    );
    assert_eq!(store_cache(&StrMap::new()), Some(b"{}".to_vec()));
}

#[test]
fn stored_text_is_read_back() {
    let text = store_cache(&sample()).unwrap();
    assert_eq!(load_cache(Some(&text), Some(42)), (sample(), Some(42)));
    assert_eq!(load_cache(Some(&text), None), (sample(), None));
}

#[test]
fn text_in_any_layout_is_read() {
    let text = b" { \"B\" : { } ,\n \"A\" : { \"y\" : \"H2\", \"x\" : \"H1\" } } ";
    assert_eq!(load_cache(Some(text), Some(7)), (sample(), Some(7)));
}

#[test]
fn missing_cache_is_empty_and_has_no_token() {
    assert_eq!(load_cache(None, Some(42)), (StrMap::new(), None));
    assert_eq!(load_cache(None, None), (StrMap::new(), None));
}

#[test]
fn malformed_cache_is_empty_and_has_no_token() {
    for text in [
        &b""[..],
        b"not json",
        b"{\"A\":",
        b"[]",
        b"{\"A\":{\"x\":1}}",
        b"{\"A\":\"x\"}",
        b"{\"A\":{}} trailing",
        b"\xff\xfe",
    ] {
        assert_eq!(load_cache(Some(text), Some(42)), (StrMap::new(), None));
    }
}

#[test]
fn open_cache_keeps_the_token_only_with_a_cache() {
    let entries = vec![("A".to_string(), vec![("x".to_string(), "H1".to_string())])];
    let (cache, token) = open_cache(Some(entries), Some(9));
    assert_eq!(cache.get("A").unwrap().get("x"), Some(&"H1".to_string()));
    assert_eq!(token, Some(9));
    assert_eq!(open_cache(None, Some(9)), (StrMap::new(), None));
}

#[test]
fn later_entries_count() {
    let entries = vec![
        ("x".to_string(), "H1".to_string()),
        ("y".to_string(), "H2".to_string()),
        ("x".to_string(), "H3".to_string()),
    ];
    let files = files_from_entries(&entries);
    assert_eq!(files.len(), 2);
    assert_eq!(files.get("x"), Some(&"H3".to_string()));
    let cache = cache_from_entries(&vec![
        ("A".to_string(), entries),
        ("A".to_string(), vec![("z".to_string(), "H4".to_string())]),
    ]);
    assert_eq!(cache.len(), 1);
    assert_eq!(cache.get("A").unwrap().get("z"), Some(&"H4".to_string()));
    assert_eq!(cache.get("A").unwrap().get("x"), None);
}

#[test]
fn entries_of_a_cache() {
    assert_eq!(
        cache_to_entries(&sample()),
        vec![
            (
                "A".to_string(),
                vec![("x".to_string(), "H1".to_string()), ("y".to_string(), "H2".to_string())]
            ),
            ("B".to_string(), vec![]),
        ]
    );
    assert_eq!(files_to_entries(&StrMap::new()), vec![]);
    assert_eq!(cache_from_entries(&cache_to_entries(&sample())), sample());
}

#[test]
fn names_with_quotes_and_other_scripts() {
    let mut files = StrMap::new();
    files.insert("a\"b\\c".to_string(), "H1".to_string());
    let mut cache: Cache = StrMap::new();
    cache.insert("\u{4e2d}\u{6587}".to_string(), files);
    let text = store_cache(&cache).unwrap();
    assert_eq!(String::from_utf8(text.clone()).unwrap(), "{\"\u{4e2d}\u{6587}\":{\"a\\\"b\\\\c\":\"H1\"}}");
    assert_eq!(load_cache(Some(&text), Some(1)).0, cache);
}
