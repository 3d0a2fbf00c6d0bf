use archive::hash::{base64_hash, ContentHasher};

#[test]
fn hash_of_nothing() {
    assert_eq!(base64_hash(b""), "1B2M2Y8AsgTpgAmY7PhCfg==");
    assert_eq!(ContentHasher::new().finish(), "1B2M2Y8AsgTpgAmY7PhCfg==");
}

#[test]
fn hash_of_known_content() {
    assert_eq!(base64_hash(b"hi"), "SfaKXIST7CwL9ImCHCH8Ow==");
    assert_eq!(base64_hash(b"hello world"), "XrY7u+Ae7tCTyyK7j1rNww==");
}

#[test]
fn hash_tells_contents_apart() {
    assert_ne!(base64_hash(b"hi"), base64_hash(b"ih"));
    assert_ne!(base64_hash(b"hi"), base64_hash(b""));
}

#[test]
fn hash_in_pieces_is_the_hash_of_the_whole() {
    let content = vec![b'a'; 70000];
    let mut hasher = ContentHasher::new();
    for chunk in content.chunks(64 * 1024) {
        hasher.update(chunk);
    }
    let hash = hasher.finish();
    assert_eq!(hash, "CyE4jgSoVvgkopxY1xyNQA==");
    assert_eq!(hash, base64_hash(&content));
    let mut other = ContentHasher::new();
    other.update(b"hello");
    other.update(b"");
    other.update(b" world");
    assert_eq!(other.finish(), base64_hash(b"hello world"));
}
