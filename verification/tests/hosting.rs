use archive::host::{
    allowed_origin, find_text, host_manifest, is_installed, manifest_names, panic_report,
    registry_key,
};

#[test]
fn registry_key_of_a_host() {
    assert_eq!(
        registry_key("com.dagwaging.archive"),
        "Software\\Google\\Chrome\\NativeMessagingHosts\\com.dagwaging.archive"
    );
}

#[test]
fn origin_of_an_extension() {
    assert_eq!(
        allowed_origin("fdnmnpnjacfjphfmhlfgjpmkimbekmnd"),
        "chrome-extension://fdnmnpnjacfjphfmhlfgjpmkimbekmnd/"
    );
}

#[test]
fn manifest_of_a_host() {
    let text = host_manifest("n", "d", "C:\\bin\\host.exe", "id").unwrap();
    let value: serde_json::Value = serde_json::from_slice(&text).unwrap();
    let object = value.as_object().unwrap();
    assert_eq!(object.len(), 5);
    assert_eq!(object["name"], serde_json::Value::from("n"));
    assert_eq!(object["description"], serde_json::Value::from("d"));
    assert_eq!(object["path"], serde_json::Value::from("C:\\bin\\host.exe"));
    assert_eq!(object["type"], serde_json::Value::from("stdio"));
    assert_eq!(
        object["allowed_origins"],
        serde_json::Value::from(vec!["chrome-extension://id/".to_string()])
    );
}

#[test]
fn installed_when_the_manifest_names_the_executable() {
    let text = host_manifest("n", "d", "/opt/host", "id").unwrap();
    assert!(is_installed(Some(&text), Some("/opt/host")));
    assert!(!is_installed(Some(&text), Some("/opt/other")));
    assert!(!is_installed(Some(&text), None));
    assert!(!is_installed(None, Some("/opt/host")));
}

#[test]
fn not_installed_with_a_manifest_that_says_nothing() {
    assert!(!is_installed(Some(b"{}"), Some("/opt/host")));
    assert!(!is_installed(Some(b"{\"path\": 1}"), Some("1")));
    assert!(!is_installed(Some(b"{\"path\": null}"), Some("")));
    assert!(!is_installed(Some(b"[\"/opt/host\"]"), Some("/opt/host")));
    assert!(!is_installed(Some(b"\"/opt/host\""), Some("/opt/host")));
    assert!(!is_installed(Some(b"{\"path\": \"/opt/host\""), Some("/opt/host")));
    assert!(is_installed(Some(b"{\"path\": \"/opt/host\", \"other\": [1, {}]}"), Some("/opt/host")));
}

#[test]
fn text_of_a_field() {
    let fields = vec![
        ("a".to_string(), Some("1".to_string())),
        ("b".to_string(), None),
        ("c".to_string(), Some("3".to_string())),
        ("a".to_string(), Some("4".to_string())),
    ];
    assert_eq!(find_text(&fields, "a"), Some(&"1".to_string()));
    assert_eq!(find_text(&fields, "b"), None);
    assert_eq!(find_text(&fields, "c"), Some(&"3".to_string()));
    assert_eq!(find_text(&fields, "d"), None);
    assert!(manifest_names(&Some(vec![("path".to_string(), Some("p".to_string()))]), Some("p")));
    assert!(!manifest_names(&Some(fields), Some("p")));
    assert!(!manifest_names(&None, Some("p")));
}

#[test]
fn report_of_a_panic() {
    assert_eq!(
        panic_report("boom", "src/main.rs", Some(42)),
        "Panic:\nboom\nsrc/main.rs\n42"
    );
    assert_eq!(panic_report("Box<Any>", "", None), "Panic:\nBox<Any>\n\n");
}
