use juju::{ConfigSnapshot, JujuError};

#[test]
fn change_detection() {
    let snap = ConfigSnapshot::from_json("{\"size\": \"10\"}").unwrap();
    assert!(!snap.changed("size", Some("10")));
    assert!(snap.changed("size", Some("20")));
    assert!(snap.changed("size", None));
    assert!(snap.changed("new_key", Some("x")));
    assert!(snap.changed("new_key", None));
    assert_eq!(snap.previous("size"), Some("10".to_string()));
    assert_eq!(snap.previous("new_key"), None);
}

#[test]
fn snapshot_refuses_other_json() {
    assert!(matches!(ConfigSnapshot::from_json("[1, 2]"), Err(JujuError::DecodeFailure(_))));
    assert!(matches!(ConfigSnapshot::from_json("{\"size\": 10}"), Err(JujuError::DecodeFailure(_))));
    assert!(matches!(ConfigSnapshot::from_json("{"), Err(JujuError::DecodeFailure(_))));
}

#[test]
fn snapshot_written_back_in_full() {
    let mut snap = ConfigSnapshot::from_values(vec![
        ("size".to_string(), "10".to_string()),
        ("name".to_string(), "a".to_string()),
        ("size".to_string(), "12".to_string()),
    ]);
    assert_eq!(snap.previous("size"), Some("12".to_string()));
    snap.record("name", "b");
    assert_eq!(snap.to_json().unwrap(), "{\"name\":\"b\",\"size\":\"12\"}");
    let again = ConfigSnapshot::from_json(&snap.to_json().unwrap()).unwrap();
    assert!(!again.changed("name", Some("b")));
    assert!(ConfigSnapshot::new().changed("size", Some("10")));
}
