use juju::unitdata::Storage;
use juju::JujuError;

fn json(s: &str) -> String {
    serde_json::to_string(s).unwrap()
}

#[test]
fn set_then_get_round_trips() {
    let mut s = Storage::new();
    let v = serde_json::to_string(&vec![1, 2, 3]).unwrap();
    s.set("k", &v).unwrap();
    assert_eq!(s.get("k"), Some(v));
    s.set("obj", "{\"a\": [true, null, 1.5]}").unwrap();
    assert_eq!(s.get("obj").unwrap(), "{\"a\": [true, null, 1.5]}");
}

#[test]
fn get_of_absent_key_is_none() {
    let mut s = Storage::new();
    assert_eq!(s.get("never"), None);
    s.set("gone", &json("x")).unwrap();
    s.unset("gone");
    assert_eq!(s.get("gone"), None);
    s.unset("never");
    assert_eq!(s.get("never"), None);
}

#[test]
fn overwrite_keeps_one_row() {
    let mut s = Storage::new();
    s.set("k", &json("v1")).unwrap();
    s.set("k", &json("v2")).unwrap();
    assert_eq!(s.get("k"), Some(json("v2")));
    let rows: Vec<&(String, String)> = s.entries().iter().filter(|r| r.0 == "k").collect();
    assert_eq!(rows.len(), 1);
}

#[test]
fn set_refuses_text_that_is_not_json() {
    let mut s = Storage::new();
    s.set("k", &json("v")).unwrap();
    let r = s.set("k", "not json");
    assert!(matches!(r, Err(JujuError::DecodeFailure(_))));
    assert_eq!(s.get("k"), Some(json("v")));
}

#[test]
fn update_is_all_or_nothing_and_prefixes_keys() {
    let mut s = Storage::new();
    let bad = vec![("a".to_string(), json("1")), ("b".to_string(), "{".to_string())];
    assert!(matches!(s.update(bad, None), Err(JujuError::DecodeFailure(_))));
    assert_eq!(s.get("a"), None);
    let good = vec![("a".to_string(), json("1")), ("b".to_string(), json("2"))];
    s.update(good, Some("p.".to_string())).unwrap();
    assert_eq!(s.get("p.a"), Some(json("1")));
    assert_eq!(s.get("p.b"), Some(json("2")));
    assert_eq!(s.get("a"), None);
}

#[test]
fn unsetrange_counts_removed_rows() {
    let mut s = Storage::new();
    for k in ["foo", "foo2", "foo3"] {
        s.set(k, &json("bar")).unwrap();
    }
    let n = s.unsetrange(Some(vec!["foo".to_string(), "foo2".to_string(), "foo3".to_string()]), None);
    assert_eq!(n, 3);
    assert_eq!(s.get("foo"), None);
    assert_eq!(s.get("foo2"), None);
    assert_eq!(s.get("foo3"), None);
}

#[test]
fn unsetrange_counts_only_present_keys() {
    let mut s = Storage::new();
    s.set("a", &json("1")).unwrap();
    let n = s.unsetrange(Some(vec!["a".to_string(), "a".to_string(), "zz".to_string()]), None);
    assert_eq!(n, 1);
}

#[test]
fn unsetrange_by_prefix() {
    let mut s = Storage::new();
    for k in ["foo", "foo2", "bar"] {
        s.set(k, &json("x")).unwrap();
    }
    assert_eq!(s.unsetrange(None, Some("foo".to_string())), 2);
    assert_eq!(s.get("bar"), Some(json("x")));
    assert_eq!(s.unsetrange(None, Some(String::new())), 1);
    assert_eq!(s.get("bar"), None);
    assert_eq!(s.unsetrange(None, None), 0);
}

#[test]
fn getrange_strips_the_prefix() {
    let mut s = Storage::new();
    for k in ["foo", "foo2", "foo3", "other"] {
        s.set(k, &json("bar")).unwrap();
    }
    let mut stripped = s.getrange("foo", true);
    stripped.sort();
    assert_eq!(
        stripped,
        vec![
            ("".to_string(), json("bar")),
            ("2".to_string(), json("bar")),
            ("3".to_string(), json("bar")),
        ]
    );
    let mut whole = s.getrange("foo", false);
    whole.sort();
    assert_eq!(
        whole,
        vec![
            ("foo".to_string(), json("bar")),
            ("foo2".to_string(), json("bar")),
            ("foo3".to_string(), json("bar")),
        ]
    );
    assert!(s.getrange("zzz", true).is_empty());
}

#[test]
fn getrange_strips_once() {
    let mut s = Storage::new();
    s.set("foofoo", &json("x")).unwrap();
    assert_eq!(s.getrange("foo", true), vec![("foo".to_string(), json("x"))]);
}

#[test]
fn revision_history_in_revision_order() {
    let mut s = Storage::new();
    assert_eq!(s.open_revision_at("config-changed", "2024-01-01T00:00:00+00:00"), Some(1));
    s.set("x", &json("1")).unwrap();
    s.close_revision();
    assert_eq!(s.open_revision_at("upgrade-charm", "2024-01-02T00:00:00+00:00"), Some(2));
    s.set("x", &json("2")).unwrap();
    s.close_revision();
    let h = s.gethistory("x");
    assert_eq!(h.len(), 2);
    assert_eq!(h[0].hook, "config-changed");
    assert_eq!(h[0].revision, 1);
    assert_eq!(h[0].data, json("1"));
    assert_eq!(h[0].date, "2024-01-01T00:00:00+00:00");
    assert_eq!(h[1].hook, "upgrade-charm");
    assert_eq!(h[1].revision, 2);
    assert_eq!(h[1].data, json("2"));
    assert_eq!(h[1].key, "x");
}

#[test]
fn a_revision_keeps_the_last_write() {
    let mut s = Storage::new();
    s.open_revision_at("install", "t").unwrap();
    s.set("x", &json("a")).unwrap();
    s.set("x", &json("b")).unwrap();
    let h = s.gethistory("x");
    assert_eq!(h.len(), 1);
    assert_eq!(h[0].data, json("b"));
    assert_eq!(s.revision_entries().len(), 1);
}

#[test]
fn writes_outside_a_revision_leave_no_history() {
    let mut s = Storage::new();
    s.set("x", &json("a")).unwrap();
    s.unset("x");
    assert!(s.gethistory("x").is_empty());
    assert!(s.revision_entries().is_empty());
}

#[test]
fn removals_are_recorded_in_the_open_revision() {
    let mut s = Storage::new();
    s.set("a", &json("1")).unwrap();
    s.set("pre1", &json("1")).unwrap();
    s.set("pre2", &json("1")).unwrap();
    let v = s.open_revision("stop").unwrap();
    assert_eq!(v, 1);
    assert!(!s.hook_entries()[0].date.is_empty());
    s.unset("a");
    s.unset("missing");
    assert_eq!(s.gethistory("a")[0].data, "\"DELETED\"");
    assert!(s.gethistory("missing").is_empty());
    assert_eq!(s.unsetrange(None, Some("pre".to_string())), 2);
    let h = s.gethistory("pre%");
    assert_eq!(h.len(), 1);
    assert_eq!(h[0].data, "\"DELETED\"");
    assert_eq!(h[0].hook, "stop");
}

#[test]
fn only_one_revision_at_a_time() {
    let mut s = Storage::new();
    assert_eq!(s.open_revision_at("a", "t"), Some(1));
    assert_eq!(s.open_revision_at("b", "t"), None);
    assert_eq!(s.revision(), Some(1));
    s.close_revision();
    assert_eq!(s.revision(), None);
    assert_eq!(s.open_revision_at("b", "t"), Some(2));
}

#[test]
fn restore_checks_the_log() {
    let mut s = Storage::new();
    assert!(!s.restore_hook(0, "install", "t"));
    assert!(s.restore_hook(4, "install", "t"));
    assert!(!s.restore_hook(4, "again", "t"));
    assert!(s.restore_revision("k", 4, &json("v")));
    assert!(!s.restore_revision("k", 5, &json("v")));
    s.restore_value("k", &json("v"));
    assert_eq!(s.get("k"), Some(json("v")));
    assert_eq!(s.gethistory("k")[0].hook, "install");
    assert_eq!(s.open_revision_at("next", "t"), Some(5));
}

#[test]
fn no_revision_once_versions_run_out() {
    let mut s = Storage::new();
    assert!(s.restore_hook(u32::MAX, "install", "t"));
    assert_eq!(s.open_revision_at("next", "t"), None);
    assert_eq!(s.revision(), None);
    assert_eq!(s.hook_entries().len(), 1);
}
