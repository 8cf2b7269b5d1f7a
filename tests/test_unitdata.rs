use juju::unitdata::Storage;

fn json(s: &str) -> String {
    serde_json::to_string(s).unwrap()
}

fn text(data: &str) -> String {
    serde_json::from_str::<String>(data).unwrap()
}

fn lookup(rows: &[(String, String)], key: &str) -> String {
    let found: Vec<&(String, String)> = rows.iter().filter(|r| r.0 == key).collect();
    assert_eq!(found.len(), 1);
    text(&found[0].1)
}

#[test]
fn get_set_delete_keys() {
    let mut unitdata = Storage::new();
    unitdata.set("foo", &json("bar")).unwrap();
    let value: Option<String> = unitdata.get("foo");
    assert_eq!("bar", text(&value.unwrap()));

    let updates: Vec<(String, String)> = vec![("foo".to_string(), json("baz"))];
    unitdata.update(updates, None).expect("Updates failed");

    let value: Option<String> = unitdata.get("foo");
    assert_eq!("baz", text(&value.unwrap()));

    // Test that delete works
    unitdata.unset("foo");

    // Set a few more keys so we can unset them all at once
    unitdata.set("foo", &json("bar")).unwrap();
    unitdata.set("foo2", &json("bar")).unwrap();
    unitdata.set("foo3", &json("bar")).unwrap();

    let results = unitdata.getrange("foo", false);
    // check that we got everything
    assert_eq!(lookup(&results, "foo"), "bar");
    assert_eq!(lookup(&results, "foo2"), "bar");
    assert_eq!(lookup(&results, "foo3"), "bar");

    // This time get the same values but strip the prefix off of the keys
    let results_2 = unitdata.getrange("foo", true);
    assert_eq!(lookup(&results_2, ""), "bar");
    assert_eq!(lookup(&results_2, "2"), "bar");
    assert_eq!(lookup(&results_2, "3"), "bar");

    let rows_deleted = unitdata.unsetrange(
        Some(vec!["foo".to_string(), "foo2".to_string(), "foo3".to_string()]),
        None,
    );
    assert_eq!(rows_deleted, 3);
}
