use juju::{parse_relation_ids, parse_units, relation_ids, relation_list, CommandOutput};

fn printed(s: &str) -> CommandOutput {
    CommandOutput {
        success: true,
        stdout: s.as_bytes().to_vec(),
        stderr: Vec::new(),
    }
}

#[test]
fn test_relation_ids() {
    let call = relation_ids();
    assert_eq!(call.command, "relation-ids");
    assert!(call.args.is_empty());
    let ids = parse_relation_ids(&printed("server:1\nserver:12\n")).unwrap();
    assert_eq!(ids.len(), 2);
    assert_eq!(ids[0].name, "server");
    assert_eq!(ids[0].id, 1);
    assert_eq!(ids[1].id, 12);
}

#[test]
fn test_relation_list() {
    let call = relation_list();
    assert_eq!(call.command, "relation-list");
    assert!(!call.as_root);
    let units = parse_units(&printed("gluster/1\ngluster/2\n")).unwrap();
    assert_eq!(units.len(), 2);
    assert_eq!(units[0].name, "gluster");
    assert_eq!(units[0].id, 1);
    assert_eq!(units[1].name, "gluster");
    assert_eq!(units[1].id, 2);
}
