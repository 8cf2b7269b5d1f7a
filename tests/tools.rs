use juju::{
    action_fail, action_get, action_get_all, action_set, close_port, config_get, config_get_all,
    is_leader, open_port, output_text, output_trimmed, parse_action_values, parse_config_values,
    parse_leader, parse_relation_ids, parse_units, process_output, reboot, relation_get,
    relation_get_by_id, relation_get_by_unit, relation_ids_by_identifier, relation_list_by_id,
    relation_set, relation_set_by_id, status_get, status_set, storage_get, storage_get_location,
    storage_list, unit_get_private_addr, CommandOutput, Context, JujuError, Relation, Status,
    StatusType, ToolCall, Transport,
};

fn printed(s: &str) -> CommandOutput {
    CommandOutput {
        success: true,
        stdout: s.as_bytes().to_vec(),
        stderr: Vec::new(),
    }
}

fn args(c: &ToolCall) -> Vec<&str> {
    c.args.iter().map(|a| a.as_str()).collect()
}

#[test]
fn port_calls() {
    let c = open_port(8080, Transport::Tcp);
    assert_eq!(c.command, "open-port");
    assert_eq!(args(&c), vec!["8080/tcp"]);
    let c = close_port(0, Transport::Udp);
    assert_eq!(c.command, "close-port");
    assert_eq!(args(&c), vec!["0/udp"]);
    assert_eq!(args(&open_port(usize::MAX, Transport::Udp)), vec![format!("{}/udp", usize::MAX)]);
}

#[test]
fn relation_calls() {
    let id = Relation { name: "server".to_string(), id: 3 };
    let unit = Relation { name: "gluster".to_string(), id: 10 };
    let c = relation_set_by_id("k", "v", &id);
    assert_eq!(c.command, "relation-set");
    assert_eq!(args(&c), vec!["-r server:3", "k=v"]);
    let c = relation_get_by_id("k", &id, &unit);
    assert_eq!(c.command, "relation-get");
    assert_eq!(args(&c), vec!["-r server:3", "k", "gluster/10"]);
    assert_eq!(args(&relation_get_by_unit("k", &unit)), vec!["k", "gluster/10"]);
    assert_eq!(args(&relation_get("k")), vec!["k"]);
    assert_eq!(args(&relation_set("a", "b=c")), vec!["a=b=c"]);
    assert_eq!(args(&relation_list_by_id(&id)), vec!["-r server:3"]);
    assert_eq!(args(&relation_ids_by_identifier("server")), vec!["server"]);
}

#[test]
fn other_calls() {
    let c = reboot();
    assert_eq!(c.command, "juju-reboot");
    assert!(c.as_root);
    assert!(c.args.is_empty());
    assert_eq!(action_get_all().command, "action-get");
    assert_eq!(args(&action_get("p")), vec!["p"]);
    assert_eq!(args(&action_set("outcome", "ok")), vec!["outcome=ok"]);
    assert_eq!(args(&action_fail("bad")), vec!["bad"]);
    assert_eq!(args(&config_get("size")), vec!["size"]);
    assert_eq!(args(&config_get_all()), vec!["--all"]);
    assert_eq!(args(&unit_get_private_addr()), vec!["private-address"]);
    let c = status_set(Status { status_type: StatusType::Maintenance, message: "Doing stuff".to_string() });
    assert_eq!(c.command, "status-set");
    assert_eq!(args(&c), vec!["maintenance", "Doing stuff"]);
    assert_eq!(status_get().command, "status-get");
    assert_eq!(args(&storage_get_location()), vec!["location"]);
    assert_eq!(args(&storage_get("data/0")), vec!["-s", "data/0", "location"]);
    assert_eq!(storage_list().command, "storage-list");
    assert_eq!(is_leader().command, "is-leader");
}

#[test]
fn status_names() {
    assert_eq!(StatusType::Maintenance.to_string(), "maintenance");
    assert_eq!(StatusType::Waiting.to_string(), "waiting");
    assert_eq!(StatusType::Active.to_string(), "active");
    assert_eq!(StatusType::Blocked.to_string(), "blocked");
    assert_eq!(Transport::Tcp.to_string(), "tcp");
}

#[test]
fn process_output_outcomes() {
    assert_eq!(process_output(&printed("anything")).unwrap(), 0);
    let failed = CommandOutput { success: false, stdout: Vec::new(), stderr: b"no such port".to_vec() };
    match process_output(&failed) {
        Err(JujuError::IoFailure(m)) => assert_eq!(m, "no such port"),
        other => panic!("unexpected outcome {:?}", other),
    }
    let garbled = CommandOutput { success: false, stdout: Vec::new(), stderr: vec![0xff, 0xfe] };
    assert!(matches!(process_output(&garbled), Err(JujuError::DecodeFailure(_))));
}

#[test]
fn text_outputs() {
    assert_eq!(output_text(&printed("a b\n")).unwrap(), "a b\n");
    assert_eq!(output_trimmed(&printed("  value \n")).unwrap(), "value");
    assert_eq!(output_trimmed(&printed("\u{3000}x\u{a0}")).unwrap(), "x");
    assert!(matches!(output_text(&CommandOutput { success: true, stdout: vec![0xc3], stderr: Vec::new() }), Err(JujuError::DecodeFailure(_))));
}

#[test]
fn leader_answers() {
    assert!(parse_leader(&printed("True\n")).unwrap());
    assert!(!parse_leader(&printed("False\n")).unwrap());
    assert!(!parse_leader(&printed("maybe")).unwrap());
}

#[test]
fn action_values() {
    let v = parse_action_values(&printed("a: 1\nno colon\nb:  two \nc: x: y\n")).unwrap();
    assert_eq!(v, vec![("a".to_string(), "1".to_string()), ("b".to_string(), "two".to_string())]);
    assert!(parse_action_values(&printed("")).unwrap().is_empty());
}

#[test]
fn config_values() {
    let v = parse_config_values(&printed("brick_paths: /mnt/brick1 /mnt/brick2\ncluster_type: Replicate\n")).unwrap();
    assert_eq!(
        v,
        vec![
            ("brick_paths".to_string(), " /mnt/brick1 /mnt/brick2".to_string()),
            ("cluster_type".to_string(), " Replicate".to_string()),
        ]
    );
    assert!(matches!(parse_config_values(&printed("lonely\n")), Err(JujuError::ParseFailure(_))));
    assert!(matches!(parse_config_values(&printed("a:b\n\n")), Err(JujuError::ParseFailure(_))));
}

#[test]
fn relation_listings() {
    let units = parse_units(&printed("mysql/0\r\nmysql/+7")).unwrap();
    assert_eq!(units.len(), 2);
    assert_eq!(units[0].name, "mysql");
    assert_eq!(units[0].id, 0);
    assert_eq!(units[1].id, 7);
    assert!(matches!(parse_units(&printed("mysql\n")), Err(JujuError::ParseFailure(_))));
    assert!(matches!(parse_units(&printed("mysql/x\n")), Err(JujuError::ParseFailure(_))));
    assert!(matches!(parse_relation_ids(&printed("server:99999999999999999999999\n")), Err(JujuError::ParseFailure(_))));
    assert!(parse_relation_ids(&printed("")).unwrap().is_empty());
}

#[test]
fn context_reads_the_relation_number() {
    let c = Context::new("server", "server:3", "gluster/1");
    assert_eq!(c.relation_id, 3);
    assert_eq!(c.relation_type, "server");
    assert_eq!(c.unit, "gluster/1");
    assert_eq!(Context::new("", "", "").relation_id, 0);
    assert_eq!(Context::new("", "server:x", "").relation_id, 0);
}

#[test]
fn error_messages() {
    assert_eq!(JujuError::ParseFailure("bad line".to_string()).to_string(), "bad line");
}

#[test]
fn unit_numbers_up_to_the_largest_usize() {
    let most = format!("m/{}\n", usize::MAX);
    assert_eq!(parse_units(&printed(&most)).unwrap()[0].id, usize::MAX);
    let beyond = format!("m/{}0\n", usize::MAX);
    assert!(matches!(parse_units(&printed(&beyond)), Err(JujuError::ParseFailure(_))));
    assert!(matches!(parse_units(&printed("m/+\n")), Err(JujuError::ParseFailure(_))));
    assert!(matches!(parse_units(&printed("m/-1\n")), Err(JujuError::ParseFailure(_))));
}
