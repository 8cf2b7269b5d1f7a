use juju::{find_hook, hook_name, process_hooks, Hook, JujuError};

type Callback = fn() -> Result<(), String>;

fn cb() -> Result<(), String> {
    Ok(())
}

fn install() -> Result<(), String> {
    Err("install ran".to_string())
}

fn config_changed() -> Result<(), String> {
    Err("config-changed ran".to_string())
}

fn must_not_run() -> Result<(), String> {
    panic!("a callback ran for an unregistered hook")
}

#[test]
fn it_makes_a_hook_correctly() {
    let h1: Hook<Callback> = Hook::new("test", cb);
    let h2: Hook<Callback> = Hook {
        name: "test".to_string(),
        callback: cb,
    };
    assert_eq!(h1, h2);
}

#[test]
fn it_makes_a_complex_named_hook_correctly() {
    let h1: Hook<Callback> = Hook::new("config-changed", cb);
    let h2: Hook<Callback> = Hook {
        name: "config-changed".to_string(),
        callback: cb,
    };
    assert_eq!(h1, h2);
}

#[test]
fn dispatch_runs_exactly_the_named_hook() {
    let registry: Vec<Hook<Callback>> = vec![
        Hook::new("install", install),
        Hook::new("config-changed", config_changed),
    ];
    match process_hooks(registry, "config-changed") {
        Err(JujuError::CallbackFailure(m)) => assert_eq!(m, "config-changed ran"),
        other => panic!("unexpected outcome {:?}", other),
    }
}

#[test]
fn dispatch_returns_success_unchanged() {
    let registry: Vec<Hook<Callback>> = vec![Hook::new("install", install), Hook::new("start", cb)];
    assert!(process_hooks(registry, "start").is_ok());
}

#[test]
fn dispatch_unknown_hook_runs_nothing() {
    let registry: Vec<Hook<Callback>> = vec![
        Hook::new("install", must_not_run),
        Hook::new("config-changed", must_not_run),
    ];
    match process_hooks(registry, "upgrade-charm") {
        Err(JujuError::UnknownHook(name)) => assert_eq!(name, "upgrade-charm"),
        other => panic!("unexpected outcome {:?}", other),
    }
}

#[test]
fn dispatch_matches_names_exactly() {
    let registry: Vec<Hook<Callback>> = vec![Hook::new("install", must_not_run)];
    let r = process_hooks(registry, "re-install");
    assert!(matches!(r, Err(JujuError::UnknownHook(_))));
}

#[test]
fn dispatch_takes_the_first_registration() {
    let registry: Vec<Hook<Callback>> = vec![
        Hook::new("a", cb),
        Hook::new("install", install),
        Hook::new("install", must_not_run),
    ];
    assert_eq!(find_hook(&registry, "install"), Some(1));
    assert_eq!(find_hook(&registry, "b"), None);
    match process_hooks(registry, "install") {
        Err(JujuError::CallbackFailure(m)) => assert_eq!(m, "install ran"),
        other => panic!("unexpected outcome {:?}", other),
    }
}

#[test]
fn hook_name_prefers_the_environment() {
    assert_eq!(hook_name(Some("install".to_string()), "/srv/charm/hooks/start"), "install");
}

#[test]
fn hook_name_from_program_path() {
    assert_eq!(
        hook_name(None, "/var/lib/juju/agents/unit-x-0/charm/hooks/config-changed"),
        "config-changed"
    );
    assert_eq!(hook_name(None, "config-changed"), "config-changed");
    assert_eq!(hook_name(None, "hooks/"), "");
}
