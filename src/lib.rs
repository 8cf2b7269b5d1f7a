//! Helpers for writing charms: a unit's persistent key-value store with
//! revision history, the routing of a hook invocation to its handler, change
//! tracking of a charm's configuration, and the calls and output formats of
//! the hook tools.
pub mod config;
pub mod dispatch;
pub mod error;
pub mod hookenv;
pub mod table;
pub mod text;
pub mod unitdata;

pub use config::ConfigSnapshot;
pub use dispatch::{find_hook, hook_name, process_hooks, Hook};
pub use hookenv::{
    action_fail, action_get, action_get_all, action_set, close_port, config_get, config_get_all,
    is_leader, juju_log, open_port, output_text, output_trimmed, parse_action_values, parse_config_values,
    parse_leader, parse_relation_ids, parse_units, process_output, reboot, relation_get,
    relation_get_by_id, relation_get_by_unit, relation_ids, relation_ids_by_identifier,
    relation_list, relation_list_by_id, relation_set, relation_set_by_id, status_get, status_set,
    storage_get, storage_get_location, storage_list, unit_get_private_addr, unit_get_public_addr,
    CommandOutput, Context, Relation, Status, StatusType, ToolCall, Transport,
};
pub use error::JujuError;
