//! The hook tools: what to run for each request, and how to read what the
//! tool printed.
//!
//! A request builds a `ToolCall`. Whoever runs it hands back the
//! `CommandOutput`, and a reader turns that into the result.
use std::collections::HashMap;
use vstd::prelude::*;
use vstd::utf8::{decode_utf8, valid_utf8};

use crate::error::JujuError;
use crate::unitdata::kv_row_view;
use crate::text::{
    decimal, decimal_text, joined, lines, lines_of, owned, parse_usize, split, split_on, texts, trim,
    trimmed, usize_value,
};

verus! {

/// A hook tool to run: its name, its arguments, and whether it runs with
/// elevated rights.
#[derive(Debug, Clone)]
pub struct ToolCall {
    pub command: String,
    pub args: Vec<String>,
    pub as_root: bool,
}

/// What a finished tool reported: whether it succeeded, and what it printed.
#[derive(Debug, Clone)]
pub struct CommandOutput {
    pub success: bool,
    pub stdout: Vec<u8>,
    pub stderr: Vec<u8>,
}

/// `c` runs `command` with `args`, elevated where `as_root` holds.
pub open spec fn runs(c: ToolCall, command: Seq<char>, args: Seq<Seq<char>>, as_root: bool) -> bool {
    &&& c.command@ == command
    &&& texts(c.args@) == args
    &&& c.as_root == as_root
}

#[derive(Debug, Clone, Copy, PartialEq, Eq, Structural)]
pub enum Transport {
    Tcp,
    Udp,
}

impl Transport {
    pub open spec fn text(self) -> Seq<char> {
        match self {
            Transport::Tcp => seq!['t', 'c', 'p'],
            Transport::Udp => seq!['u', 'd', 'p'],
        }
    }

    /// The name of the transport, as the port tools write it.
    pub fn to_string(self) -> (r: String)
        ensures
            r@ == self.text(),
    {
        let r = match self {
            Transport::Tcp => {
                proof {
                    reveal_strlit("tcp");
                }
                owned("tcp")
            },
            Transport::Udp => {
                proof {
                    reveal_strlit("udp");
                }
                owned("udp")
            },
        };
        assert(r@ =~= self.text());
        r
    }
}

/// The workload states a unit can report.
#[derive(Debug, Clone, Copy, PartialEq, Eq, Structural)]
pub enum StatusType {
    Maintenance,
    Waiting,
    Active,
    Blocked,
}

impl StatusType {
    pub open spec fn text(self) -> Seq<char> {
        match self {
            StatusType::Maintenance => seq!['m', 'a', 'i', 'n', 't', 'e', 'n', 'a', 'n', 'c', 'e'],
            StatusType::Waiting => seq!['w', 'a', 'i', 't', 'i', 'n', 'g'],
            StatusType::Active => seq!['a', 'c', 't', 'i', 'v', 'e'],
            StatusType::Blocked => seq!['b', 'l', 'o', 'c', 'k', 'e', 'd'],
        }
    }

    /// The name of the state, as `status-set` takes it.
    pub fn to_string(self) -> (r: String)
        ensures
            r@ == self.text(),
    {
        let r = match self {
            StatusType::Maintenance => {
                proof {
                    reveal_strlit("maintenance");
                }
                owned("maintenance")
            },
            StatusType::Waiting => {
                proof {
                    reveal_strlit("waiting");
                }
                owned("waiting")
            },
            StatusType::Active => {
                proof {
                    reveal_strlit("active");
                }
                owned("active")
            },
            StatusType::Blocked => {
                proof {
                    reveal_strlit("blocked");
                }
                owned("blocked")
            },
        };
        assert(r@ =~= self.text());
        r
    }
}

#[derive(Debug, Clone)]
pub struct Status {
    /// The type of status
    pub status_type: StatusType,
    /// A message to show alongside the status
    pub message: String,
}

#[derive(Debug, Clone)]
pub struct Relation {
    /// The name of a unit or relation
    pub name: String,
    /// Its number
    pub id: usize,
}

#[derive(Debug, Clone)]
pub struct Context {
    /// The scope for the current relation hook
    pub relation_type: String,
    /// The relation ID for the current relation hook
    pub relation_id: usize,
    /// Local unit ID
    pub unit: String,
    /// relation data for all related units
    pub relations: HashMap<String, String>,
}

/// The number of a relation id such as `server:3`: what follows the first
/// `:` where that reads as a number, else 0.
pub open spec fn relation_number(t: Seq<char>) -> nat {
    let p = split(t, ':');
    if p.len() > 1 && usize_value(p[1]) is Some {
        usize_value(p[1])->0
    } else {
        0
    }
}

impl Context {
    /// A context for the relation `relation_type`, the relation id text
    /// `relation_id` (as `server:3`) and the unit `unit`, with no relation
    /// data.
    pub fn new(relation_type: &str, relation_id: &str, unit: &str) -> (c: Context)
        ensures
            c.relation_type@ == relation_type@,
            c.relation_id == relation_number(relation_id@),
            c.unit@ == unit@,
    {
        let parts = split_on(relation_id, ':');
        let mut id: usize = 0;
        if parts.len() > 1 {
            proof {
                assert(parts@[1]@ == split(relation_id@, ':')[1]);
            }
            if let Some(n) = parse_usize(parts[1].as_str()) {
                id = n;
            }
        }
        Context { relation_type: owned(relation_type), relation_id: id, unit: owned(unit), relations: HashMap::new() }
    }
}

fn call(command: &str, args: Vec<String>, as_root: bool) -> (c: ToolCall)
    ensures
        c.command@ == command@,
        c.args@ == args@,
        c.as_root == as_root,
{
    ToolCall { command: owned(command), args, as_root }
}

fn no_args() -> (v: Vec<String>)
    ensures
        texts(v@) == Seq::<Seq<char>>::empty(),
{
    let v: Vec<String> = Vec::new();
    assert(texts(v@) =~= Seq::<Seq<char>>::empty());
    v
}

fn one_arg(a: String) -> (v: Vec<String>)
    ensures
        texts(v@) == seq![a@],
{
    let mut v: Vec<String> = Vec::new();
    v.push(a);
    assert(texts(v@) =~= seq![a@]);
    v
}

fn two_args(a: String, b: String) -> (v: Vec<String>)
    ensures
        texts(v@) == seq![a@, b@],
{
    let mut v: Vec<String> = Vec::new();
    v.push(a);
    v.push(b);
    assert(texts(v@) =~= seq![a@, b@]);
    v
}

fn three_args(a: String, b: String, c: String) -> (v: Vec<String>)
    ensures
        texts(v@) == seq![a@, b@, c@],
{
    let mut v: Vec<String> = Vec::new();
    v.push(a);
    v.push(b);
    v.push(c);
    assert(texts(v@) =~= seq![a@, b@, c@]);
    v
}

/// `a`, then `sep`, then `b`.
pub open spec fn pair_text(a: Seq<char>, sep: char, b: Seq<char>) -> Seq<char> {
    a.push(sep) + b
}

fn pair_arg(a: &str, sep: &str, b: &str) -> (r: String)
    requires
        sep@.len() == 1,
    ensures
        r@ == pair_text(a@, sep@[0], b@),
{
    let head = joined(a, sep);
    let r = joined(head.as_str(), b);
    assert(sep@ =~= seq![sep@[0]]);
    assert(a@ + sep@ =~= a@.push(sep@[0]));
    r
}

/// The `key=value` argument of the setting tools.
pub open spec fn setting_arg(key: Seq<char>, value: Seq<char>) -> Seq<char> {
    pair_text(key, '=', value)
}

fn setting(key: &str, value: &str) -> (r: String)
    ensures
        r@ == setting_arg(key@, value@),
{
    proof {
        reveal_strlit("=");
    }
    pair_arg(key, "=", value)
}

/// The `-r name:id` argument that picks a relation.
pub open spec fn relation_arg(id: Relation) -> Seq<char> {
    seq!['-', 'r', ' '] + pair_text(id.name@, ':', decimal(id.id as nat))
}

fn relation_flag(id: &Relation) -> (r: String)
    ensures
        r@ == relation_arg(*id),
{
    proof {
        reveal_strlit(":");
        reveal_strlit("-r ");
    }
    let number = decimal_text(id.id);
    let p = pair_arg(id.name.as_str(), ":", number.as_str());
    let r = joined("-r ", p.as_str());
    assert(r@ =~= relation_arg(*id));
    r
}

/// The `name/id` argument that names a unit.
pub open spec fn unit_arg(unit: Relation) -> Seq<char> {
    pair_text(unit.name@, '/', decimal(unit.id as nat))
}

fn unit_name(unit: &Relation) -> (r: String)
    ensures
        r@ == unit_arg(*unit),
{
    proof {
        reveal_strlit("/");
    }
    let number = decimal_text(unit.id);
    pair_arg(unit.name.as_str(), "/", number.as_str())
}

/// The `port/transport` argument of the port tools.
pub open spec fn port_arg(port: usize, transport: Transport) -> Seq<char> {
    pair_text(decimal(port as nat), '/', transport.text())
}

fn port_spec(port: usize, transport: Transport) -> (r: String)
    ensures
        r@ == port_arg(port, transport),
{
    proof {
        reveal_strlit("/");
    }
    let number = decimal_text(port);
    let t = transport.to_string();
    pair_arg(number.as_str(), "/", t.as_str())
}

/// Reboots the machine of the unit, with elevated rights.
pub fn reboot() -> (c: ToolCall)
    ensures
        runs(c, "juju-reboot"@, seq![], true),
{
    call("juju-reboot", no_args(), true)
}

/// Gets every parameter of the running action.
pub fn action_get_all() -> (c: ToolCall)
    ensures
        runs(c, "action-get"@, seq![], false),
{
    call("action-get", no_args(), false)
}

/// Gets the parameter `key` of the running action.
pub fn action_get(key: &str) -> (c: ToolCall)
    ensures
        runs(c, "action-get"@, seq![key@], false),
{
    call("action-get", one_arg(owned(key)), false)
}

/// Sets the result `key` of the running action to `value`.
pub fn action_set(key: &str, value: &str) -> (c: ToolCall)
    ensures
        runs(c, "action-set"@, seq![setting_arg(key@, value@)], false),
{
    call("action-set", one_arg(setting(key, value)), false)
}

/// Marks the running action as failed with the message `msg`.
pub fn action_fail(msg: &str) -> (c: ToolCall)
    ensures
        runs(c, "action-fail"@, seq![msg@], false),
{
    call("action-fail", one_arg(owned(msg)), false)
}

/// Gets the private address of the unit.
pub fn unit_get_private_addr() -> (c: ToolCall)
    ensures
        runs(c, "unit-get"@, seq!["private-address"@], false),
{
    call("unit-get", one_arg(owned("private-address")), false)
}

/// Gets the public address of the unit.
pub fn unit_get_public_addr() -> (c: ToolCall)
    ensures
        runs(c, "unit-get"@, seq!["public-address"@], false),
{
    call("unit-get", one_arg(owned("public-address")), false)
}

/// Gets the configuration option `key`.
pub fn config_get(key: &str) -> (c: ToolCall)
    ensures
        runs(c, "config-get"@, seq![key@], false),
{
    call("config-get", one_arg(owned(key)), false)
}

/// Gets every configuration option.
pub fn config_get_all() -> (c: ToolCall)
    ensures
        runs(c, "config-get"@, seq!["--all"@], false),
{
    call("config-get", one_arg(owned("--all")), false)
}

/// Opens `port` for `transport`.
pub fn open_port(port: usize, transport: Transport) -> (c: ToolCall)
    ensures
        runs(c, "open-port"@, seq![port_arg(port, transport)], false),
{
    call("open-port", one_arg(port_spec(port, transport)), false)
}

/// Closes `port` for `transport`.
pub fn close_port(port: usize, transport: Transport) -> (c: ToolCall)
    ensures
        runs(c, "close-port"@, seq![port_arg(port, transport)], false),
{
    call("close-port", one_arg(port_spec(port, transport)), false)
}

/// Sets `key` to `value` in the current relation.
pub fn relation_set(key: &str, value: &str) -> (c: ToolCall)
    ensures
        runs(c, "relation-set"@, seq![setting_arg(key@, value@)], false),
{
    call("relation-set", one_arg(setting(key, value)), false)
}

/// Sets `key` to `value` in the relation `id`.
pub fn relation_set_by_id(key: &str, value: &str, id: &Relation) -> (c: ToolCall)
    ensures
        runs(c, "relation-set"@, seq![relation_arg(*id), setting_arg(key@, value@)], false),
{
    call("relation-set", two_args(relation_flag(id), setting(key, value)), false)
}

/// Gets `key` from the current relation.
pub fn relation_get(key: &str) -> (c: ToolCall)
    ensures
        runs(c, "relation-get"@, seq![key@], false),
{
    call("relation-get", one_arg(owned(key)), false)
}

/// Gets `key` as the unit `unit` set it in the current relation.
pub fn relation_get_by_unit(key: &str, unit: &Relation) -> (c: ToolCall)
    ensures
        runs(c, "relation-get"@, seq![key@, unit_arg(*unit)], false),
{
    call("relation-get", two_args(owned(key), unit_name(unit)), false)
}

/// Gets `key` as the unit `unit` set it in the relation `id`.
pub fn relation_get_by_id(key: &str, id: &Relation, unit: &Relation) -> (c: ToolCall)
    ensures
        runs(c, "relation-get"@, seq![relation_arg(*id), key@, unit_arg(*unit)], false),
{
    call("relation-get", three_args(relation_flag(id), owned(key), unit_name(unit)), false)
}

/// Lists the units of the current relation.
pub fn relation_list() -> (c: ToolCall)
    ensures
        runs(c, "relation-list"@, seq![], false),
{
    call("relation-list", no_args(), false)
}

/// Lists the units of the relation `id`.
pub fn relation_list_by_id(id: &Relation) -> (c: ToolCall)
    ensures
        runs(c, "relation-list"@, seq![relation_arg(*id)], false),
{
    call("relation-list", one_arg(relation_flag(id)), false)
}

/// Lists the relation ids of the current relation.
pub fn relation_ids() -> (c: ToolCall)
    ensures
        runs(c, "relation-ids"@, seq![], false),
{
    call("relation-ids", no_args(), false)
}

/// Lists the relation ids of the relation named `id`.
pub fn relation_ids_by_identifier(id: &str) -> (c: ToolCall)
    ensures
        runs(c, "relation-ids"@, seq![id@], false),
{
    call("relation-ids", one_arg(owned(id)), false)
}

/// Reports the workload state of the unit.
pub fn status_set(status: Status) -> (c: ToolCall)
    ensures
        runs(c, "status-set"@, seq![status.status_type.text(), status.message@], false),
{
    call("status-set", two_args(status.status_type.to_string(), status.message), false)
}

/// Gets the workload state of the unit.
pub fn status_get() -> (c: ToolCall)
    ensures
        runs(c, "status-get"@, seq![], false),
{
    call("status-get", no_args(), false)
}

/// Gets where the storage of the running storage hook is attached.
pub fn storage_get_location() -> (c: ToolCall)
    ensures
        runs(c, "storage-get"@, seq!["location"@], false),
{
    call("storage-get", one_arg(owned("location")), false)
}

/// Gets where the storage instance `name` is attached.
pub fn storage_get(name: &str) -> (c: ToolCall)
    ensures
        runs(c, "storage-get"@, seq!["-s"@, name@, "location"@], false),
{
    call("storage-get", three_args(owned("-s"), owned(name), owned("location")), false)
}

/// Lists the storage instances attached to the unit.
pub fn storage_list() -> (c: ToolCall)
    ensures
        runs(c, "storage-list"@, seq![], false),
{
    call("storage-list", no_args(), false)
}

/// Writes `message` to the orchestrator's log at `level` (such as `DEBUG`).
pub fn juju_log(message: &str, level: &str) -> (c: ToolCall)
    ensures
        runs(c, "juju-log"@, seq!["-l"@, level@, message@], false),
{
    call("juju-log", three_args(owned("-l"), owned(level), owned(message)), false)
}

/// Asks whether the unit is the leader of its application.
pub fn is_leader() -> (c: ToolCall)
    ensures
        runs(c, "is-leader"@, seq![], false),
{
    call("is-leader", no_args(), false)
}

/// Relies on String::from_utf8: it succeeds exactly on valid UTF-8, and the
/// string then holds the characters that the bytes encode.
#[verifier::external_body]
fn utf8_string(bytes: &Vec<u8>) -> (r: Option<String>)
    ensures
        r is Some <==> valid_utf8(bytes@),
        r is Some ==> r->0@ == decode_utf8(bytes@),
{
    String::from_utf8(bytes.clone()).ok()
}

/// The text that `bytes` encode, where they are valid UTF-8.
pub open spec fn text_of(bytes: Seq<u8>) -> Option<Seq<char>> {
    if valid_utf8(bytes) {
        Some(decode_utf8(bytes))
    } else {
        None
    }
}

fn decoded(bytes: &Vec<u8>) -> (r: Result<String, JujuError>)
    ensures
        r is Ok <==> text_of(bytes@) is Some,
        r is Ok ==> r->Ok_0@ == text_of(bytes@)->0,
        r is Err ==> r->Err_0 is DecodeFailure,
{
    match utf8_string(bytes) {
        Some(t) => Ok(t),
        None => Err(JujuError::DecodeFailure(owned("output is not UTF-8"))),
    }
}

/// The outcome of a tool run for its effect: 0 where it succeeded, else an
/// error that carries what it printed on its error stream.
pub fn process_output(output: &CommandOutput) -> (r: Result<i32, JujuError>)
    ensures
        output.success ==> r == Ok::<i32, JujuError>(0),
        !output.success ==> r is Err,
        !output.success && text_of(output.stderr@) is Some ==> r->Err_0 is IoFailure
            && r->Err_0.message() == text_of(output.stderr@)->0,
        !output.success && text_of(output.stderr@) is None ==> r->Err_0 is DecodeFailure,
{
    if output.success {
        return Ok(0);
    }
    match decoded(&output.stderr) {
        Ok(m) => Err(JujuError::IoFailure(m)),
        Err(e) => Err(e),
    }
}

/// What the tool printed, as text.
pub fn output_text(output: &CommandOutput) -> (r: Result<String, JujuError>)
    ensures
        r is Ok <==> text_of(output.stdout@) is Some,
        r is Ok ==> r->Ok_0@ == text_of(output.stdout@)->0,
        r is Err ==> r->Err_0 is DecodeFailure,
{
    decoded(&output.stdout)
}

/// What the tool printed, without leading and trailing white space.
pub fn output_trimmed(output: &CommandOutput) -> (r: Result<String, JujuError>)
    ensures
        r is Ok <==> text_of(output.stdout@) is Some,
        r is Ok ==> r->Ok_0@ == trim(text_of(output.stdout@)->0),
        r is Err ==> r->Err_0 is DecodeFailure,
{
    let t = decoded(&output.stdout)?;
    Ok(trimmed(t.as_str()))
}

/// Whether `is-leader` answered `True`; any other answer is taken as no.
pub fn parse_leader(output: &CommandOutput) -> (r: Result<bool, JujuError>)
    ensures
        r is Ok <==> text_of(output.stdout@) is Some,
        r is Ok ==> r->Ok_0 == (trim(text_of(output.stdout@)->0) == "True"@),
        r is Err ==> r->Err_0 is DecodeFailure,
{
    let t = output_trimmed(output)?;
    Ok(t == owned("True"))
}

/// A `key: value` line of `action-get`: one with exactly one colon; the
/// value is trimmed.
pub open spec fn action_entry(l: Seq<char>) -> Option<(Seq<char>, Seq<char>)> {
    let p = split(l, ':');
    if p.len() == 2 {
        Some((p[0], trim(p[1])))
    } else {
        None
    }
}

/// The entries of the lines `ls` of `action-get`; other lines are skipped.
pub open spec fn action_entries(ls: Seq<Seq<char>>) -> Seq<(Seq<char>, Seq<char>)>
    decreases ls.len(),
{
    if ls.len() == 0 {
        Seq::empty()
    } else {
        let r = action_entries(ls.drop_last());
        match action_entry(ls.last()) {
            Some(e) => r.push(e),
            None => r,
        }
    }
}

/// The pieces of `p` that are not empty.
pub open spec fn drop_empty(p: Seq<Seq<char>>) -> Seq<Seq<char>>
    decreases p.len(),
{
    if p.len() == 0 {
        p
    } else {
        let r = drop_empty(p.drop_last());
        if p.last().len() == 0 {
            r
        } else {
            r.push(p.last())
        }
    }
}

/// A line of `config-get --all`: its first two non-empty colon-separated
/// pieces, as key and value.
pub open spec fn config_entry(l: Seq<char>) -> Option<(Seq<char>, Seq<char>)> {
    let p = drop_empty(split(l, ':'));
    if p.len() >= 2 {
        Some((p[0], p[1]))
    } else {
        None
    }
}

/// A line `name<sep>number` naming a unit or a relation: the name before the
/// first separator, and the number after it.
pub open spec fn relation_entry(l: Seq<char>, sep: char) -> Option<(Seq<char>, nat)> {
    let p = split(l, sep);
    if p.len() >= 2 && usize_value(p[1]) is Some {
        Some((p[0], usize_value(p[1])->0))
    } else {
        None
    }
}

/// The name of the line `l` read by `relation_entry`.
pub open spec fn entry_name(l: Seq<char>, sep: char) -> Seq<char> {
    match relation_entry(l, sep) {
        Some((name, _)) => name,
        None => Seq::empty(),
    }
}

/// The number of the line `l` read by `relation_entry`.
pub open spec fn entry_number(l: Seq<char>, sep: char) -> nat {
    match relation_entry(l, sep) {
        Some((_, n)) => n,
        None => 0,
    }
}

/// `r` holds, in order, what `relation_entry` reads from each of the lines
/// `ls`.
pub open spec fn lists_relations(r: Seq<Relation>, ls: Seq<Seq<char>>, sep: char) -> bool {
    &&& r.len() == ls.len()
    &&& forall|i: int|
        0 <= i < r.len() ==> (#[trigger] r[i]).name@ == entry_name(ls[i], sep) && r[i].id == entry_number(
            ls[i],
            sep,
        )
}

fn action_line(line: &str) -> (r: Option<(String, String)>)
    ensures
        match action_entry(line@) {
            Some(e) => r is Some && kv_row_view(r->0) == e,
            None => r is None,
        },
{
    let parts = split_on(line, ':');
    if parts.len() == 2 {
        let v = trimmed(parts[1].as_str());
        Some((parts[0].clone(), v))
    } else {
        None
    }
}

fn nonempty_pieces(parts: &Vec<String>) -> (r: Vec<String>)
    ensures
        texts(r@) == drop_empty(texts(parts@)),
{
    let ghost p = texts(parts@);
    let mut out: Vec<String> = Vec::new();
    let mut i: usize = 0;
    proof {
        assert(p.take(0) =~= Seq::<Seq<char>>::empty());
        assert(texts(out@) =~= Seq::<Seq<char>>::empty());
    }
    while i < parts.len()
        invariant
            p == texts(parts@),
            i <= parts@.len(),
            texts(out@) == drop_empty(p.take(i as int)),
        decreases parts@.len() - i,
    {
        proof {
            assert(p.take(i + 1).drop_last() =~= p.take(i as int));
            assert(p.take(i + 1).last() == parts@[i as int]@);
        }
        if parts[i].unicode_len() > 0 {
            let ghost before = texts(out@);
            out.push(parts[i].clone());
            proof {
                assert(texts(out@) =~= before.push(parts@[i as int]@));
            }
        }
        i = i + 1;
    }
    proof {
        assert(p.take(parts@.len() as int) =~= p);
    }
    out
}

fn config_line(line: &str) -> (r: Option<(String, String)>)
    ensures
        match config_entry(line@) {
            Some(e) => r is Some && kv_row_view(r->0) == e,
            None => r is None,
        },
{
    let parts = split_on(line, ':');
    let p = nonempty_pieces(&parts);
    if p.len() >= 2 {
        proof {
            assert(p@[0]@ == texts(p@)[0]);
            assert(p@[1]@ == texts(p@)[1]);
        }
        Some((p[0].clone(), p[1].clone()))
    } else {
        None
    }
}

fn relation_line(line: &str, sep: char) -> (r: Option<Relation>)
    ensures
        match relation_entry(line@, sep) {
            Some((name, n)) => r is Some && r->0.name@ == name && r->0.id == n,
            None => r is None,
        },
{
    let parts = split_on(line, sep);
    if parts.len() < 2 {
        return None;
    }
    proof {
        assert(parts@[0]@ == texts(parts@)[0]);
        assert(parts@[1]@ == texts(parts@)[1]);
    }
    match parse_usize(parts[1].as_str()) {
        Some(id) => Some(Relation { name: parts[0].clone(), id }),
        None => None,
    }
}

/// The `key: value` entries that `action-get` printed, in order.
pub fn parse_action_values(output: &CommandOutput) -> (r: Result<Vec<(String, String)>, JujuError>)
    ensures
        r is Ok <==> text_of(output.stdout@) is Some,
        r is Ok ==> r->Ok_0@.map_values(|e: (String, String)| kv_row_view(e)) == action_entries(
            lines_of(text_of(output.stdout@)->0),
        ),
        r is Err ==> r->Err_0 is DecodeFailure,
{
    let t = decoded(&output.stdout)?;
    let ls = lines(t.as_str());
    let ghost lv = texts(ls@);
    let mut out: Vec<(String, String)> = Vec::new();
    let mut i: usize = 0;
    proof {
        assert(lv.take(0) =~= Seq::<Seq<char>>::empty());
        assert(out@.map_values(|e: (String, String)| kv_row_view(e)) =~= Seq::<(Seq<char>, Seq<char>)>::empty());
    }
    while i < ls.len()
        invariant
            lv == texts(ls@),
            i <= ls@.len(),
            out@.map_values(|e: (String, String)| kv_row_view(e)) == action_entries(lv.take(i as int)),
        decreases ls@.len() - i,
    {
        proof {
            assert(lv.take(i + 1).drop_last() =~= lv.take(i as int));
            assert(lv.take(i + 1).last() == ls@[i as int]@);
        }
        if let Some(e) = action_line(ls[i].as_str()) {
            let ghost before = out@.map_values(|e: (String, String)| kv_row_view(e));
            out.push(e);
            proof {
                assert(out@.map_values(|e: (String, String)| kv_row_view(e)) =~= before.push(kv_row_view(e)));
            }
        }
        i = i + 1;
    }
    proof {
        assert(lv.take(ls@.len() as int) =~= lv);
    }
    Ok(out)
}

/// The entries that `config-get --all` printed, one for each line, in
/// order. A line without two non-empty colon-separated pieces is refused.
pub fn parse_config_values(output: &CommandOutput) -> (r: Result<Vec<(String, String)>, JujuError>)
    ensures
        r is Ok <==> text_of(output.stdout@) is Some && forall|i: int|
            0 <= i < lines_of(text_of(output.stdout@)->0).len() ==> config_entry(
                #[trigger] lines_of(text_of(output.stdout@)->0)[i],
            ) is Some,
        r is Ok ==> r->Ok_0@.map_values(|e: (String, String)| kv_row_view(e)) == lines_of(
            text_of(output.stdout@)->0,
        ).map_values(|l: Seq<char>| config_entry(l)->0),
        text_of(output.stdout@) is None ==> r is Err && r->Err_0 is DecodeFailure,
        text_of(output.stdout@) is Some && r is Err ==> r->Err_0 is ParseFailure,
{
    let t = decoded(&output.stdout)?;
    let ls = lines(t.as_str());
    let ghost lv = texts(ls@);
    let mut out: Vec<(String, String)> = Vec::new();
    let mut i: usize = 0;
    while i < ls.len()
        invariant
            lv == texts(ls@),
            lv == lines_of(t@),
            text_of(output.stdout@) is Some,
            text_of(output.stdout@)->0 == t@,
            i <= ls@.len(),
            forall|j: int| 0 <= j < i ==> config_entry(#[trigger] lv[j]) is Some,
            out@.map_values(|e: (String, String)| kv_row_view(e)) == lv.take(i as int).map_values(
                |l: Seq<char>| config_entry(l)->0,
            ),
        decreases ls@.len() - i,
    {
        proof {
            assert(lv[i as int] == ls@[i as int]@);
        }
        match config_line(ls[i].as_str()) {
            Some(e) => {
                let ghost before = out@.map_values(|e: (String, String)| kv_row_view(e));
                out.push(e);
                proof {
                    assert(out@.map_values(|e: (String, String)| kv_row_view(e)) =~= before.push(kv_row_view(e)));
                    assert(lv.take(i + 1).map_values(|l: Seq<char>| config_entry(l)->0) =~= lv.take(
                        i as int,
                    ).map_values(|l: Seq<char>| config_entry(l)->0).push(config_entry(lv[i as int])->0));
                }
            },
            None => {
                return Err(JujuError::ParseFailure(owned("config-get line without key and value")));
            },
        }
        i = i + 1;
    }
    proof {
        assert(lv.take(ls@.len() as int) =~= lv);
    }
    Ok(out)
}

/// The units or relations that a listing printed, one for each line, in
/// order: `name/number` lines where `sep` is `/`, `name:number` lines where
/// it is `:`. A line of another shape is refused.
pub fn parse_relations(output: &CommandOutput, sep: char) -> (r: Result<Vec<Relation>, JujuError>)
    ensures
        r is Ok <==> text_of(output.stdout@) is Some && forall|i: int|
            0 <= i < lines_of(text_of(output.stdout@)->0).len() ==> relation_entry(
                #[trigger] lines_of(text_of(output.stdout@)->0)[i],
                sep,
            ) is Some,
        r is Ok ==> lists_relations(r->Ok_0@, lines_of(text_of(output.stdout@)->0), sep),
        text_of(output.stdout@) is None ==> r is Err && r->Err_0 is DecodeFailure,
        text_of(output.stdout@) is Some && r is Err ==> r->Err_0 is ParseFailure,
{
    let t = decoded(&output.stdout)?;
    let ls = lines(t.as_str());
    let ghost lv = texts(ls@);
    let mut out: Vec<Relation> = Vec::new();
    let mut i: usize = 0;
    while i < ls.len()
        invariant
            lv == texts(ls@),
            lv == lines_of(t@),
            text_of(output.stdout@) is Some,
            text_of(output.stdout@)->0 == t@,
            i <= ls@.len(),
            out@.len() == i,
            forall|j: int| 0 <= j < i ==> relation_entry(#[trigger] lv[j], sep) is Some,
            forall|j: int|
                0 <= j < i ==> (#[trigger] out@[j]).name@ == entry_name(lv[j], sep) && out@[j].id
                    == entry_number(lv[j], sep),
        decreases ls@.len() - i,
    {
        proof {
            assert(lv[i as int] == ls@[i as int]@);
        }
        match relation_line(ls[i].as_str(), sep) {
            Some(e) => {
                let ghost before = out@;
                out.push(e);
                proof {
                    assert forall|j: int| 0 <= j < out@.len() implies (#[trigger] out@[j]).name@ == entry_name(
                        lv.take(i + 1)[j],
                        sep,
                    ) && out@[j].id == entry_number(lv.take(i + 1)[j], sep) by {
                        if j < i {
                            assert(out@[j] == before[j]);
                            assert(lv.take(i + 1)[j] == lv.take(i as int)[j]);
                        }
                    }
                }
            },
            None => {
                return Err(JujuError::ParseFailure(owned("listing line without name and number")));
            },
        }
        i = i + 1;
    }
    proof {
        assert(lv.take(ls@.len() as int) =~= lv);
    }
    Ok(out)
}

/// The units that `relation-list` printed, one `name/number` for each line.
pub fn parse_units(output: &CommandOutput) -> (r: Result<Vec<Relation>, JujuError>)
    ensures
        r is Ok <==> text_of(output.stdout@) is Some && forall|i: int|
            0 <= i < lines_of(text_of(output.stdout@)->0).len() ==> relation_entry(
                #[trigger] lines_of(text_of(output.stdout@)->0)[i],
                '/',
            ) is Some,
        r is Ok ==> lists_relations(r->Ok_0@, lines_of(text_of(output.stdout@)->0), '/'),
        text_of(output.stdout@) is None ==> r is Err && r->Err_0 is DecodeFailure,
        text_of(output.stdout@) is Some && r is Err ==> r->Err_0 is ParseFailure,
{
    parse_relations(output, '/')
}

/// The relation ids that `relation-ids` printed, one `name:number` for each
/// line.
pub fn parse_relation_ids(output: &CommandOutput) -> (r: Result<Vec<Relation>, JujuError>)
    ensures
        r is Ok <==> text_of(output.stdout@) is Some && forall|i: int|
            0 <= i < lines_of(text_of(output.stdout@)->0).len() ==> relation_entry(
                #[trigger] lines_of(text_of(output.stdout@)->0)[i],
                ':',
            ) is Some,
        r is Ok ==> lists_relations(r->Ok_0@, lines_of(text_of(output.stdout@)->0), ':'),
        text_of(output.stdout@) is None ==> r is Err && r->Err_0 is DecodeFailure,
        text_of(output.stdout@) is Some && r is Err ==> r->Err_0 is ParseFailure,
{
    parse_relations(output, ':')
}

} // verus!
