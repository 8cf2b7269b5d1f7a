//! The unit's key-value store: current values, the revision history of the
//! values written while a hook ran, and the log of those hook runs.
//!
//! Values are held as JSON text. The three tables are held in memory; reading
//! them from the backing file and writing them back is left to the caller,
//! through `restore_value`, `restore_hook`, `restore_revision` and the
//! `entries`, `revision_entries` and `hook_entries` accessors.
use vstd::prelude::*;

use crate::error::JujuError;
use crate::table::{
    has_key, keys_unique, lemma_table_index, lemma_table_push, lemma_table_remove,
    lemma_table_take, lemma_take_all, table_view,
};
use crate::text::{joined, owned, piece, starts_with};

verus! {

/// Whether the text is one well-formed JSON value.
pub uninterp spec fn is_json(text: Seq<char>) -> bool;

/// Relies on serde_json::from_str into serde_json::Value: it succeeds exactly
/// on text that holds one JSON value.
#[verifier::external_body]
fn parses_as_json(text: &str) -> (r: bool)
    ensures
        r == is_json(text@),
{
    serde_json::from_str::<serde_json::Value>(text).is_ok()
}

/// Relies on chrono::Utc::now and DateTime::to_rfc3339: the time now, as
/// RFC 3339 text. Nothing is known of it beforehand.
#[verifier::external_body]
fn utc_now() -> (r: String) {
    chrono::Utc::now().to_rfc3339()
}

/// The payload recorded in the history when a key is removed: the JSON
/// string `"DELETED"`.
pub open spec fn deleted_marker() -> Seq<char> {
    seq!['"', 'D', 'E', 'L', 'E', 'T', 'E', 'D', '"']
}

fn deleted_text() -> (r: String)
    ensures
        r@ == deleted_marker(),
{
    let s = owned("\"DELETED\"");
    proof {
        reveal_strlit("\"DELETED\"");
    }
    assert(s@ =~= deleted_marker());
    s
}

/// The history key under which a removal by prefix is recorded.
pub open spec fn prefix_pattern(prefix: Seq<char>) -> Seq<char> {
    prefix.push('%')
}

/// One row of the revision history: the value that `key` took in `revision`.
#[derive(Debug, Clone)]
pub struct RevisionRow {
    pub key: String,
    pub revision: u32,
    pub data: String,
}

/// One run of a hook that opened a revision.
#[derive(Debug, Clone)]
pub struct HookRecord {
    pub version: u32,
    pub hook: String,
    pub date: String,
}

/// One change of a key, with the hook run in which it was made.
#[derive(Debug, Clone)]
pub struct History {
    pub data: String,
    pub date: String,
    pub hook: String,
    pub key: String,
    pub revision: u32,
}

/// A record of named slots.
#[derive(Debug, Clone)]
pub struct Record {
    pub slots: Vec<(String, String)>,
}

/// A connection to the unit's key-value data.
#[derive(Debug)]
pub struct Storage {
    kv: Vec<(String, String)>,
    revisions: Vec<RevisionRow>,
    hooks: Vec<HookRecord>,
    revision: Option<u32>,
}

pub open spec fn kv_row_view(r: (String, String)) -> (Seq<char>, Seq<char>) {
    (r.0@, r.1@)
}

pub open spec fn revision_row_view(r: RevisionRow) -> ((Seq<char>, u32), Seq<char>) {
    ((r.key@, r.revision), r.data@)
}

pub open spec fn hook_record_view(h: HookRecord) -> (u32, Seq<char>, Seq<char>) {
    (h.version, h.hook@, h.date@)
}

/// A history entry as (revision, hook, date, data).
pub open spec fn history_view(h: History) -> (u32, Seq<char>, Seq<char>, Seq<char>) {
    (h.revision, h.hook@, h.date@, h.data@)
}

/// Some run in the log carries version `v`.
pub open spec fn is_logged(log: Seq<(u32, Seq<char>, Seq<char>)>, v: u32) -> bool {
    exists|j: int| 0 <= j < log.len() && (#[trigger] log[j]).0 == v
}

/// The history of `key`: one entry for each hook run, in the order of the
/// log, in which the key was written.
pub open spec fn history_of(
    hooks: Seq<(u32, Seq<char>, Seq<char>)>,
    revisions: Map<(Seq<char>, u32), Seq<char>>,
    key: Seq<char>,
) -> Seq<(u32, Seq<char>, Seq<char>, Seq<char>)>
    decreases hooks.len(),
{
    if hooks.len() == 0 {
        Seq::empty()
    } else {
        let earlier = history_of(hooks.drop_last(), revisions, key);
        let h = hooks.last();
        if revisions.contains_key((key, h.0)) {
            earlier.push((h.0, h.1, h.2, revisions[(key, h.0)]))
        } else {
            earlier
        }
    }
}

/// The listed keys of a removal, as text.
pub open spec fn keys_view(keys: Option<Vec<String>>) -> Option<Seq<Seq<char>>> {
    match keys {
        Some(ks) => Some(ks@.map_values(|k: String| k@)),
        None => None,
    }
}

/// A prefix that may be absent, the absent one being empty.
pub open spec fn prefix_view(prefix: Option<String>) -> Seq<char> {
    match prefix {
        Some(p) => p@,
        None => Seq::empty(),
    }
}

/// Whether a removal selects `k`: the listed keys where a list is given,
/// else the keys that begin with `prefix`.
pub open spec fn selects(keys: Option<Seq<Seq<char>>>, prefix: Seq<char>, k: Seq<char>) -> bool {
    match keys {
        Some(ks) => ks.contains(k),
        None => prefix.is_prefix_of(k),
    }
}

/// `m` without the keys that a removal selects.
pub open spec fn without_selected(
    m: Map<Seq<char>, Seq<char>>,
    keys: Option<Seq<Seq<char>>>,
    prefix: Seq<char>,
) -> Map<Seq<char>, Seq<char>> {
    Map::new(|k: Seq<char>| m.contains_key(k) && !selects(keys, prefix, k), |k: Seq<char>| m[k])
}

proof fn lemma_without_selected_insert(
    m: Map<Seq<char>, Seq<char>>,
    keys: Option<Seq<Seq<char>>>,
    prefix: Seq<char>,
    k: Seq<char>,
    v: Seq<char>,
)
    ensures
        without_selected(m.insert(k, v), keys, prefix) == (if selects(keys, prefix, k) {
            without_selected(m, keys, prefix)
        } else {
            without_selected(m, keys, prefix).insert(k, v)
        }),
{
    let a = without_selected(m.insert(k, v), keys, prefix);
    let b = if selects(keys, prefix, k) {
        without_selected(m, keys, prefix)
    } else {
        without_selected(m, keys, prefix).insert(k, v)
    };
    assert forall|x: Seq<char>| #[trigger] a.contains_key(x) <==> b.contains_key(x) by {}
    assert forall|x: Seq<char>| #[trigger] a.contains_key(x) implies a[x] == b[x] by {}
    assert(a =~= b);
}

/// How many of `rows` a removal selects.
pub open spec fn count_selected(
    rows: Seq<(Seq<char>, Seq<char>)>,
    keys: Option<Seq<Seq<char>>>,
    prefix: Seq<char>,
) -> nat
    decreases rows.len(),
{
    if rows.len() == 0 {
        0
    } else {
        count_selected(rows.drop_last(), keys, prefix) + if selects(keys, prefix, rows.last().0) {
            1nat
        } else {
            0nat
        }
    }
}

/// The values of `m` whose keys begin with `prefix`, with the prefix cut off
/// the keys where `strip` holds.
pub open spec fn range_view(m: Map<Seq<char>, Seq<char>>, prefix: Seq<char>, strip: bool) -> Map<
    Seq<char>,
    Seq<char>,
> {
    if strip {
        Map::new(|k: Seq<char>| m.contains_key(prefix + k), |k: Seq<char>| m[prefix + k])
    } else {
        Map::new(|k: Seq<char>| prefix.is_prefix_of(k) && m.contains_key(k), |k: Seq<char>| m[k])
    }
}

/// `m` after setting each of `entries`, in order, under its key with
/// `prefix` put before it.
pub open spec fn updated_values(
    m: Map<Seq<char>, Seq<char>>,
    entries: Seq<(Seq<char>, Seq<char>)>,
    prefix: Seq<char>,
) -> Map<Seq<char>, Seq<char>>
    decreases entries.len(),
{
    if entries.len() == 0 {
        m
    } else {
        updated_values(m, entries.drop_last(), prefix).insert(prefix + entries.last().0, entries.last().1)
    }
}

/// The revision history `m` after recording each of `entries` in revision
/// `v`, under its key with `prefix` put before it.
pub open spec fn updated_revisions(
    m: Map<(Seq<char>, u32), Seq<char>>,
    entries: Seq<(Seq<char>, Seq<char>)>,
    prefix: Seq<char>,
    v: u32,
) -> Map<(Seq<char>, u32), Seq<char>>
    decreases entries.len(),
{
    if entries.len() == 0 {
        m
    } else {
        updated_revisions(m, entries.drop_last(), prefix, v).insert(
            (prefix + entries.last().0, v),
            entries.last().1,
        )
    }
}

/// Whether a removal selects `k`.
fn is_selected(keys: &Option<Vec<String>>, prefix: &str, k: &String) -> (r: bool)
    ensures
        r == selects(keys_view(*keys), prefix@, k@),
{
    match keys {
        Some(ks) => {
            let ghost kv = ks@.map_values(|x: String| x@);
            assert(keys_view(*keys) == Some(kv));
            let mut j: usize = 0;
            while j < ks.len()
                invariant
                    j <= ks@.len(),
                    kv == ks@.map_values(|x: String| x@),
                    keys_view(*keys) == Some(kv),
                    forall|a: int| 0 <= a < j ==> kv[a] != k@,
                decreases ks@.len() - j,
            {
                if ks[j] == *k {
                    assert(kv[j as int] == k@);
                    assert(kv.contains(k@));
                    return true;
                }
                j = j + 1;
            }
            false
        },
        None => starts_with(k.as_str(), prefix),
    }
}

impl Storage {
    /// The rows of the current-value table, in storage order.
    pub closed spec fn kv_rows(&self) -> Seq<(Seq<char>, Seq<char>)> {
        self.kv@.map_values(|r: (String, String)| kv_row_view(r))
    }

    /// The current values, by key.
    pub open spec fn kv_view(&self) -> Map<Seq<char>, Seq<char>> {
        table_view(self.kv_rows())
    }

    /// The rows of the revision table.
    pub closed spec fn revision_rows(&self) -> Seq<((Seq<char>, u32), Seq<char>)> {
        self.revisions@.map_values(|r: RevisionRow| revision_row_view(r))
    }

    /// The revision history, by key and revision.
    pub open spec fn revision_view(&self) -> Map<(Seq<char>, u32), Seq<char>> {
        table_view(self.revision_rows())
    }

    /// The log of hook runs, as (version, hook, date), oldest first.
    pub closed spec fn hook_log(&self) -> Seq<(u32, Seq<char>, Seq<char>)> {
        self.hooks@.map_values(|h: HookRecord| hook_record_view(h))
    }

    /// The revision that writes are recorded under, if one is open.
    pub closed spec fn active_revision(&self) -> Option<u32> {
        self.revision
    }

    /// The version that the next hook run will be given.
    pub open spec fn next_version(&self) -> int {
        if self.hook_log().len() == 0 {
            1
        } else {
            self.hook_log().last().0 + 1
        }
    }

    /// Keys are unique in each table, versions grow along the log, every
    /// revision row belongs to a logged hook run, and the open revision is
    /// the latest run.
    pub closed spec fn wf(&self) -> bool {
        let log = self.hook_log();
        &&& keys_unique(self.kv_rows())
        &&& keys_unique(self.revision_rows())
        &&& forall|i: int, j: int| 0 <= i < j < log.len() ==> #[trigger] log[i].0 < #[trigger] log[j].0
        &&& forall|i: int|
            0 <= i < self.revision_rows().len() ==> is_logged(log, (#[trigger] self.revision_rows()[i]).0.1)
        &&& match self.revision {
            Some(v) => log.len() > 0 && v == log.last().0,
            None => true,
        }
    }

    /// Replacing the current values by others with unique keys keeps the
    /// store well formed.
    proof fn lemma_wf_new_values(a: Storage, b: Storage)
        requires
            a.wf(),
            keys_unique(b.kv_rows()),
            b.revisions == a.revisions,
            b.hooks == a.hooks,
            b.revision == a.revision,
        ensures
            b.wf(),
    {
        assert(b.revision_rows() == a.revision_rows());
        assert(b.hook_log() == a.hook_log());
    }

    /// An empty store with no revision open.
    pub fn new() -> (s: Storage)
        ensures
            s.wf(),
            s.kv_view() == Map::<Seq<char>, Seq<char>>::empty(),
            s.revision_view() == Map::<(Seq<char>, u32), Seq<char>>::empty(),
            s.hook_log() == Seq::<(u32, Seq<char>, Seq<char>)>::empty(),
            s.active_revision() is None,
    {
        let s = Storage { kv: Vec::new(), revisions: Vec::new(), hooks: Vec::new(), revision: None };
        assert(s.kv_rows() =~= Seq::empty());
        assert(s.revision_rows() =~= Seq::empty());
        assert(s.hook_log() =~= Seq::empty());
        assert(s.kv_view() =~= Map::empty());
        assert(s.revision_view() =~= Map::empty());
        s
    }

    fn kv_position(&self, key: &str) -> (r: Option<usize>)
        requires
            self.wf(),
        ensures
            match r {
                Some(i) => i < self.kv_rows().len() && self.kv_rows()[i as int].0 == key@,
                None => !has_key(self.kv_rows(), key@),
            },
    {
        let k = owned(key);
        let mut i: usize = 0;
        while i < self.kv.len()
            invariant
                i <= self.kv@.len(),
                k@ == key@,
                forall|j: int| 0 <= j < i ==> (#[trigger] self.kv_rows()[j]).0 != key@,
            decreases self.kv@.len() - i,
        {
            if self.kv[i].0 == k {
                return Some(i);
            }
            i = i + 1;
        }
        None
    }

    fn revision_position(&self, key: &str, revision: u32) -> (r: Option<usize>)
        requires
            self.wf(),
        ensures
            match r {
                Some(i) => i < self.revision_rows().len() && self.revision_rows()[i as int].0 == (key@, revision),
                None => !has_key(self.revision_rows(), (key@, revision)),
            },
    {
        let k = owned(key);
        let mut i: usize = 0;
        while i < self.revisions.len()
            invariant
                i <= self.revisions@.len(),
                k@ == key@,
                forall|j: int| 0 <= j < i ==> (#[trigger] self.revision_rows()[j]).0 != (key@, revision),
            decreases self.revisions@.len() - i,
        {
            if self.revisions[i].revision == revision && self.revisions[i].key == k {
                return Some(i);
            }
            i = i + 1;
        }
        None
    }

    /// Sets `key` to `data` in the current-value table alone.
    fn put_value(&mut self, key: &str, data: &str)
        requires
            old(self).wf(),
        ensures
            final(self).wf(),
            final(self).kv_view() == old(self).kv_view().insert(key@, data@),
            final(self).revision_rows() == old(self).revision_rows(),
            final(self).hook_log() == old(self).hook_log(),
            final(self).active_revision() == old(self).active_revision(),
    {
        let pos = self.kv_position(key);
        let ghost rows0 = self.kv_rows();
        if let Some(i) = pos {
            self.kv.remove(i);
            proof {
                lemma_table_remove(rows0, i as int);
                assert(self.kv_rows() =~= rows0.remove(i as int));
            }
        }
        let ghost rows1 = self.kv_rows();
        proof {
            if has_key(rows1, key@) {
                let j = choose|j: int| 0 <= j < rows1.len() && (#[trigger] rows1[j]).0 == key@;
                lemma_table_index(rows1, j);
                if let Some(i) = pos {
                    assert(!table_view(rows0).remove(rows0[i as int].0).contains_key(key@));
                }
            }
        }
        self.kv.push((owned(key), owned(data)));
        proof {
            assert(self.kv_rows() =~= rows1.push((key@, data@)));
            lemma_table_push(rows1, key@, data@);
            assert(self.kv_view() =~= table_view(rows0).insert(key@, data@));
            Self::lemma_wf_new_values(*old(self), *self);
        }
    }

    /// Records `data` as the value of `key` in `revision`.
    fn put_revision(&mut self, key: &str, revision: u32, data: &str)
        requires
            old(self).wf(),
            is_logged(old(self).hook_log(), revision),
        ensures
            final(self).wf(),
            final(self).revision_view() == old(self).revision_view().insert((key@, revision), data@),
            final(self).kv_rows() == old(self).kv_rows(),
            final(self).hook_log() == old(self).hook_log(),
            final(self).active_revision() == old(self).active_revision(),
    {
        let pos = self.revision_position(key, revision);
        let ghost rows0 = self.revision_rows();
        let ghost log = self.hook_log();
        if let Some(i) = pos {
            self.revisions.remove(i);
            proof {
                lemma_table_remove(rows0, i as int);
                assert(self.revision_rows() =~= rows0.remove(i as int));
                assert forall|a: int| 0 <= a < self.revision_rows().len() implies is_logged(
                    log,
                    (#[trigger] self.revision_rows()[a]).0.1,
                ) by {
                    let a1 = if a < i { a } else { a + 1 };
                    assert(self.revision_rows()[a] == rows0[a1]);
                }
            }
        }
        let ghost rows1 = self.revision_rows();
        proof {
            if has_key(rows1, (key@, revision)) {
                let j = choose|j: int| 0 <= j < rows1.len() && (#[trigger] rows1[j]).0 == (key@, revision);
                lemma_table_index(rows1, j);
                if let Some(i) = pos {
                    assert(!table_view(rows0).remove(rows0[i as int].0).contains_key((key@, revision)));
                }
            }
        }
        self.revisions.push(RevisionRow { key: owned(key), revision, data: owned(data) });
        proof {
            let row = ((key@, revision), data@);
            assert(self.revision_rows() =~= rows1.push(row));
            lemma_table_push(rows1, (key@, revision), data@);
            assert(self.revision_view() =~= table_view(rows0).insert((key@, revision), data@));
            assert forall|a: int| 0 <= a < self.revision_rows().len() implies is_logged(
                log,
                (#[trigger] self.revision_rows()[a]).0.1,
            ) by {
                if a < rows1.len() {
                    assert(self.revision_rows()[a] == rows1[a]);
                }
            }
        }
    }

    /// The JSON text stored under `key`, or `None` where the key is absent.
    pub fn get(&self, key: &str) -> (r: Option<String>)
        requires
            self.wf(),
        ensures
            r is Some <==> self.kv_view().contains_key(key@),
            r is Some ==> r->0@ == self.kv_view()[key@],
    {
        match self.kv_position(key) {
            Some(i) => {
                proof {
                    lemma_table_index(self.kv_rows(), i as int);
                }
                Some(self.kv[i].1.clone())
            },
            None => None,
        }
    }

    /// Sets `key` to the JSON text `data`. While a revision is open the value
    /// is also recorded as the key's value in that revision, replacing an
    /// earlier write of the same key in the same revision. Text that is not
    /// JSON is refused and nothing changes.
    pub fn set(&mut self, key: &str, data: &str) -> (r: Result<(), JujuError>)
        requires
            old(self).wf(),
        ensures
            final(self).wf(),
            r is Ok <==> is_json(data@),
            r is Err ==> r->Err_0 is DecodeFailure,
            final(self).kv_view() == (if r is Ok {
                old(self).kv_view().insert(key@, data@)
            } else {
                old(self).kv_view()
            }),
            final(self).revision_view() == (match old(self).active_revision() {
                Some(v) if r is Ok => old(self).revision_view().insert((key@, v), data@),
                _ => old(self).revision_view(),
            }),
            final(self).hook_log() == old(self).hook_log(),
            final(self).active_revision() == old(self).active_revision(),
    {
        if !parses_as_json(data) {
            return Err(JujuError::DecodeFailure(owned("value is not JSON text")));
        }
        self.put_value(key, data);
        if let Some(v) = self.revision {
            proof {
                assert(self.hook_log()[self.hook_log().len() - 1].0 == v);
            }
            self.put_revision(key, v, data);
        }
        Ok(())
    }

    /// Removes `key` from the current values. While a revision is open and a
    /// row was removed, the removal is recorded in that revision.
    pub fn unset(&mut self, key: &str)
        requires
            old(self).wf(),
        ensures
            final(self).wf(),
            final(self).kv_view() == old(self).kv_view().remove(key@),
            final(self).revision_view() == (match old(self).active_revision() {
                Some(v) if old(self).kv_view().contains_key(key@) => old(self).revision_view().insert(
                    (key@, v),
                    deleted_marker(),
                ),
                _ => old(self).revision_view(),
            }),
            final(self).hook_log() == old(self).hook_log(),
            final(self).active_revision() == old(self).active_revision(),
    {
        let ghost rows0 = self.kv_rows();
        match self.kv_position(key) {
            Some(i) => {
                self.kv.remove(i);
                proof {
                    lemma_table_index(rows0, i as int);
                    lemma_table_remove(rows0, i as int);
                    assert(self.kv_rows() =~= rows0.remove(i as int));
                    Self::lemma_wf_new_values(*old(self), *self);
                }
                if let Some(v) = self.revision {
                    proof {
                        assert(self.hook_log()[self.hook_log().len() - 1].0 == v);
                    }
                    let marker = deleted_text();
                    self.put_revision(key, v, marker.as_str());
                }
            },
            None => {
                proof {
                    assert(old(self).kv_view().remove(key@) =~= old(self).kv_view());
                }
            },
        }
    }

    /// The recorded changes of `key`: one entry for each hook run in which the
    /// key was written or removed, in the order of the runs.
    pub fn gethistory(&self, key: &str) -> (r: Vec<History>)
        requires
            self.wf(),
        ensures
            r@.map_values(|h: History| history_view(h)) == history_of(
                self.hook_log(),
                self.revision_view(),
                key@,
            ),
            forall|j: int| 0 <= j < r@.len() ==> (#[trigger] r@[j]).key@ == key@,
    {
        let mut out: Vec<History> = Vec::new();
        let mut i: usize = 0;
        while i < self.hooks.len()
            invariant
                self.wf(),
                i <= self.hooks@.len(),
                out@.map_values(|h: History| history_view(h)) == history_of(
                    self.hook_log().take(i as int),
                    self.revision_view(),
                    key@,
                ),
                forall|j: int| 0 <= j < out@.len() ==> (#[trigger] out@[j]).key@ == key@,
            decreases self.hooks@.len() - i,
        {
            let version = self.hooks[i].version;
            let ghost log = self.hook_log();
            proof {
                assert(log.take(i + 1).drop_last() =~= log.take(i as int));
                assert(log.take(i + 1).last() == log[i as int]);
            }
            match self.revision_position(key, version) {
                Some(p) => {
                    proof {
                        lemma_table_index(self.revision_rows(), p as int);
                    }
                    let h = History {
                        data: self.revisions[p].data.clone(),
                        date: self.hooks[i].date.clone(),
                        hook: self.hooks[i].hook.clone(),
                        key: owned(key),
                        revision: version,
                    };
                    let ghost before = out@;
                    out.push(h);
                    proof {
                        assert(out@.map_values(|h: History| history_view(h)) =~= before.map_values(
                            |h: History| history_view(h),
                        ).push(history_view(h)));
                    }
                },
                None => {},
            }
            i = i + 1;
        }
        proof {
            assert(self.hook_log().take(self.hooks@.len() as int) =~= self.hook_log());
        }
        out
    }

    /// The revision that writes are recorded under, if one is open.
    pub fn revision(&self) -> (r: Option<u32>)
        ensures
            r == self.active_revision(),
    {
        self.revision
    }

    /// Opens a revision for a run of the hook `hook` that started at `date`:
    /// the run is logged under the next version, and until the revision is
    /// closed every write is also recorded under it. Nothing happens, and
    /// `None` is returned, where a revision is already open or no version is
    /// left.
    pub fn open_revision_at(&mut self, hook: &str, date: &str) -> (r: Option<u32>)
        requires
            old(self).wf(),
        ensures
            final(self).wf(),
            r is Some <==> (old(self).active_revision() is None && old(self).next_version() <= u32::MAX),
            final(self).active_revision() == (if r is Some {
                r
            } else {
                old(self).active_revision()
            }),
            r is Some ==> r->0 == old(self).next_version(),
            final(self).hook_log() == (if r is Some {
                old(self).hook_log().push((r->0, hook@, date@))
            } else {
                old(self).hook_log()
            }),
            final(self).kv_view() == old(self).kv_view(),
            final(self).revision_view() == old(self).revision_view(),
    {
        if self.revision.is_some() {
            return None;
        }
        let n = self.hooks.len();
        let version: u32 = if n == 0 {
            1
        } else {
            let last = self.hooks[n - 1].version;
            if last == u32::MAX {
                return None;
            }
            last + 1
        };
        let ghost log0 = self.hook_log();
        self.hooks.push(HookRecord { version, hook: owned(hook), date: owned(date) });
        self.revision = Some(version);
        proof {
            let log = self.hook_log();
            assert(log =~= log0.push((version, hook@, date@)));
            assert forall|a: int, b: int| 0 <= a < b < log.len() implies #[trigger] log[a].0 < #[trigger] log[b].0 by {
                if b == log.len() - 1 && a < b - 1 {
                    assert(log0[a].0 < log0[b - 1].0);
                }
            }
            assert forall|a: int| 0 <= a < self.revision_rows().len() implies is_logged(
                log,
                (#[trigger] self.revision_rows()[a]).0.1,
            ) by {
                let v = self.revision_rows()[a].0.1;
                assert(is_logged(log0, v));
                let j = choose|j: int| 0 <= j < log0.len() && (#[trigger] log0[j]).0 == v;
                assert(log[j] == log0[j]);
            }
        }
        Some(version)
    }

    /// Closes the open revision, if any: later writes touch the current values
    /// alone.
    pub fn close_revision(&mut self)
        requires
            old(self).wf(),
        ensures
            final(self).wf(),
            final(self).active_revision() is None,
            final(self).hook_log() == old(self).hook_log(),
            final(self).kv_view() == old(self).kv_view(),
            final(self).revision_view() == old(self).revision_view(),
    {
        self.revision = None;
    }

    /// The rows of the current-value table, for writing them back.
    pub fn entries(&self) -> (r: &Vec<(String, String)>)
        ensures
            r@.map_values(|e: (String, String)| kv_row_view(e)) == self.kv_rows(),
    {
        &self.kv
    }

    /// The rows of the revision table, for writing them back.
    pub fn revision_entries(&self) -> (r: &Vec<RevisionRow>)
        ensures
            r@.map_values(|e: RevisionRow| revision_row_view(e)) == self.revision_rows(),
    {
        &self.revisions
    }

    /// The log of hook runs, for writing it back.
    pub fn hook_entries(&self) -> (r: &Vec<HookRecord>)
        ensures
            r@.map_values(|e: HookRecord| hook_record_view(e)) == self.hook_log(),
    {
        &self.hooks
    }

    /// Loads a current value read from the backing file.
    pub fn restore_value(&mut self, key: &str, data: &str)
        requires
            old(self).wf(),
        ensures
            final(self).wf(),
            final(self).kv_view() == old(self).kv_view().insert(key@, data@),
            final(self).revision_view() == old(self).revision_view(),
            final(self).hook_log() == old(self).hook_log(),
            final(self).active_revision() == old(self).active_revision(),
    {
        self.put_value(key, data);
    }

    /// Loads a logged hook run read from the backing file. It is taken only
    /// while no revision is open and where its version is above every logged
    /// one.
    pub fn restore_hook(&mut self, version: u32, hook: &str, date: &str) -> (r: bool)
        requires
            old(self).wf(),
        ensures
            final(self).wf(),
            r <==> (old(self).active_revision() is None && version >= old(self).next_version()),
            final(self).hook_log() == (if r {
                old(self).hook_log().push((version, hook@, date@))
            } else {
                old(self).hook_log()
            }),
            final(self).kv_view() == old(self).kv_view(),
            final(self).revision_view() == old(self).revision_view(),
            final(self).active_revision() == old(self).active_revision(),
    {
        if self.revision.is_some() {
            return false;
        }
        let n = self.hooks.len();
        if n == 0 && version == 0 {
            return false;
        }
        if n > 0 && version <= self.hooks[n - 1].version {
            return false;
        }
        let ghost log0 = self.hook_log();
        self.hooks.push(HookRecord { version, hook: owned(hook), date: owned(date) });
        proof {
            let log = self.hook_log();
            assert(log =~= log0.push((version, hook@, date@)));
            assert forall|a: int, b: int| 0 <= a < b < log.len() implies #[trigger] log[a].0 < #[trigger] log[b].0 by {
                if b == log.len() - 1 && a < b - 1 {
                    assert(log0[a].0 < log0[b - 1].0);
                }
            }
            assert forall|a: int| 0 <= a < self.revision_rows().len() implies is_logged(
                log,
                (#[trigger] self.revision_rows()[a]).0.1,
            ) by {
                let v = self.revision_rows()[a].0.1;
                assert(is_logged(log0, v));
                let j = choose|j: int| 0 <= j < log0.len() && (#[trigger] log0[j]).0 == v;
                assert(log[j] == log0[j]);
            }
        }
        true
    }

    /// Loads a revision row read from the backing file. It is taken only where
    /// a logged run carries its revision.
    pub fn restore_revision(&mut self, key: &str, revision: u32, data: &str) -> (r: bool)
        requires
            old(self).wf(),
        ensures
            final(self).wf(),
            r <==> is_logged(old(self).hook_log(), revision),
            final(self).revision_view() == (if r {
                old(self).revision_view().insert((key@, revision), data@)
            } else {
                old(self).revision_view()
            }),
            final(self).kv_view() == old(self).kv_view(),
            final(self).hook_log() == old(self).hook_log(),
            final(self).active_revision() == old(self).active_revision(),
    {
        let mut i: usize = 0;
        while i < self.hooks.len()
            invariant
                *self == *old(self),
                self.wf(),
                i <= self.hooks@.len(),
                forall|j: int| 0 <= j < i ==> (#[trigger] self.hook_log()[j]).0 != revision,
            decreases self.hooks@.len() - i,
        {
            if self.hooks[i].version == revision {
                proof {
                    assert(self.hook_log()[i as int].0 == revision);
                }
                self.put_revision(key, revision, data);
                return true;
            }
            i = i + 1;
        }
        false
    }

    /// Removes the listed keys, or where no list is given every key that
    /// begins with `prefix` (all keys where that is absent or empty), and
    /// returns how many rows were removed. While a revision is open and a row
    /// was removed, the removal is recorded in that revision: under each
    /// listed key, or under the prefix followed by `%`.
    pub fn unsetrange(&mut self, keys: Option<Vec<String>>, prefix: Option<String>) -> (r: usize)
        requires
            old(self).wf(),
        ensures
            final(self).wf(),
            r == count_selected(old(self).kv_rows(), keys_view(keys), prefix_view(prefix)),
            final(self).kv_view() == without_selected(old(self).kv_view(), keys_view(keys), prefix_view(prefix)),
            final(self).revision_view() == (match (old(self).active_revision(), keys_view(keys)) {
                (Some(v), Some(ks)) if r > 0 => old(self).revision_view().union_prefer_right(
                    Map::new(
                        |e: (Seq<char>, u32)| e.1 == v && ks.contains(e.0),
                        |e: (Seq<char>, u32)| deleted_marker(),
                    ),
                ),
                (Some(v), None) if r > 0 => old(self).revision_view().insert(
                    (prefix_pattern(prefix_view(prefix)), v),
                    deleted_marker(),
                ),
                _ => old(self).revision_view(),
            }),
            final(self).hook_log() == old(self).hook_log(),
            final(self).active_revision() == old(self).active_revision(),
    {
        let p: String = match &prefix {
            Some(s) => s.clone(),
            None => String::new(),
        };
        let ghost ks = keys_view(keys);
        let ghost pv = prefix_view(prefix);
        let ghost rows = self.kv_rows();
        let mut kept: Vec<(String, String)> = Vec::new();
        let mut count: usize = 0;
        let mut i: usize = 0;
        while i < self.kv.len()
            invariant
                *self == *old(self),
                self.wf(),
                rows == self.kv_rows(),
                ks == keys_view(keys),
                pv == prefix_view(prefix),
                p@ == pv,
                i <= self.kv@.len(),
                count <= i,
                count == count_selected(rows.take(i as int), ks, pv),
                keys_unique(kept@.map_values(|e: (String, String)| kv_row_view(e))),
                table_view(kept@.map_values(|e: (String, String)| kv_row_view(e))) == without_selected(
                    table_view(rows.take(i as int)),
                    ks,
                    pv,
                ),
            decreases self.kv@.len() - i,
        {
            let ghost t = table_view(rows.take(i as int));
            let ghost kview = kept@.map_values(|e: (String, String)| kv_row_view(e));
            proof {
                lemma_table_take(rows, i as int);
                assert(rows.take(i + 1).drop_last() =~= rows.take(i as int));
                assert(rows[i as int] == kv_row_view(self.kv@[i as int]));
            }
            let sel = is_selected(&keys, p.as_str(), &self.kv[i].0);
            if sel {
                count = count + 1;
                proof {
                    lemma_without_selected_insert(t, ks, pv, rows[i as int].0, rows[i as int].1);
                }
            } else {
                let e = (self.kv[i].0.clone(), self.kv[i].1.clone());
                kept.push(e);
                proof {
                    if has_key(kview, rows[i as int].0) {
                        let a = choose|a: int| 0 <= a < kview.len() && (#[trigger] kview[a]).0 == rows[i as int].0;
                        assert(table_view(kview).contains_key(rows[i as int].0));
                        assert(has_key(rows.take(i as int), rows[i as int].0));
                    }
                    lemma_table_push(kview, rows[i as int].0, rows[i as int].1);
                    assert(kept@.map_values(|e: (String, String)| kv_row_view(e)) =~= kview.push(
                        rows[i as int],
                    ));
                    lemma_without_selected_insert(t, ks, pv, rows[i as int].0, rows[i as int].1);
                }
            }
            i = i + 1;
        }
        proof {
            lemma_take_all(rows);
        }
        self.kv = kept;
        proof {
            Self::lemma_wf_new_values(*old(self), *self);

        }
        if count > 0 {
            if let Some(v) = self.revision {
                proof {
                    assert(self.hook_log()[self.hook_log().len() - 1].0 == v);
                }
                let marker = deleted_text();
                match &keys {
                    Some(list) => {
                        let ghost lv = list@.map_values(|x: String| x@);
                        let ghost r0 = self.revision_view();
                        let mut j: usize = 0;
                        while j < list.len()
                            invariant
                                self.wf(),
                                j <= list@.len(),
                                lv == list@.map_values(|x: String| x@),
                                marker@ == deleted_marker(),
                                is_logged(self.hook_log(), v),
                                self.hook_log() == old(self).hook_log(),
                                self.kv_rows() == kept@.map_values(|e: (String, String)| kv_row_view(e)),
                                self.active_revision() == Some(v),
                                self.revision_view() == r0.union_prefer_right(
                                    Map::new(
                                        |e: (Seq<char>, u32)| e.1 == v && lv.take(j as int).contains(e.0),
                                        |e: (Seq<char>, u32)| deleted_marker(),
                                    ),
                                ),
                            decreases list@.len() - j,
                        {
                            let ghost before = self.revision_view();
                            self.put_revision(list[j].as_str(), v, marker.as_str());
                            proof {
                                assert(lv[j as int] == list@[j as int]@);
                                assert forall|x: Seq<char>| #[trigger] lv.take(j + 1).contains(x) <==> (
                                lv.take(j as int).contains(x) || x == lv[j as int]) by {
                                    if lv.take(j + 1).contains(x) {
                                        let a = choose|a: int| 0 <= a < j + 1 && #[trigger] lv.take(j + 1)[a] == x;
                                        if a < j {
                                            assert(lv.take(j as int)[a] == x);
                                        }
                                    }
                                    if lv.take(j as int).contains(x) {
                                        let a = choose|a: int| 0 <= a < j && #[trigger] lv.take(j as int)[a] == x;
                                        assert(lv.take(j + 1)[a] == x);
                                    }
                                    if x == lv[j as int] {
                                        assert(lv.take(j + 1)[j as int] == x);
                                    }
                                }
                                assert(self.revision_view() =~= r0.union_prefer_right(
                                    Map::new(
                                        |e: (Seq<char>, u32)| e.1 == v && lv.take(j + 1).contains(e.0),
                                        |e: (Seq<char>, u32)| deleted_marker(),
                                    ),
                                ));
                            }
                            j = j + 1;
                        }
                        proof {
                            assert(lv.take(list@.len() as int) =~= lv);
                        }
                    },
                    None => {
                        let pattern = joined(p.as_str(), "%");
                        proof {
                            reveal_strlit("%");
                            assert(pattern@ =~= prefix_pattern(pv));
                        }
                        self.put_revision(pattern.as_str(), v, marker.as_str());
                    },
                }
            }
        }
        count
    }

    /// The values whose keys begin with `prefix`, keyed by their whole keys,
    /// or where `strip` holds by what follows the prefix.
    pub fn getrange(&self, prefix: &str, strip: bool) -> (r: Vec<(String, String)>)
        requires
            self.wf(),
        ensures
            keys_unique(r@.map_values(|e: (String, String)| kv_row_view(e))),
            table_view(r@.map_values(|e: (String, String)| kv_row_view(e))) == range_view(
                self.kv_view(),
                prefix@,
                strip,
            ),
    {
        let ghost rows = self.kv_rows();
        let ghost pv = prefix@;
        let plen = prefix.unicode_len();
        let mut out: Vec<(String, String)> = Vec::new();
        let mut i: usize = 0;
        while i < self.kv.len()
            invariant
                self.wf(),
                rows == self.kv_rows(),
                pv == prefix@,
                plen == pv.len(),
                i <= self.kv@.len(),
                keys_unique(out@.map_values(|e: (String, String)| kv_row_view(e))),
                table_view(out@.map_values(|e: (String, String)| kv_row_view(e))) == range_view(
                    table_view(rows.take(i as int)),
                    pv,
                    strip,
                ),
            decreases self.kv@.len() - i,
        {
            let ghost t = table_view(rows.take(i as int));
            let ghost oview = out@.map_values(|e: (String, String)| kv_row_view(e));
            let ghost key = rows[i as int].0;
            proof {
                lemma_table_take(rows, i as int);
                assert(rows[i as int] == kv_row_view(self.kv@[i as int]));
            }
            let k = self.kv[i].0.as_str();
            if starts_with(k, prefix) {
                let shown = if strip {
                    piece(k, plen, k.unicode_len())
                } else {
                    owned(k)
                };
                let ghost sk = shown@;
                proof {
                    assert(pv + key.skip(pv.len() as int) =~= key);
                    assert forall|x: Seq<char>| (pv + x == key) <==> (x == key.skip(pv.len() as int)) by {
                        if pv + x == key {
                            assert((pv + x).skip(pv.len() as int) =~= x);
                        }
                    }
                    if has_key(oview, sk) {
                        let a = choose|a: int| 0 <= a < oview.len() && (#[trigger] oview[a]).0 == sk;
                        assert(table_view(oview).contains_key(sk));
                        if strip {
                            assert(t.contains_key(pv + sk));
                        }
                        assert(t.contains_key(key));
                        assert(has_key(rows.take(i as int), key));
                    }
                    lemma_table_push(oview, sk, rows[i as int].1);
                }
                out.push((shown, self.kv[i].1.clone()));
                proof {
                    assert(out@.map_values(|e: (String, String)| kv_row_view(e)) =~= oview.push(
                        (sk, rows[i as int].1),
                    ));
                    assert(range_view(t.insert(key, rows[i as int].1), pv, strip) =~= range_view(
                        t,
                        pv,
                        strip,
                    ).insert(sk, rows[i as int].1));
                }
            } else {
                proof {
                    assert forall|x: Seq<char>| pv + x != key by {
                        if pv + x == key {
                            assert((pv + x).subrange(0, pv.len() as int) =~= pv);
                        }
                    }
                    assert(range_view(t.insert(key, rows[i as int].1), pv, strip) =~= range_view(
                        t,
                        pv,
                        strip,
                    ));
                }
            }
            i = i + 1;
        }
        proof {
            lemma_take_all(rows);
        }
        out
    }

    /// Sets every entry of `mapping`, in order, each key with `prefix` put
    /// before it. Where some value is not JSON text nothing is set.
    pub fn update(&mut self, mapping: Vec<(String, String)>, prefix: Option<String>) -> (r: Result<(), JujuError>)
        requires
            old(self).wf(),
        ensures
            final(self).wf(),
            r is Ok <==> forall|i: int| 0 <= i < mapping@.len() ==> is_json(#[trigger] mapping@[i].1@),
            r is Err ==> r->Err_0 is DecodeFailure,
            final(self).kv_view() == (if r is Ok {
                updated_values(
                    old(self).kv_view(),
                    mapping@.map_values(|e: (String, String)| kv_row_view(e)),
                    prefix_view(prefix),
                )
            } else {
                old(self).kv_view()
            }),
            final(self).revision_view() == (match old(self).active_revision() {
                Some(v) if r is Ok => updated_revisions(
                    old(self).revision_view(),
                    mapping@.map_values(|e: (String, String)| kv_row_view(e)),
                    prefix_view(prefix),
                    v,
                ),
                _ => old(self).revision_view(),
            }),
            final(self).hook_log() == old(self).hook_log(),
            final(self).active_revision() == old(self).active_revision(),
    {
        let mut j: usize = 0;
        while j < mapping.len()
            invariant
                *self == *old(self),
                self.wf(),
                j <= mapping@.len(),
                forall|i: int| 0 <= i < j ==> is_json(#[trigger] mapping@[i].1@),
            decreases mapping@.len() - j,
        {
            if !parses_as_json(mapping[j].1.as_str()) {
                return Err(JujuError::DecodeFailure(owned("value is not JSON text")));
            }
            j = j + 1;
        }
        let p: String = match &prefix {
            Some(s) => s.clone(),
            None => String::new(),
        };
        let ghost ev = mapping@.map_values(|e: (String, String)| kv_row_view(e));
        let ghost pv = prefix_view(prefix);
        let mut i: usize = 0;
        while i < mapping.len()
            invariant
                self.wf(),
                i <= mapping@.len(),
                p@ == pv,
                ev == mapping@.map_values(|e: (String, String)| kv_row_view(e)),
                forall|a: int| 0 <= a < mapping@.len() ==> is_json(#[trigger] mapping@[a].1@),
                self.kv_view() == updated_values(old(self).kv_view(), ev.take(i as int), pv),
                self.revision_view() == (match old(self).active_revision() {
                    Some(v) => updated_revisions(old(self).revision_view(), ev.take(i as int), pv, v),
                    None => old(self).revision_view(),
                }),
                self.hook_log() == old(self).hook_log(),
                self.active_revision() == old(self).active_revision(),
            decreases mapping@.len() - i,
        {
            let key = joined(p.as_str(), mapping[i].0.as_str());
            proof {
                assert(ev.take(i + 1).drop_last() =~= ev.take(i as int));
                assert(ev.take(i + 1).last() == ev[i as int]);
                assert(is_json(mapping@[i as int].1@));
            }
            let _ = self.set(key.as_str(), mapping[i].1.as_str());
            i = i + 1;
        }
        proof {
            assert(ev.take(mapping@.len() as int) =~= ev);
        }
        Ok(())
    }

    /// Opens a revision for a run of the hook `hook` that starts now; see
    /// `open_revision_at`.
    pub fn open_revision(&mut self, hook: &str) -> (r: Option<u32>)
        requires
            old(self).wf(),
        ensures
            final(self).wf(),
            r is Some <==> (old(self).active_revision() is None && old(self).next_version() <= u32::MAX),
            final(self).active_revision() == (if r is Some {
                r
            } else {
                old(self).active_revision()
            }),
            r is Some ==> r->0 == old(self).next_version(),
            r is Some ==> final(self).hook_log().len() == old(self).hook_log().len() + 1
                && final(self).hook_log().drop_last() == old(self).hook_log()
                && final(self).hook_log().last().0 == r->0
                && final(self).hook_log().last().1 == hook@,
            r is None ==> final(self).hook_log() == old(self).hook_log(),
            final(self).kv_view() == old(self).kv_view(),
            final(self).revision_view() == old(self).revision_view(),
    {
        let date = utc_now();
        let r = self.open_revision_at(hook, date.as_str());
        proof {
            if r is Some {
                assert(self.hook_log().drop_last() =~= old(self).hook_log());
            }
        }
        r
    }
}

/// Reading a key right after setting it gives the value set.
pub proof fn lemma_set_then_get(before: Storage, after: Storage, k: Seq<char>, v: Seq<char>)
    requires
        after.kv_view() == before.kv_view().insert(k, v),
    ensures
        after.kv_view().contains_key(k),
        after.kv_view()[k] == v,
{
}

/// A fresh store holds no key.
pub proof fn lemma_fresh_get(s: Storage, k: Seq<char>)
    requires
        s.kv_view() == Map::<Seq<char>, Seq<char>>::empty(),
    ensures
        !s.kv_view().contains_key(k),
{
}

/// Reading a key right after removing it finds nothing.
pub proof fn lemma_unset_then_get(before: Storage, after: Storage, k: Seq<char>)
    requires
        after.kv_view() == before.kv_view().remove(k),
    ensures
        !after.kv_view().contains_key(k),
{
}

/// Setting a key twice leaves the second value, held in exactly one row.
pub proof fn lemma_overwrite(s0: Storage, s1: Storage, s2: Storage, k: Seq<char>, v1: Seq<char>, v2: Seq<char>)
    requires
        s2.wf(),
        s1.kv_view() == s0.kv_view().insert(k, v1),
        s2.kv_view() == s1.kv_view().insert(k, v2),
    ensures
        s2.kv_view().contains_key(k),
        s2.kv_view()[k] == v2,
        exists|i: int|
            0 <= i < s2.kv_rows().len() && (#[trigger] s2.kv_rows()[i]).0 == k && forall|j: int|
                0 <= j < s2.kv_rows().len() && (#[trigger] s2.kv_rows()[j]).0 == k ==> j == i,
{
    let rows = s2.kv_rows();
    assert(s2.kv_view().contains_key(k));
    assert(table_view(rows).contains_key(k));
    assert(has_key(rows, k));
    let i = choose|i: int| 0 <= i < rows.len() && (#[trigger] rows[i]).0 == k;
    assert(forall|j: int| 0 <= j < rows.len() && (#[trigger] rows[j]).0 == k ==> j == i);
}

/// The history of a key depends only on the revision rows of that key under
/// the logged versions.
proof fn lemma_history_frame(
    log: Seq<(u32, Seq<char>, Seq<char>)>,
    m1: Map<(Seq<char>, u32), Seq<char>>,
    m2: Map<(Seq<char>, u32), Seq<char>>,
    key: Seq<char>,
)
    requires
        forall|j: int|
            0 <= j < log.len() ==> (m1.contains_key((key, (#[trigger] log[j]).0)) == m2.contains_key(
                (key, log[j].0),
            ) && (m1.contains_key((key, log[j].0)) ==> m1[(key, log[j].0)] == m2[(key, log[j].0)])),
    ensures
        history_of(log, m1, key) == history_of(log, m2, key),
    decreases log.len(),
{
    if log.len() > 0 {
        let l = log.drop_last();
        assert forall|j: int| 0 <= j < l.len() implies (m1.contains_key((key, (#[trigger] l[j]).0))
            == m2.contains_key((key, l[j].0)) && (m1.contains_key((key, l[j].0)) ==> m1[(key, l[j].0)]
            == m2[(key, l[j].0)])) by {
            assert(l[j] == log[j]);
        }
        lemma_history_frame(l, m1, m2, key);
        assert(log.last() == log[log.len() - 1]);
    }
}

/// Writing a key in the revision of one hook run, and again in the revision
/// of the next run, adds two entries to the key's history: the first run's
/// name, date and value, then the second's, in revision order.
pub proof fn lemma_revision_audit(
    s0: Storage,
    s1: Storage,
    s2: Storage,
    s3: Storage,
    s4: Storage,
    s5: Storage,
    key: Seq<char>,
    h1: Seq<char>,
    d1: Seq<char>,
    v1: Seq<char>,
    r1: u32,
    h2: Seq<char>,
    d2: Seq<char>,
    v2: Seq<char>,
    r2: u32,
)
    requires
        s0.wf(),
        s0.active_revision() is None,
        r1 == s0.next_version(),
        s1.hook_log() == s0.hook_log().push((r1, h1, d1)),
        s1.active_revision() == Some(r1),
        s1.revision_view() == s0.revision_view(),
        s2.hook_log() == s1.hook_log(),
        s2.revision_view() == s1.revision_view().insert((key, r1), v1),
        s3.hook_log() == s2.hook_log(),
        s3.revision_view() == s2.revision_view(),
        r2 == s3.next_version(),
        s4.hook_log() == s3.hook_log().push((r2, h2, d2)),
        s4.active_revision() == Some(r2),
        s4.revision_view() == s3.revision_view(),
        s5.hook_log() == s4.hook_log(),
        s5.revision_view() == s4.revision_view().insert((key, r2), v2),
    ensures
        history_of(s5.hook_log(), s5.revision_view(), key) == history_of(
            s0.hook_log(),
            s0.revision_view(),
            key,
        ).push((r1, h1, d1, v1)).push((r2, h2, d2, v2)),
{
    let l0 = s0.hook_log();
    let m0 = s0.revision_view();
    let l1 = l0.push((r1, h1, d1));
    let l2 = l1.push((r2, h2, d2));
    let m2 = m0.insert((key, r1), v1).insert((key, r2), v2);
    assert(l1.last() == (r1, h1, d1));
    assert(r2 == r1 + 1);
    assert forall|j: int| 0 <= j < l0.len() implies (#[trigger] l0[j]).0 < r1 by {
        if j < l0.len() - 1 {
            assert(l0[j].0 < l0[l0.len() - 1].0);
        }
    }
    lemma_history_frame(l0, m0, m2, key);
    assert(l2.drop_last() =~= l1);
    assert(l1.drop_last() =~= l0);
    assert(m2.contains_key((key, r1)) && m2[(key, r1)] == v1);
    assert(history_of(l1, m2, key) == history_of(l0, m2, key).push((r1, h1, d1, v1)));
    assert(history_of(l2, m2, key) == history_of(l1, m2, key).push((r2, h2, d2, v2)));
}

} // verus!
