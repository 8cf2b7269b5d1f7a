//! Change tracking of a charm's configuration between hook runs.
//!
//! A snapshot holds the configuration values seen in the previous run. It is
//! read from a file that holds one JSON object of strings, or where there is
//! no such file taken from the full current configuration, and written back
//! in full when the hook is done.
use vstd::prelude::*;

use crate::error::JujuError;
use crate::table::{has_key, keys_unique, lemma_table_index, lemma_table_push, lemma_table_remove, table_view};
use crate::text::owned;
use crate::unitdata::kv_row_view;

verus! {

/// The entries of a JSON object whose values are all strings, in key order,
/// or `None` where the text is no such object.
pub uninterp spec fn json_string_object(text: Seq<char>) -> Option<Seq<(Seq<char>, Seq<char>)>>;

/// The JSON text of the object with the given entries, or `None` where it
/// cannot be written.
pub uninterp spec fn json_object_text(entries: Seq<(Seq<char>, Seq<char>)>) -> Option<Seq<char>>;

/// Relies on serde_json::from_str into a BTreeMap<String, String>: it
/// succeeds exactly on a JSON object of strings, and the map holds each key
/// once.
#[verifier::external_body]
fn parse_string_object(text: &str) -> (r: Option<Vec<(String, String)>>)
    ensures
        r is Some <==> json_string_object(text@) is Some,
        r is Some ==> r->0@.map_values(|e: (String, String)| kv_row_view(e)) == json_string_object(text@)->0,
        r is Some ==> keys_unique(r->0@.map_values(|e: (String, String)| kv_row_view(e))),
{
    serde_json::from_str::<std::collections::BTreeMap<String, String>>(text).ok().map(|m| m.into_iter().collect())
}

/// Relies on serde_json::to_string of a BTreeMap<String, String> built from
/// the entries.
#[verifier::external_body]
fn write_string_object(entries: &Vec<(String, String)>) -> (r: Option<String>)
    ensures
        r is Some <==> json_object_text(entries@.map_values(|e: (String, String)| kv_row_view(e))) is Some,
        r is Some ==> r->0@ == json_object_text(entries@.map_values(|e: (String, String)| kv_row_view(e)))->0,
{
    let m: std::collections::BTreeMap<String, String> = entries.iter().cloned().collect();
    serde_json::to_string(&m).ok()
}

/// The configuration values seen in the previous hook run.
#[derive(Debug)]
pub struct ConfigSnapshot {
    values: Vec<(String, String)>,
}

impl ConfigSnapshot {
    /// The rows of the snapshot.
    pub closed spec fn rows(&self) -> Seq<(Seq<char>, Seq<char>)> {
        self.values@.map_values(|e: (String, String)| kv_row_view(e))
    }

    /// The recorded values, by key.
    pub open spec fn view(&self) -> Map<Seq<char>, Seq<char>> {
        table_view(self.rows())
    }

    /// Each key is recorded once.
    pub closed spec fn wf(&self) -> bool {
        keys_unique(self.rows())
    }

    fn position(&self, key: &str) -> (r: Option<usize>)
        requires
            self.wf(),
        ensures
            match r {
                Some(i) => i < self.rows().len() && self.rows()[i as int].0 == key@,
                None => !has_key(self.rows(), key@),
            },
    {
        let k = owned(key);
        let mut i: usize = 0;
        while i < self.values.len()
            invariant
                i <= self.values@.len(),
                k@ == key@,
                forall|j: int| 0 <= j < i ==> (#[trigger] self.rows()[j]).0 != key@,
            decreases self.values@.len() - i,
        {
            if self.values[i].0 == k {
                return Some(i);
            }
            i = i + 1;
        }
        None
    }

    /// A snapshot with nothing recorded.
    pub fn new() -> (s: ConfigSnapshot)
        ensures
            s.wf(),
            s.view() == Map::<Seq<char>, Seq<char>>::empty(),
    {
        let s = ConfigSnapshot { values: Vec::new() };
        assert(s.rows() =~= Seq::empty());
        assert(s.view() =~= Map::empty());
        s
    }

    /// Records `value` as the value of `key`, replacing an earlier one.
    pub fn record(&mut self, key: &str, value: &str)
        requires
            old(self).wf(),
        ensures
            final(self).wf(),
            final(self).view() == old(self).view().insert(key@, value@),
    {
        let pos = self.position(key);
        let ghost rows0 = self.rows();
        if let Some(i) = pos {
            self.values.remove(i);
            proof {
                lemma_table_remove(rows0, i as int);
                assert(self.rows() =~= rows0.remove(i as int));
            }
        }
        let ghost rows1 = self.rows();
        proof {
            if has_key(rows1, key@) {
                let j = choose|j: int| 0 <= j < rows1.len() && (#[trigger] rows1[j]).0 == key@;
                lemma_table_index(rows1, j);
                if let Some(i) = pos {
                    assert(!table_view(rows0).remove(rows0[i as int].0).contains_key(key@));
                }
            }
        }
        self.values.push((owned(key), owned(value)));
        proof {
            assert(self.rows() =~= rows1.push((key@, value@)));
            lemma_table_push(rows1, key@, value@);
            assert(self.view() =~= table_view(rows0).insert(key@, value@));
        }
    }

    /// A snapshot of the given configuration values, a later entry for a key
    /// replacing an earlier one.
    pub fn from_values(values: Vec<(String, String)>) -> (s: ConfigSnapshot)
        ensures
            s.wf(),
            s.view() == entries_map(values@.map_values(|e: (String, String)| kv_row_view(e))),
    {
        let ghost ev = values@.map_values(|e: (String, String)| kv_row_view(e));
        let mut s = ConfigSnapshot::new();
        let mut i: usize = 0;
        while i < values.len()
            invariant
                s.wf(),
                i <= values@.len(),
                ev == values@.map_values(|e: (String, String)| kv_row_view(e)),
                s.view() == entries_map(ev.take(i as int)),
            decreases values@.len() - i,
        {
            proof {
                assert(ev.take(i + 1).drop_last() =~= ev.take(i as int));
                assert(ev.take(i + 1).last() == ev[i as int]);
            }
            s.record(values[i].0.as_str(), values[i].1.as_str());
            i = i + 1;
        }
        proof {
            assert(ev.take(values@.len() as int) =~= ev);
        }
        s
    }

    /// Reads a snapshot from the text of its file. Text that is not one JSON
    /// object of strings is refused.
    pub fn from_json(text: &str) -> (r: Result<ConfigSnapshot, JujuError>)
        ensures
            r is Ok <==> json_string_object(text@) is Some,
            r is Ok ==> r->Ok_0.wf() && r->Ok_0.view() == table_view(json_string_object(text@)->0),
            r is Err ==> r->Err_0 is DecodeFailure,
    {
        match parse_string_object(text) {
            Some(values) => {
                let s = ConfigSnapshot { values };
                Ok(s)
            },
            None => Err(JujuError::DecodeFailure(owned("snapshot is not a JSON object of strings"))),
        }
    }

    /// The text to write back to the snapshot's file.
    pub fn to_json(&self) -> (r: Result<String, JujuError>)
        ensures
            r is Ok <==> json_object_text(self.rows()) is Some,
            r is Ok ==> r->Ok_0@ == json_object_text(self.rows())->0,
            r is Err ==> r->Err_0 is DecodeFailure,
    {
        match write_string_object(&self.values) {
            Some(t) => Ok(t),
            None => Err(JujuError::DecodeFailure(owned("snapshot cannot be written as JSON"))),
        }
    }

    /// The value recorded for `key`, if any.
    pub fn previous(&self, key: &str) -> (r: Option<String>)
        requires
            self.wf(),
        ensures
            r is Some <==> self.view().contains_key(key@),
            r is Some ==> r->0@ == self.view()[key@],
    {
        match self.position(key) {
            Some(i) => {
                proof {
                    lemma_table_index(self.rows(), i as int);
                }
                Some(self.values[i].1.clone())
            },
            None => None,
        }
    }

    /// Whether `key` changed since the snapshot: true where no value was
    /// recorded for it, or where `current`, its value now, is absent or
    /// differs from the recorded one.
    pub fn changed(&self, key: &str, current: Option<&str>) -> (r: bool)
        requires
            self.wf(),
        ensures
            r == !(self.view().contains_key(key@) && current is Some && self.view()[key@] == current->0@),
    {
        match self.previous(key) {
            Some(p) => match current {
                Some(c) => !(p == owned(c)),
                None => true,
            },
            None => true,
        }
    }
}

/// The map of `entries`, a later entry for a key replacing an earlier one.
pub open spec fn entries_map(entries: Seq<(Seq<char>, Seq<char>)>) -> Map<Seq<char>, Seq<char>>
    decreases entries.len(),
{
    if entries.len() == 0 {
        Map::empty()
    } else {
        entries_map(entries.drop_last()).insert(entries.last().0, entries.last().1)
    }
}

} // verus!
