//! A replica's durable-for-the-process data: who it is, its peers, its
//! log and the key/value map that committed entries are applied to.

use vstd::prelude::*;
use std::collections::HashMap;
use crate::error::{
    DefiniteError, key_does_not_exist, precondition_failed, KEY_DOES_NOT_EXIST, PRECONDITION_FAILED,
};
use crate::log::{Entry, Log, Op, entry_at, entries_from};
use crate::text::push_i32;
use crate::node::views;

verus! {

broadcast use vstd::std_specs::hash::group_hash_axioms;

/// The number of replicas, out of `total`, that make a majority.
pub open spec fn majority_of(total: int) -> int {
    total / 2 + 1
}

pub struct RaftState {
    node_id: String,
    peers: Vec<String>,
    values: HashMap<i32, i32>,
    log: Log,
}

impl RaftState {
    /// The key/value map.
    pub closed spec fn kv(&self) -> Map<i32, i32> {
        self.values@
    }

    /// The log's entries, the sentinel first.
    pub closed spec fn log_spec(&self) -> Seq<Entry> {
        self.log@
    }

    pub closed spec fn id_spec(&self) -> Seq<char> {
        self.node_id@
    }

    /// The other members of the cluster.
    pub closed spec fn peers_spec(&self) -> Seq<Seq<char>> {
        views(self.peers@)
    }

    pub closed spec fn wf(&self) -> bool {
        &&& self.log.wf()
        &&& self.peers@.len() < usize::MAX / 2
    }

    /// A well-formed replica's log keeps its sentinel.
    pub proof fn lemma_log_nonempty(&self)
        requires
            self.wf(),
        ensures
            self.log_spec().len() >= 1,
    {
    }

    /// A replica with an empty map and a log that holds only the sentinel.
    pub fn init(node_id: String, peers: Vec<String>) -> (r: RaftState)
        requires
            peers@.len() < usize::MAX / 2,
        ensures
            r.wf(),
            r.kv().is_empty(),
            r.log_spec() == seq![Entry::sentinel_spec()],
            r.id_spec() == node_id@,
            r.peers_spec() == views(peers@),
    {
        let log = Log::init(node_id.clone());
        let r = RaftState { node_id, peers, values: HashMap::new(), log };
        assert(r.kv() =~= Map::<i32, i32>::empty());
        r
    }

    pub fn node_id(&self) -> (r: String)
        ensures
            r@ == self.id_spec(),
    {
        self.node_id.clone()
    }

    /// The number of other members.
    pub fn peer_count(&self) -> (r: usize)
        ensures
            r == self.peers_spec().len(),
    {
        self.peers.len()
    }

    /// The id of the other member at `i`.
    pub fn peer(&self, i: usize) -> (r: String)
        requires
            i < self.peers_spec().len(),
        ensures
            r@ == self.peers_spec()[i as int],
    {
        self.peers[i].clone()
    }

    /// The value at `key`, or `key_does_not_exist`.
    pub fn read_value(&self, key: i32) -> (r: Result<i32, DefiniteError>)
        ensures
            match r {
                Ok(v) => self.kv().contains_key(key) && v == self.kv()[key],
                Err(e) => !self.kv().contains_key(key) && e.code == KEY_DOES_NOT_EXIST,
            },
    {
        match self.values.get(&key) {
            Some(v) => Ok(*v),
            None => {
                let mut text = String::from_str("No key found at ");
                push_i32(&mut text, key);
                Err(key_does_not_exist(text))
            },
        }
    }

    pub fn write_value(&mut self, key: i32, value: i32)
        ensures
            final(self).kv() == old(self).kv().insert(key, value),
            final(self).log_spec() == old(self).log_spec(),
            final(self).id_spec() == old(self).id_spec(),
            final(self).peers_spec() == old(self).peers_spec(),
            old(self).wf() ==> final(self).wf(),
    {
        self.values.insert(key, value);
    }

    /// Sets `key` to `to` if it holds `from`; otherwise the map is left as
    /// it was and the error says why.
    pub fn cas_value(&mut self, key: i32, from: i32, to: i32) -> (r: Result<(), DefiniteError>)
        ensures
            match r {
                Ok(()) => {
                    &&& old(self).kv().contains_key(key) && old(self).kv()[key] == from
                    &&& final(self).kv() == old(self).kv().insert(key, to)
                },
                Err(e) => {
                    &&& final(self).kv() == old(self).kv()
                    &&& !old(self).kv().contains_key(key) ==> e.code == KEY_DOES_NOT_EXIST
                    &&& old(self).kv().contains_key(key) ==> old(self).kv()[key] != from
                        && e.code == PRECONDITION_FAILED
                },
            },
            final(self).log_spec() == old(self).log_spec(),
            final(self).id_spec() == old(self).id_spec(),
            final(self).peers_spec() == old(self).peers_spec(),
            old(self).wf() ==> final(self).wf(),
    {
        match self.read_value(key) {
            Err(e) => Err(e),
            Ok(current) => {
                if current != from {
                    let mut text = String::from_str("Expected ");
                    push_i32(&mut text, from);
                    text.append(" but value was actually ");
                    push_i32(&mut text, current);
                    text.append(" at key ");
                    push_i32(&mut text, key);
                    return Err(precondition_failed(text));
                }
                self.values.insert(key, to);
                Ok(())
            },
        }
    }

    /// Starts the log afresh with only the sentinel.
    pub fn init_log(&mut self, node_id: String)
        ensures
            final(self).log_spec() == seq![Entry::sentinel_spec()],
            final(self).kv() == old(self).kv(),
            final(self).id_spec() == old(self).id_spec(),
            final(self).peers_spec() == old(self).peers_spec(),
            old(self).wf() ==> final(self).wf(),
    {
        self.log = Log::init(node_id);
    }

    pub fn log_size(&self) -> (r: usize)
        ensures
            r == self.log_spec().len(),
    {
        self.log.size()
    }

    /// Adds one entry for `op` received in `term`.
    pub fn append_single_entry(&mut self, op: Op, term: i32)
        ensures
            final(self).log_spec() == old(self).log_spec().push(Entry { term, op: Some(op) }),
            final(self).kv() == old(self).kv(),
            final(self).id_spec() == old(self).id_spec(),
            final(self).peers_spec() == old(self).peers_spec(),
            old(self).wf() ==> final(self).wf(),
    {
        let mut v = vec![Entry { op: Some(op), term }];
        let ghost added = v@;
        self.log.append(&mut v);
        assert(added =~= seq![Entry { term, op: Some(op) }]);
        assert(self.log_spec() =~= old(self).log_spec().push(Entry { term, op: Some(op) }));
    }

    /// Moves all of `entries` to the end of the log.
    pub fn append_log_entries(&mut self, entries: &mut Vec<Entry>)
        ensures
            final(self).log_spec() == old(self).log_spec() + old(entries)@,
            final(entries)@.len() == 0,
            final(self).kv() == old(self).kv(),
            final(self).id_spec() == old(self).id_spec(),
            final(self).peers_spec() == old(self).peers_spec(),
            old(self).wf() ==> final(self).wf(),
    {
        self.log.append(entries);
    }

    /// Keeps the first `len` entries; the sentinel stays.
    pub fn truncate_log(&mut self, len: usize)
        requires
            len >= 1,
        ensures
            final(self).log_spec() == if len < old(self).log_spec().len() {
                old(self).log_spec().subrange(0, len as int)
            } else {
                old(self).log_spec()
            },
            final(self).kv() == old(self).kv(),
            final(self).id_spec() == old(self).id_spec(),
            final(self).peers_spec() == old(self).peers_spec(),
            old(self).wf() ==> final(self).wf(),
    {
        self.log.truncate(len);
    }

    /// The entry at a one-based index, if the log reaches it.
    pub fn log_entry(&self, i: usize) -> (r: Option<Entry>)
        ensures
            r == entry_at(self.log_spec(), i as int),
    {
        self.log.get(i)
    }

    /// The number of replicas that make a majority of the whole cluster,
    /// this one included.
    pub fn majority(&self) -> (r: usize)
        requires
            self.wf(),
        ensures
            r == majority_of(self.peers_spec().len() + 1int),
            1 <= r <= self.peers_spec().len() + 1,
    {
        (self.peers.len() + 1) / 2 + 1
    }

    pub fn log_last(&self) -> (r: Entry)
        requires
            self.wf(),
        ensures
            r == self.log_spec().last(),
    {
        self.log.last()
    }

    /// The entries from one-based index `i` on.
    pub fn log_from_index(&self, i: usize) -> (r: Vec<Entry>)
        ensures
            r@ == entries_from(self.log_spec(), i as int),
    {
        self.log.upto_index(i)
    }
}

} // verus!
