//! Transactions over the serializable map: parsing the operations, running
//! them in order, the new root they produce, the cache of thunk values and
//! the root pointer that compare-and-set moves.

use vstd::prelude::*;
use crate::error::{DefiniteError, abort, txn_conflict, ABORT, TXN_CONFLICT};
use crate::store::{IdGenerator, SerializableMap, thunk_id};
use crate::text::same_text;

verus! {

/// One operation of a transaction: read a key's list, or append to it.
#[derive(Debug, Clone, Copy, PartialEq, Eq, Structural)]
pub enum TxnOp {
    Read(i32),
    Append(i32, i32),
}

/// The answer to one operation: the list read (`None` for a missing key),
/// or the append echoed.
#[derive(Debug)]
pub enum TxnResult {
    Read(i32, Option<Vec<i32>>),
    Append(i32, i32),
}

pub enum TxnResultModel {
    Read(i32, Option<Seq<i32>>),
    Append(i32, i32),
}

pub open spec fn result_view(r: TxnResult) -> TxnResultModel {
    match r {
        TxnResult::Read(k, Some(l)) => TxnResultModel::Read(k, Some(l@)),
        TxnResult::Read(k, None) => TxnResultModel::Read(k, None),
        TxnResult::Append(k, v) => TxnResultModel::Append(k, v),
    }
}

pub open spec fn results_view(rs: Seq<TxnResult>) -> Seq<TxnResultModel> {
    rs.map_values(|r: TxnResult| result_view(r))
}

pub open spec fn op_key(op: TxnOp) -> i32 {
    match op {
        TxnOp::Read(k) => k,
        TxnOp::Append(k, _) => k,
    }
}

/// The lists after one operation.
pub open spec fn db_step(db: Map<i32, Seq<i32>>, op: TxnOp) -> Map<i32, Seq<i32>> {
    match op {
        TxnOp::Read(_) => db,
        TxnOp::Append(k, v) => db.insert(
            k,
            (if db.contains_key(k) { db[k] } else { Seq::empty() }).push(v),
        ),
    }
}

/// The answer to one operation on the lists as they stand before it.
pub open spec fn op_result(db: Map<i32, Seq<i32>>, op: TxnOp) -> TxnResultModel {
    match op {
        TxnOp::Read(k) => TxnResultModel::Read(k, if db.contains_key(k) { Some(db[k]) } else { None }),
        TxnOp::Append(k, v) => TxnResultModel::Append(k, v),
    }
}

/// The lists after the operations, in order.
pub open spec fn db_after(db: Map<i32, Seq<i32>>, ops: Seq<TxnOp>) -> Map<i32, Seq<i32>>
    decreases ops.len(),
{
    if ops.len() == 0 {
        db
    } else {
        db_step(db_after(db, ops.drop_last()), ops.last())
    }
}

/// The answers to the operations, in order.
pub open spec fn txn_results(db: Map<i32, Seq<i32>>, ops: Seq<TxnOp>) -> Seq<TxnResultModel>
    decreases ops.len(),
{
    if ops.len() == 0 {
        Seq::empty()
    } else {
        txn_results(db, ops.drop_last()).push(op_result(db_after(db, ops.drop_last()), ops.last()))
    }
}

pub open spec fn count_appends(ops: Seq<TxnOp>) -> nat
    decreases ops.len(),
{
    if ops.len() == 0 {
        0
    } else {
        count_appends(ops.drop_last()) + if ops.last() is Append { 1nat } else { 0nat }
    }
}

/// Reads one operation: `"r"` with a key, or `"append"` with a key and a
/// value; anything else is no operation.
pub fn parse_txn(kind: &String, key: i32, value: Option<i32>) -> (r: Option<TxnOp>)
    ensures
        kind@ == seq!['r'] ==> r == Some(TxnOp::Read(key)),
        kind@ == seq!['a', 'p', 'p', 'e', 'n', 'd'] ==> r == match value {
            Some(v) => Some(TxnOp::Append(key, v)),
            None => None::<TxnOp>,
        },
        kind@ != seq!['r'] && kind@ != seq!['a', 'p', 'p', 'e', 'n', 'd'] ==> r is None,
{
    let read = String::from_str("r");
    let append = String::from_str("append");
    proof {
        reveal_strlit("r");
        reveal_strlit("append");
        assert("r"@ =~= seq!['r']);
        assert("append"@ =~= seq!['a', 'p', 'p', 'e', 'n', 'd']);
    }
    if same_text(kind, &read) {
        Some(TxnOp::Read(key))
    } else if same_text(kind, &append) {
        match value {
            Some(v) => Some(TxnOp::Append(key, v)),
            None => None,
        }
    } else {
        None
    }
}

/// The keys of `ops` whose lists must be fetched before the transaction
/// can run, each with its thunk's id.
pub fn keys_to_load(map: &SerializableMap, ops: &Vec<TxnOp>) -> (r: Vec<(i32, String)>)
    ensures
        forall|x: int| 0 <= x < r@.len() ==> {
            &&& !map.loaded(#[trigger] r@[x].0)
            &&& map.ids().contains_key(r@[x].0)
            &&& map.ids()[r@[x].0] == r@[x].1@
        },
        forall|i: int| 0 <= i < ops@.len() ==> map.loaded(op_key(#[trigger] ops@[i])) || exists|x: int|
            0 <= x < r@.len() && r@[x].0 == op_key(ops@[i]),
{
    let mut out: Vec<(i32, String)> = Vec::new();
    let mut i: usize = 0;
    while i < ops.len()
        invariant
            i <= ops@.len(),
            forall|x: int| 0 <= x < out@.len() ==> {
                &&& !map.loaded(#[trigger] out@[x].0)
                &&& map.ids().contains_key(out@[x].0)
                &&& map.ids()[out@[x].0] == out@[x].1@
            },
            forall|j: int| 0 <= j < i ==> map.loaded(op_key(#[trigger] ops@[j])) || exists|x: int|
                0 <= x < out@.len() && out@[x].0 == op_key(ops@[j]),
        decreases ops@.len() - i,
    {
        let k = match ops[i] {
            TxnOp::Read(k) => k,
            TxnOp::Append(k, _) => k,
        };
        match map.missing_thunk(k) {
            Some(id) => {
                let ghost before = out@;
                out.push((k, id));
                proof {
                    assert(out@[before.len() as int].0 == k);
                    assert forall|j: int| 0 <= j < i + 1 implies map.loaded(op_key(#[trigger] ops@[j])) || exists|x: int|
                        0 <= x < out@.len() && out@[x].0 == op_key(ops@[j]) by {
                        if j < i && !map.loaded(op_key(ops@[j])) {
                            let x = choose|x: int| 0 <= x < before.len() && before[x].0 == op_key(ops@[j]);
                            assert(out@[x] == before[x]);
                        }
                    }
                    assert forall|x: int| 0 <= x < out@.len() implies {
                        &&& !map.loaded(#[trigger] out@[x].0)
                        &&& map.ids().contains_key(out@[x].0)
                        &&& map.ids()[out@[x].0] == out@[x].1@
                    } by {
                        if x < before.len() {
                            assert(out@[x] == before[x]);
                        }
                    }
                }
            },
            None => {},
        }
        i = i + 1;
    }
    out
}

/// Whether every key of `ops` has its list at hand (or is absent).
pub fn txn_ready(map: &SerializableMap, ops: &Vec<TxnOp>) -> (r: bool)
    ensures
        r == forall|i: int| 0 <= i < ops@.len() ==> map.loaded(op_key(#[trigger] ops@[i])),
{
    let mut i: usize = 0;
    while i < ops.len()
        invariant
            i <= ops@.len(),
            forall|j: int| 0 <= j < i ==> map.loaded(op_key(#[trigger] ops@[j])),
        decreases ops@.len() - i,
    {
        let k = match ops[i] {
            TxnOp::Read(k) => k,
            TxnOp::Append(k, _) => k,
        };
        if map.missing_thunk(k).is_some() {
            return false;
        }
        i = i + 1;
    }
    true
}

/// Runs the operations in order against the map; each append puts the
/// new list in a fresh thunk. Returns the answers.
pub fn execute_txns(map: &mut SerializableMap, ops: &Vec<TxnOp>, ids: &mut IdGenerator) -> (r: Vec<
    TxnResult,
>)
    requires
        old(map).wf(),
        forall|i: int| 0 <= i < ops@.len() ==> old(map).loaded(op_key(#[trigger] ops@[i])),
        0 <= old(ids).counter(),
        old(ids).counter() + ops@.len() <= i32::MAX,
    ensures
        final(map).wf(),
        results_view(r@) == txn_results(old(map).lists(), ops@),
        final(map).lists() == db_after(old(map).lists(), ops@),
        final(map).changed() == (old(map).changed() || count_appends(ops@) > 0),
        final(ids).node_spec() == old(ids).node_spec(),
        old(ids).counter() <= final(ids).counter() <= old(ids).counter() + ops@.len(),
{
    let ghost db0 = map.lists();
    let mut out: Vec<TxnResult> = Vec::new();
    let mut i: usize = 0;
    proof {
        assert(ops@.subrange(0, 0) =~= Seq::<TxnOp>::empty());
    }
    while i < ops.len()
        invariant
            i <= ops@.len(),
            map.wf(),
            map.lists() == db_after(db0, ops@.subrange(0, i as int)),
            results_view(out@) == txn_results(db0, ops@.subrange(0, i as int)),
            map.changed() == (old(map).changed() || count_appends(ops@.subrange(0, i as int)) > 0),
            forall|j: int| i <= j < ops@.len() ==> map.loaded(op_key(#[trigger] ops@[j])),
            ids.node_spec() == old(ids).node_spec(),
            old(ids).counter() <= ids.counter() <= old(ids).counter() + i,
            0 <= old(ids).counter(),
            old(ids).counter() + ops@.len() <= i32::MAX,
        decreases ops@.len() - i,
    {
        let ghost pre = ops@.subrange(0, i as int);
        let ghost next = ops@.subrange(0, i as int + 1);
        proof {
            assert(next.drop_last() =~= pre);
            assert(next.last() == ops@[i as int]);
        }
        let op = ops[i];
        let ghost before_out = out@;
        match op {
            TxnOp::Read(k) => {
                let v = map.read(k);
                out.push(TxnResult::Read(k, v));
            },
            TxnOp::Append(k, v) => {
                let new_id = ids.get_next_id();
                let ghost lists_before = map.lists();
                let ghost thunks_before = map.thunks();
                proof {
                    assert forall|j: int| i < j < ops@.len() && thunks_before.contains_key(op_key(#[trigger] ops@[j]))
                        implies thunks_before[op_key(ops@[j])].cached() is Some by {
                        assert(map.loaded(op_key(ops@[j])));
                    }
                }
                map.append(k, v, new_id);
                proof {
                    assert(map.lists() =~= lists_before.insert(
                        k,
                        (if lists_before.contains_key(k) { lists_before[k] } else { Seq::empty() }).push(v),
                    ));
                    assert forall|j: int| i < j < ops@.len() implies map.loaded(op_key(#[trigger] ops@[j])) by {
                        let kj = op_key(ops@[j]);
                        if kj != k {
                            assert(map.thunks()[kj] == thunks_before[kj]);
                        }
                    }
                }
                out.push(TxnResult::Append(k, v));
            },
        }
        proof {
            assert(results_view(out@) =~= results_view(before_out).push(result_view(out@.last())));
        }
        i = i + 1;
    }
    proof {
        assert(ops@.subrange(0, ops@.len() as int) =~= ops@);
    }
    out
}

/// The root a finished transaction points the database at: a new thunk
/// with the map's text form when the map changed, else the old root.
pub fn next_root(map: &SerializableMap, root_id: &String, ids: &mut IdGenerator) -> (r: (
    String,
    Option<Vec<(String, String)>>,
))
    requires
        map.wf(),
        0 <= old(ids).counter() < i32::MAX,
    ensures
        map.changed() ==> r.0@ == thunk_id(old(ids).node_spec(), old(ids).counter()) && r.1 is Some
            && final(ids).counter() == old(ids).counter() + 1,
        map.changed() ==> crate::store::pair_views(r.1->0@) == crate::store::json_of(map.entries()),
        !map.changed() ==> r.0@ == root_id@ && r.1 is None && final(ids).counter() == old(
            ids,
        ).counter(),
        final(ids).node_spec() == old(ids).node_spec(),
{
    if map.has_changed() {
        let id = ids.get_next_id();
        (id, Some(map.to_json()))
    } else {
        (root_id.clone(), None)
    }
}

/// Takes in the answer to writing thunk `id` to the store: `write_ok`
/// means it is saved; any other answer aborts the transaction, before any
/// compare-and-set of the root.
pub fn save_outcome(id: &String, response_type: &String) -> (r: Result<(), DefiniteError>)
    ensures
        r is Ok <==> response_type@ == seq!['w', 'r', 'i', 't', 'e', '_', 'o', 'k'],
        r matches Err(e) ==> e.code == ABORT,
{
    let ok = String::from_str("write_ok");
    proof {
        reveal_strlit("write_ok");
        assert("write_ok"@ =~= seq!['w', 'r', 'i', 't', 'e', '_', 'o', 'k']);
    }
    if same_text(response_type, &ok) {
        Ok(())
    } else {
        let mut text = String::from_str("Failed to save thunk with id ");
        text.append(id.as_str());
        Err(abort(text))
    }
}

/// What a transaction does next while it commits: write the thunk at an
/// index of its list of writes (new lists first, then the new root),
/// compare-and-set the root, or give up.
pub enum CommitAction {
    Write(usize),
    CompareAndSet,
    Abort(DefiniteError),
}

/// The first step of committing `writes` thunk writes.
pub fn first_commit_step(writes: usize) -> (r: CommitAction)
    ensures
        writes == 0 ==> r matches CommitAction::CompareAndSet,
        writes > 0 ==> r matches CommitAction::Write(0),
{
    if writes == 0 {
        CommitAction::CompareAndSet
    } else {
        CommitAction::Write(0)
    }
}

/// The step after the store answered the write at index `done` (of thunk
/// `id`): a failed write aborts; otherwise the next write, and after the
/// last one the compare-and-set.
pub fn commit_step(done: usize, writes: usize, id: &String, response_type: &String) -> (r: CommitAction)
    requires
        done < writes,
    ensures
        match r {
            CommitAction::Abort(e) => response_type@ != seq!['w', 'r', 'i', 't', 'e', '_', 'o', 'k']
                && e.code == ABORT,
            CommitAction::Write(n) => response_type@ == seq!['w', 'r', 'i', 't', 'e', '_', 'o', 'k']
                && n == done + 1 && n < writes,
            CommitAction::CompareAndSet => response_type@ == seq!['w', 'r', 'i', 't', 'e', '_', 'o', 'k']
                && done + 1 == writes,
        },
{
    match save_outcome(id, response_type) {
        Err(e) => CommitAction::Abort(e),
        Ok(()) => if done + 1 < writes {
            CommitAction::Write(done + 1)
        } else {
            CommitAction::CompareAndSet
        },
    }
}

/// The root pointer as this node last saw it.
pub struct RootPointer {
    id: String,
}

impl RootPointer {
    pub closed spec fn id_spec(&self) -> Seq<char> {
        self.id@
    }

    pub fn init(id: String) -> (r: RootPointer)
        ensures
            r.id_spec() == id@,
    {
        RootPointer { id }
    }

    pub fn read_root(&self) -> (r: String)
        ensures
            r@ == self.id_spec(),
    {
        self.id.clone()
    }

    /// Takes in the answer to a compare-and-set of the root to `new_id`:
    /// `cas_ok` moves the pointer to `new_id`; any other answer is a
    /// transaction conflict and leaves it.
    pub fn cas_root(&mut self, new_id: String, response_type: &String) -> (r: Result<(), DefiniteError>)
        ensures
            r is Ok <==> response_type@ == seq!['c', 'a', 's', '_', 'o', 'k'],
            r is Ok ==> final(self).id_spec() == new_id@,
            r matches Err(e) ==> e.code == TXN_CONFLICT && final(self).id_spec() == old(self).id_spec(),
    {
        let ok = String::from_str("cas_ok");
        proof {
            reveal_strlit("cas_ok");
            assert("cas_ok"@ =~= seq!['c', 'a', 's', '_', 'o', 'k']);
        }
        if same_text(response_type, &ok) {
            self.id = new_id;
            Ok(())
        } else {
            Err(txn_conflict(String::from_str("cas root failed")))
        }
    }

    /// Points at the root that was read from the store.
    pub fn update_root(&mut self, id: String)
        ensures
            final(self).id_spec() == id@,
    {
        self.id = id;
    }
}

/// The list most recently recorded under `id`, if any.
pub open spec fn cache_lookup(entries: Seq<(String, Vec<i32>)>, id: Seq<char>) -> Option<Seq<i32>>
    decreases entries.len(),
{
    if entries.len() == 0 {
        None
    } else if entries.last().0@ == id {
        Some(entries.last().1@)
    } else {
        cache_lookup(entries.drop_last(), id)
    }
}

/// The values of thunks this process has saved or read, by id.
pub struct ThunkCache {
    entries: Vec<(String, Vec<i32>)>,
}

impl ThunkCache {
    pub closed spec fn get_spec(&self, id: Seq<char>) -> Option<Seq<i32>> {
        cache_lookup(self.entries@, id)
    }

    pub fn init() -> (r: ThunkCache)
        ensures
            forall|id: Seq<char>| r.get_spec(id) is None,
    {
        ThunkCache { entries: Vec::new() }
    }

    /// Records the list stored under `id`.
    pub fn record(&mut self, id: String, list: Vec<i32>)
        ensures
            final(self).get_spec(id@) == Some(list@),
            forall|other: Seq<char>| other != id@ ==> final(self).get_spec(other) == old(self).get_spec(other),
    {
        let ghost before = self.entries@;
        self.entries.push((id, list));
        proof {
            assert(self.entries@.drop_last() =~= before);
        }
    }

    /// The list recorded under `id`, if any.
    pub fn lookup(&self, id: &String) -> (r: Option<Vec<i32>>)
        ensures
            match r {
                Some(l) => self.get_spec(id@) == Some(l@),
                None => self.get_spec(id@) is None,
            },
    {
        let mut i: usize = self.entries.len();
        proof {
            assert(self.entries@.subrange(0, i as int) =~= self.entries@);
        }
        while i > 0
            invariant
                i <= self.entries@.len(),
                cache_lookup(self.entries@, id@) == cache_lookup(self.entries@.subrange(0, i as int), id@),
            decreases i,
        {
            let ghost p = self.entries@.subrange(0, i as int);
            proof {
                assert(p.drop_last() =~= self.entries@.subrange(0, i as int - 1));
                assert(p.last() == self.entries@[i as int - 1]);
            }
            if same_text(&self.entries[i - 1].0, id) {
                return Some(self.entries[i - 1].1.clone());
            }
            i = i - 1;
        }
        proof {
            assert(self.entries@.subrange(0, 0) =~= Seq::<(String, Vec<i32>)>::empty());
        }
        None
    }
}

/// A saved thunk's list is what the cache gives back for its id: after
/// its list is recorded, looking its id up gives that list.
pub proof fn lemma_saved_thunk_cached(entries: Seq<(String, Vec<i32>)>, id: String, list: Vec<i32>)
    ensures
        cache_lookup(entries.push((id, list)), id@) == Some(list@),
{
    assert(entries.push((id, list)).last() == (id, list));
}

} // verus!
