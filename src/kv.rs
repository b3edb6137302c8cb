//! The deterministic key/value state machine that committed log entries are
//! applied to.

use vstd::prelude::*;
use crate::log::{Entry, Op};

verus! {

/// The map after one entry's operation: a write sets its key, a
/// compare-and-set whose expected value is there sets the new one, and
/// everything else leaves the map as it was.
pub open spec fn apply_op(kv: Map<i32, i32>, op: Option<Op>) -> Map<i32, i32> {
    match op {
        Some(Op::Write { key, value, .. }) => kv.insert(key, value),
        Some(Op::CAS { key, from, to, .. }) => {
            if kv.contains_key(key) && kv[key] == from {
                kv.insert(key, to)
            } else {
                kv
            }
        },
        _ => kv,
    }
}

/// The map after applying `entries` in order.
pub open spec fn apply_entries(kv: Map<i32, i32>, entries: Seq<Entry>) -> Map<i32, i32>
    decreases entries.len(),
{
    if entries.len() == 0 {
        kv
    } else {
        apply_op(apply_entries(kv, entries.drop_last()), entries.last().op)
    }
}

/// What applying an operation answers.
pub enum Outcome {
    ReadOk(i32),
    WriteOk,
    CasOk,
    KeyMissing,
    Mismatch,
}

/// The answer to an operation on the map as it stands before it.
pub open spec fn outcome(kv: Map<i32, i32>, op: Op) -> Outcome {
    match op {
        Op::Read { key, .. } => if kv.contains_key(key) {
            Outcome::ReadOk(kv[key])
        } else {
            Outcome::KeyMissing
        },
        Op::Write { .. } => Outcome::WriteOk,
        Op::CAS { key, from, .. } => if !kv.contains_key(key) {
            Outcome::KeyMissing
        } else if kv[key] == from {
            Outcome::CasOk
        } else {
            Outcome::Mismatch
        },
    }
}

/// The requester, its request id and the answer, for each entry of
/// `entries` that holds an operation, applied in order from `kv`.
pub open spec fn outcomes(kv: Map<i32, i32>, entries: Seq<Entry>) -> Seq<(Seq<char>, i32, Outcome)>
    decreases entries.len(),
{
    if entries.len() == 0 {
        Seq::empty()
    } else {
        let before = outcomes(kv, entries.drop_last());
        let here = apply_entries(kv, entries.drop_last());
        match entries.last().op {
            Some(op) => before.push((requester_text(op), msg_id_of(op), outcome(here, op))),
            None => before,
        }
    }
}

pub open spec fn requester_text(op: Op) -> Seq<char> {
    match op {
        Op::CAS { requester, .. } => requester@,
        Op::Read { requester, .. } => requester@,
        Op::Write { requester, .. } => requester@,
    }
}

pub open spec fn msg_id_of(op: Op) -> i32 {
    match op {
        Op::CAS { msg_id, .. } => msg_id,
        Op::Read { msg_id, .. } => msg_id,
        Op::Write { msg_id, .. } => msg_id,
    }
}

/// Applying a log in two steps gives the map that applying it at once
/// gives: replicas that apply the same committed prefix, however they
/// batch it, hold the same map.
pub proof fn lemma_apply_split(kv: Map<i32, i32>, a: Seq<Entry>, b: Seq<Entry>)
    ensures
        apply_entries(kv, a + b) == apply_entries(apply_entries(kv, a), b),
    decreases b.len(),
{
    if b.len() == 0 {
        assert(a + b =~= a);
    } else {
        lemma_apply_split(kv, a, b.drop_last());
        assert((a + b).drop_last() =~= a + b.drop_last());
        assert((a + b).last() == b.last());
    }
}

} // verus!
