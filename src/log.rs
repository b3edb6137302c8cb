//! The replicated operation log: entries indexed from one, the first of
//! which is a sentinel of term zero, and the text form of an operation.

use vstd::prelude::*;
use crate::text::{
    decimal, free_of, i32_of, join, split, split_on, parse_i32, push_char, push_i32,
    lemma_decimal_round_trip, lemma_decimal_free_of, lemma_split_join, is_i32,
};

verus! {

/// A client operation as it is carried in the log, with the client that
/// asked for it and the id of its request, so that whichever replica
/// applies it as leader can answer.
#[derive(Debug)]
pub enum Op {
    CAS { key: i32, from: i32, to: i32, requester: String, msg_id: i32 },
    Read { key: i32, requester: String, msg_id: i32 },
    Write { key: i32, value: i32, requester: String, msg_id: i32 },
}

/// What an [`Op`] stands for, with the requester as text.
pub enum OpModel {
    Cas { key: i32, from: i32, to: i32, requester: Seq<char>, msg_id: i32 },
    Read { key: i32, requester: Seq<char>, msg_id: i32 },
    Write { key: i32, value: i32, requester: Seq<char>, msg_id: i32 },
}

impl View for Op {
    type V = OpModel;

    open spec fn view(&self) -> OpModel {
        match self {
            Op::CAS { key, from, to, requester, msg_id } => OpModel::Cas {
                key: *key,
                from: *from,
                to: *to,
                requester: requester@,
                msg_id: *msg_id,
            },
            Op::Read { key, requester, msg_id } => OpModel::Read {
                key: *key,
                requester: requester@,
                msg_id: *msg_id,
            },
            Op::Write { key, value, requester, msg_id } => OpModel::Write {
                key: *key,
                value: *value,
                requester: requester@,
                msg_id: *msg_id,
            },
        }
    }
}

impl Clone for Op {
    fn clone(&self) -> (r: Self)
        ensures
            r == *self,
    {
        match self {
            Op::CAS { key, from, to, requester, msg_id } => Op::CAS {
                key: *key,
                from: *from,
                to: *to,
                requester: requester.clone(),
                msg_id: *msg_id,
            },
            Op::Read { key, requester, msg_id } => Op::Read {
                key: *key,
                requester: requester.clone(),
                msg_id: *msg_id,
            },
            Op::Write { key, value, requester, msg_id } => Op::Write {
                key: *key,
                value: *value,
                requester: requester.clone(),
                msg_id: *msg_id,
            },
        }
    }
}

pub open spec fn cas_name() -> Seq<char> {
    seq!['C', 'A', 'S']
}

pub open spec fn read_name() -> Seq<char> {
    seq!['R', 'e', 'a', 'd']
}

pub open spec fn write_name() -> Seq<char> {
    seq!['W', 'r', 'i', 't', 'e']
}

/// The name of the operation's kind.
pub open spec fn kind_name(m: OpModel) -> Seq<char> {
    match m {
        OpModel::Cas { .. } => cas_name(),
        OpModel::Read { .. } => read_name(),
        OpModel::Write { .. } => write_name(),
    }
}

/// The operation's fields, in their fixed order.
pub open spec fn op_fields(m: OpModel) -> Seq<Seq<char>> {
    match m {
        OpModel::Cas { key, from, to, requester, msg_id } => seq![
            decimal(key as int),
            decimal(from as int),
            decimal(to as int),
            requester,
            decimal(msg_id as int),
        ],
        OpModel::Read { key, requester, msg_id } => seq![
            decimal(key as int),
            requester,
            decimal(msg_id as int),
        ],
        OpModel::Write { key, value, requester, msg_id } => seq![
            decimal(key as int),
            decimal(value as int),
            requester,
            decimal(msg_id as int),
        ],
    }
}

/// The text form `Kind:field,field,...` of an operation.
pub open spec fn encode_op(m: OpModel) -> Seq<char> {
    kind_name(m) + seq![':'] + join(op_fields(m), ',')
}

pub open spec fn requester_of(m: OpModel) -> Seq<char> {
    match m {
        OpModel::Cas { requester, .. } => requester,
        OpModel::Read { requester, .. } => requester,
        OpModel::Write { requester, .. } => requester,
    }
}

/// The text form can be read back only where the requester holds neither
/// of the two separators.
pub open spec fn encodable(m: OpModel) -> bool {
    free_of(requester_of(m), ':') && free_of(requester_of(m), ',')
}

/// The operation that a text form denotes, if any: exactly one `:` after
/// the kind's name, then exactly that kind's number of fields, its numbers
/// read as `i32`.
pub open spec fn parse_op(s: Seq<char>) -> Option<OpModel> {
    let parts = split(s, ':');
    if parts.len() != 2 {
        None
    } else {
        let f = split(parts[1], ',');
        if parts[0] == cas_name() && f.len() == 5 && i32_of(f[0]) is Some && i32_of(f[1]) is Some
            && i32_of(f[2]) is Some && i32_of(f[4]) is Some {
            Some(
                OpModel::Cas {
                    key: i32_of(f[0])->0,
                    from: i32_of(f[1])->0,
                    to: i32_of(f[2])->0,
                    requester: f[3],
                    msg_id: i32_of(f[4])->0,
                },
            )
        } else if parts[0] == read_name() && f.len() == 3 && i32_of(f[0]) is Some && i32_of(
            f[2],
        ) is Some {
            Some(OpModel::Read { key: i32_of(f[0])->0, requester: f[1], msg_id: i32_of(f[2])->0 })
        } else if parts[0] == write_name() && f.len() == 4 && i32_of(f[0]) is Some && i32_of(
            f[1],
        ) is Some && i32_of(f[3]) is Some {
            Some(
                OpModel::Write {
                    key: i32_of(f[0])->0,
                    value: i32_of(f[1])->0,
                    requester: f[2],
                    msg_id: i32_of(f[3])->0,
                },
            )
        } else {
            None
        }
    }
}

proof fn lemma_i32_round_trip(n: i32)
    ensures
        i32_of(decimal(n as int)) == Some(n),
{
    lemma_decimal_round_trip(n as int);
    assert(is_i32(n as int));
}

proof fn lemma_join_free(parts: Seq<Seq<char>>, sep: char, c: char)
    requires
        sep != c,
        forall|i: int| 0 <= i < parts.len() ==> free_of(#[trigger] parts[i], c),
    ensures
        free_of(join(parts, sep), c),
    decreases parts.len(),
{
    if parts.len() > 1 {
        let rest = parts.drop_first();
        assert forall|i: int| 0 <= i < rest.len() implies free_of(#[trigger] rest[i], c) by {
            assert(rest[i] == parts[i + 1]);
        }
        lemma_join_free(rest, sep, c);
        assert(free_of(parts[0], c));
        let j = join(parts, sep);
        let a = parts[0];
        let b = join(rest, sep);
        assert(j == a + seq![sep] + b);
        assert forall|i: int| 0 <= i < j.len() implies j[i] != c by {
            if i < a.len() {
                assert(j[i] == a[i]);
            } else if i == a.len() {
                assert(j[i] == sep);
            } else {
                assert(j[i] == b[i - a.len() - 1]);
            }
        }
    } else if parts.len() == 1 {
        assert(free_of(parts[0], c));
    }
}

/// Reading back the text form of an operation gives the operation.
pub proof fn lemma_op_round_trip(m: OpModel)
    requires
        encodable(m),
    ensures
        parse_op(encode_op(m)) == Some(m),
{
    let f = op_fields(m);
    let k = kind_name(m);
    let body = join(f, ',');
    match m {
        OpModel::Cas { key, from, to, requester, msg_id } => {
            lemma_decimal_free_of(key as int, ',');
            lemma_decimal_free_of(from as int, ',');
            lemma_decimal_free_of(to as int, ',');
            lemma_decimal_free_of(msg_id as int, ',');
            lemma_decimal_free_of(key as int, ':');
            lemma_decimal_free_of(from as int, ':');
            lemma_decimal_free_of(to as int, ':');
            lemma_decimal_free_of(msg_id as int, ':');
            lemma_i32_round_trip(key);
            lemma_i32_round_trip(from);
            lemma_i32_round_trip(to);
            lemma_i32_round_trip(msg_id);
        },
        OpModel::Read { key, requester, msg_id } => {
            lemma_decimal_free_of(key as int, ',');
            lemma_decimal_free_of(msg_id as int, ',');
            lemma_decimal_free_of(key as int, ':');
            lemma_decimal_free_of(msg_id as int, ':');
            lemma_i32_round_trip(key);
            lemma_i32_round_trip(msg_id);
        },
        OpModel::Write { key, value, requester, msg_id } => {
            lemma_decimal_free_of(key as int, ',');
            lemma_decimal_free_of(value as int, ',');
            lemma_decimal_free_of(msg_id as int, ',');
            lemma_decimal_free_of(key as int, ':');
            lemma_decimal_free_of(value as int, ':');
            lemma_decimal_free_of(msg_id as int, ':');
            lemma_i32_round_trip(key);
            lemma_i32_round_trip(value);
            lemma_i32_round_trip(msg_id);
        },
    }
    assert forall|i: int| 0 <= i < f.len() implies free_of(#[trigger] f[i], ',') by {}
    assert forall|i: int| 0 <= i < f.len() implies free_of(#[trigger] f[i], ':') by {}
    lemma_split_join(f, ',');
    lemma_join_free(f, ',', ':');
    let outer = seq![k, body];
    assert(free_of(k, ':'));
    assert forall|i: int| 0 <= i < outer.len() implies free_of(#[trigger] outer[i], ':') by {}
    lemma_split_join(outer, ':');
    assert(outer.drop_first() =~= seq![body]);
    assert(join(outer, ':') == k + seq![':'] + join(outer.drop_first(), ':'));
    assert(join(outer, ':') =~= encode_op(m));
}

/// The text form of an operation.
pub fn to_str(op: Op) -> (r: String)
    ensures
        r@ == encode_op(op@),
{
    let mut out = String::new();
    match op {
        Op::CAS { key, from, to, requester, msg_id } => {
            out.append("CAS:");
            push_i32(&mut out, key);
            push_char(&mut out, ',');
            push_i32(&mut out, from);
            push_char(&mut out, ',');
            push_i32(&mut out, to);
            push_char(&mut out, ',');
            out.append(requester.as_str());
            push_char(&mut out, ',');
            push_i32(&mut out, msg_id);
            proof {
                reveal_strlit("CAS:");
                let f = op_fields(op@);
                assert(f.drop_first().drop_first().drop_first().drop_first() =~= seq![
                    decimal(msg_id as int),
                ]);
                assert(f.drop_first().drop_first().drop_first() =~= seq![
                    requester@,
                    decimal(msg_id as int),
                ]);
                assert(f.drop_first().drop_first() =~= seq![
                    decimal(to as int),
                    requester@,
                    decimal(msg_id as int),
                ]);
                assert(f.drop_first() =~= seq![
                    decimal(from as int),
                    decimal(to as int),
                    requester@,
                    decimal(msg_id as int),
                ]);
                let f1 = f.drop_first();
                let f2 = f1.drop_first();
                let f3 = f2.drop_first();
                let f4 = f3.drop_first();
                assert(join(f4, ',') == decimal(msg_id as int));
                assert(join(f3, ',') == requester@ + seq![','] + join(f4, ','));
                assert(join(f2, ',') == decimal(to as int) + seq![','] + join(f3, ','));
                assert(join(f1, ',') == decimal(from as int) + seq![','] + join(f2, ','));
                assert(join(f, ',') == decimal(key as int) + seq![','] + join(f1, ','));
                assert(out@ =~= encode_op(op@));
            }
        },
        Op::Read { key, requester, msg_id } => {
            out.append("Read:");
            push_i32(&mut out, key);
            push_char(&mut out, ',');
            out.append(requester.as_str());
            push_char(&mut out, ',');
            push_i32(&mut out, msg_id);
            proof {
                reveal_strlit("Read:");
                let f = op_fields(op@);
                assert(f.drop_first().drop_first() =~= seq![decimal(msg_id as int)]);
                assert(f.drop_first() =~= seq![requester@, decimal(msg_id as int)]);
                let f1 = f.drop_first();
                let f2 = f1.drop_first();
                assert(join(f2, ',') == decimal(msg_id as int));
                assert(join(f1, ',') == requester@ + seq![','] + join(f2, ','));
                assert(join(f, ',') == decimal(key as int) + seq![','] + join(f1, ','));
                assert(out@ =~= encode_op(op@));
            }
        },
        Op::Write { key, value, requester, msg_id } => {
            out.append("Write:");
            push_i32(&mut out, key);
            push_char(&mut out, ',');
            push_i32(&mut out, value);
            push_char(&mut out, ',');
            out.append(requester.as_str());
            push_char(&mut out, ',');
            push_i32(&mut out, msg_id);
            proof {
                reveal_strlit("Write:");
                let f = op_fields(op@);
                assert(f.drop_first().drop_first().drop_first() =~= seq![decimal(msg_id as int)]);
                assert(f.drop_first().drop_first() =~= seq![requester@, decimal(msg_id as int)]);
                assert(f.drop_first() =~= seq![
                    decimal(value as int),
                    requester@,
                    decimal(msg_id as int),
                ]);
                let f1 = f.drop_first();
                let f2 = f1.drop_first();
                let f3 = f2.drop_first();
                assert(join(f3, ',') == decimal(msg_id as int));
                assert(join(f2, ',') == requester@ + seq![','] + join(f3, ','));
                assert(join(f1, ',') == decimal(value as int) + seq![','] + join(f2, ','));
                assert(join(f, ',') == decimal(key as int) + seq![','] + join(f1, ','));
                assert(out@ =~= encode_op(op@));
            }
        },
    }
    out
}

/// Reads a numeral that the caller knows to denote an `i32`.
pub fn unsafe_parse_i32(s: &str) -> (r: i32)
    requires
        i32_of(s@) is Some,
    ensures
        Some(r) == i32_of(s@),
{
    match parse_i32(s) {
        Some(v) => v,
        None => 0,
    }
}

fn texts_equal(a: &String, lit: &str) -> (r: bool)
    ensures
        r == (a@ == lit@),
{
    let b = String::from_str(lit);
    *a == b
}

impl Op {
    /// Reads the text form of an operation; `Err` exactly where
    /// [`parse_op`] finds none.
    pub fn from_str(s: &str) -> (r: Result<Op, ()>)
        ensures
            match r {
                Ok(op) => parse_op(s@) == Some(op@),
                Err(()) => parse_op(s@) is None,
            },
    {
        let parts = split_on(s, ':');
        if parts.len() != 2 {
            return Err(());
        }
        let f = split_on(parts[1].as_str(), ',');
        proof {
            reveal_strlit("CAS");
            reveal_strlit("Read");
            reveal_strlit("Write");
            assert("CAS"@ =~= cas_name());
            assert("Read"@ =~= read_name());
            assert("Write"@ =~= write_name());
            assert(parts@[0]@ == split(s@, ':')[0]);
            assert(parts@[1]@ == split(s@, ':')[1]);
        }
        if texts_equal(&parts[0], "CAS") && f.len() == 5 {
            let key = parse_i32(f[0].as_str());
            let from = parse_i32(f[1].as_str());
            let to = parse_i32(f[2].as_str());
            let msg_id = parse_i32(f[4].as_str());
            proof {
                assert(f@[0]@ == split(parts@[1]@, ',')[0]);
                assert(f@[1]@ == split(parts@[1]@, ',')[1]);
                assert(f@[2]@ == split(parts@[1]@, ',')[2]);
                assert(f@[3]@ == split(parts@[1]@, ',')[3]);
                assert(f@[4]@ == split(parts@[1]@, ',')[4]);
            }
            match (key, from, to, msg_id) {
                (Some(key), Some(from), Some(to), Some(msg_id)) => {
                    let requester = f[3].clone();
                    let op = Op::CAS { key, from, to, requester, msg_id };
                    proof {
                        let fs = split(split(s@, ':')[1], ',');
                        assert(split(s@, ':')[0] == cas_name());
                        assert(i32_of(fs[0]) == Some(key));
                        assert(requester@ == fs[3]);
                        assert(fs.len() == 5);
                        assert(i32_of(fs[1]) == Some(from));
                        assert(i32_of(fs[2]) == Some(to));
                        assert(i32_of(fs[4]) == Some(msg_id));
                        assert(parse_op(s@) == Some(op@));
                    }
                    Ok(op)
                },
                _ => {
                    proof {
                        assert(split(s@, ':')[0] != read_name());
                        assert(split(s@, ':')[0] != write_name());
                        assert(parse_op(s@) is None);
                    }
                    Err(())
                },
            }
        } else if texts_equal(&parts[0], "Read") && f.len() == 3 {
            let key = parse_i32(f[0].as_str());
            let msg_id = parse_i32(f[2].as_str());
            proof {
                assert(f@[0]@ == split(parts@[1]@, ',')[0]);
                assert(f@[1]@ == split(parts@[1]@, ',')[1]);
                assert(f@[2]@ == split(parts@[1]@, ',')[2]);
            }
            match (key, msg_id) {
                (Some(key), Some(msg_id)) => {
                    let requester = f[1].clone();
                    let op = Op::Read { key, requester, msg_id };
                    proof {
                        let fs = split(split(s@, ':')[1], ',');
                        assert(split(s@, ':')[0] != cas_name());
                        assert(split(s@, ':')[0] == read_name());
                        assert(requester@ == fs[1]);
                        assert(parse_op(s@) == Some(op@));
                    }
                    Ok(op)
                },
                _ => {
                    proof {
                        assert(split(s@, ':')[0] != cas_name());
                        assert(split(s@, ':')[0] != write_name());
                        assert(parse_op(s@) is None);
                    }
                    Err(())
                },
            }
        } else if texts_equal(&parts[0], "Write") && f.len() == 4 {
            let key = parse_i32(f[0].as_str());
            let value = parse_i32(f[1].as_str());
            let msg_id = parse_i32(f[3].as_str());
            proof {
                assert(f@[0]@ == split(parts@[1]@, ',')[0]);
                assert(f@[1]@ == split(parts@[1]@, ',')[1]);
                assert(f@[2]@ == split(parts@[1]@, ',')[2]);
                assert(f@[3]@ == split(parts@[1]@, ',')[3]);
            }
            match (key, value, msg_id) {
                (Some(key), Some(value), Some(msg_id)) => {
                    let requester = f[2].clone();
                    let op = Op::Write { key, value, requester, msg_id };
                    proof {
                        let fs = split(split(s@, ':')[1], ',');
                        assert(split(s@, ':')[0] != cas_name());
                        assert(split(s@, ':')[0] != read_name());
                        assert(split(s@, ':')[0] == write_name());
                        assert(requester@ == fs[2]);
                        assert(parse_op(s@) == Some(op@));
                    }
                    Ok(op)
                },
                _ => {
                    proof {
                        assert(split(s@, ':')[0] != cas_name());
                        assert(split(s@, ':')[0] != read_name());
                        assert(parse_op(s@) is None);
                    }
                    Err(())
                },
            }
        } else {
            proof {
                let fs = split(split(s@, ':')[1], ',');
                assert(fs.len() == f@.len());
                assert(parse_op(s@) is None);
            }
            Err(())
        }
    }
}

/// One slot of the log: the term in which a leader received it, and the
/// operation, which only the sentinel lacks.
#[derive(Debug)]
pub struct Entry {
    pub term: i32,
    pub op: Option<Op>,
}

impl Clone for Entry {
    fn clone(&self) -> (r: Self)
        ensures
            r == *self,
    {
        let op = match &self.op {
            Some(op) => Some(op.clone()),
            None => None,
        };
        Entry { term: self.term, op }
    }
}

impl Entry {
    /// The sentinel that every log starts with.
    pub open spec fn sentinel_spec() -> Entry {
        Entry { term: 0, op: None }
    }
}

/// The entry at a one-based index of `entries`, if there is one.
pub open spec fn entry_at(entries: Seq<Entry>, index: int) -> Option<Entry> {
    if 1 <= index <= entries.len() {
        Some(entries[index - 1])
    } else {
        None
    }
}

/// The entries from one-based index `from` to the end.
pub open spec fn entries_from(entries: Seq<Entry>, from: int) -> Seq<Entry> {
    if from < 1 || from > entries.len() {
        Seq::empty()
    } else {
        entries.subrange(from - 1, entries.len() as int)
    }
}

/// The log of one replica: never empty, for it keeps its sentinel.
#[derive(Debug)]
pub struct Log {
    node: String,
    entries: Vec<Entry>,
}

impl View for Log {
    type V = Seq<Entry>;

    closed spec fn view(&self) -> Seq<Entry> {
        self.entries@
    }
}

impl Log {
    pub open spec fn wf(&self) -> bool {
        self@.len() >= 1
    }

    /// The replica this log belongs to.
    pub closed spec fn owner(&self) -> Seq<char> {
        self.node@
    }

    /// A log that holds only the sentinel.
    pub fn init(node: String) -> (r: Log)
        ensures
            r.wf(),
            r@ == seq![Entry::sentinel_spec()],
            r.owner() == node@,
    {
        let entries = vec![Entry { term: 0, op: None }];
        Log { node, entries }
    }

    /// The entry at a one-based index, if the log reaches it.
    pub fn get(&self, index: usize) -> (r: Option<Entry>)
        ensures
            r == entry_at(self@, index as int),
    {
        if index == 0 || self.entries.len() <= index - 1 {
            return None;
        }
        Some(self.entries[index - 1].clone())
    }

    /// The final entry.
    pub fn last(&self) -> (r: Entry)
        requires
            self.wf(),
        ensures
            r == self@.last(),
    {
        self.entries[self.entries.len() - 1].clone()
    }

    /// The number of entries, the sentinel included.
    pub fn size(&self) -> (r: usize)
        ensures
            r == self@.len(),
    {
        self.entries.len()
    }

    /// Moves all of `new_entries` to the end of the log.
    pub fn append(&mut self, new_entries: &mut Vec<Entry>)
        ensures
            final(self)@ == old(self)@ + old(new_entries)@,
            final(new_entries)@.len() == 0,
            final(self).owner() == old(self).owner(),
    {
        self.entries.append(new_entries);
    }

    /// Copies of the entries from one-based index `count` to the end; none
    /// when `count` is zero or past the end.
    pub fn upto_index(&self, count: usize) -> (r: Vec<Entry>)
        ensures
            r@ == entries_from(self@, count as int),
    {
        let mut vec: Vec<Entry> = Vec::new();
        if count > 0 {
            let start = count - 1;
            let mut i: usize = start;
            while i < self.entries.len()
                invariant
                    start <= i,
                    start < self.entries@.len() ==> i <= self.entries@.len(),
                    start < self.entries@.len() ==> vec@ == self.entries@.subrange(start as int, i as int),
                    start >= self.entries@.len() ==> vec@.len() == 0,
                decreases self.entries@.len() - i,
            {
                vec.push(self.entries[i].clone());
                i = i + 1;
                proof {
                    assert(vec@ =~= self.entries@.subrange(start as int, i as int));
                }
            }
        }
        proof {
            if count > 0 && count <= self@.len() {
                assert(vec@ =~= entries_from(self@, count as int));
            } else {
                assert(vec@ =~= entries_from(self@, count as int));
            }
        }
        vec
    }

    /// Keeps the first `len` entries. The sentinel is never dropped.
    pub fn truncate(&mut self, len: usize)
        requires
            len >= 1,
        ensures
            final(self)@ == if len < old(self)@.len() {
                old(self)@.subrange(0, len as int)
            } else {
                old(self)@
            },
            final(self).owner() == old(self).owner(),
    {
        self.entries.truncate(len);
        proof {
            if len >= old(self)@.len() {
                assert(self.entries@ =~= old(self)@);
            }
        }
    }
}

} // verus!
