//! The volatile Raft state of one replica and every decision it takes:
//! elections, votes, replication, commit advancement and applying
//! committed entries. Timers are milliseconds on a clock the caller reads.

use vstd::prelude::*;
use crate::error::{
    DefiniteError, MaelstromError, abort, temporarily_unavailable, ABORT, KEY_DOES_NOT_EXIST,
    TEMPORARILY_UNAVAILABLE,
};
use crate::kv::{apply_entries, apply_op, outcome, outcomes, msg_id_of, requester_text, Outcome};
use crate::log::{Entry, Op, entry_at, entries_from};
use crate::raft_state::{RaftState, majority_of};
use crate::text::same_text;

verus! {

/// The role of a replica.
#[derive(Copy, Clone, PartialEq, Eq, Structural, Debug)]
pub enum State {
    LEADER,
    FOLLOWER,
    CANDIDATE,
}

/// Relies on `rand::random`: a value drawn from the process's generator.
#[verifier::external_body]
fn random_u64() -> u64 {
    rand::random::<u64>()
}

/// The election or step-down timeout for the draw `x`: two seconds plus
/// one to ten more.
pub fn timeout_from(x: u64) -> (r: u64)
    ensures
        r == 2000 + (x % 10 + 1) * 1000,
        3000 <= r <= 12000,
{
    2000 + (x % 10 + 1) * 1000
}

/// The pause between two turns of a background loop for the draw `x`.
pub fn loop_pause_from(x: u64) -> (r: u64)
    ensures
        r == 50 + x % 100,
        50 <= r < 150,
{
    50 + x % 100
}

/// The pause before a transaction that lost its compare-and-set tries
/// again, for the draw `x`.
pub fn backoff_from(x: u64) -> (r: u64)
    ensures
        r == 50 + x % 950,
        50 <= r < 1000,
{
    50 + x % 950
}

/// A fresh election or step-down timeout, from a random draw.
pub fn timeout_ms() -> (r: u64)
    ensures
        3000 <= r <= 12000,
{
    timeout_from(random_u64())
}

/// The pause between two turns of a background loop, from a random draw.
pub fn loop_pause_ms() -> (r: u64)
    ensures
        50 <= r < 150,
{
    loop_pause_from(random_u64())
}

/// The pause before a transaction retries, from a random draw.
pub fn backoff_ms() -> (r: u64)
    ensures
        50 <= r < 1000,
{
    backoff_from(random_u64())
}

/// The largest clock reading the timers accept.
pub const LAST_INSTANT: u64 = 18446744073709539615;

/// An `i64` for a count, saturated at the largest `i64`.
pub fn to_i64(n: usize) -> (r: i64)
    ensures
        r as int == if n as int <= i64::MAX as int { n as int } else { i64::MAX as int },
{
    if n as u64 <= 9223372036854775807u64 {
        n as i64
    } else {
        9223372036854775807i64
    }
}

/// A vote request, as a candidate sends it.
pub struct RequestVote {
    pub term: i32,
    pub candidate_id: String,
    pub last_log_index: usize,
    pub last_log_term: i32,
}

pub struct VoteResponse {
    pub term: i32,
    pub vote_granted: bool,
}

/// An append-entries request, as a leader sends it.
pub struct AppendEntries {
    pub term: i32,
    pub leader_id: String,
    pub prev_log_index: i64,
    pub prev_log_term: i32,
    pub entries: Vec<Entry>,
    pub leader_commit: i64,
}

pub struct AppendResponse {
    pub term: i32,
    pub success: bool,
}

/// The answer to a client's operation, produced when it is applied.
pub enum ReplyBody {
    ReadOk { value: i32, in_reply_to: i32 },
    WriteOk { in_reply_to: i32 },
    CasOk { in_reply_to: i32 },
    Error(MaelstromError),
}

/// A reply and the client it goes to.
pub struct Reply {
    pub dest: String,
    pub body: ReplyBody,
}

/// What a reply says, in the terms of [`outcomes`].
pub open spec fn reply_view(r: Reply) -> (Seq<char>, i32, Outcome) {
    match r.body {
        ReplyBody::ReadOk { value, in_reply_to } => (r.dest@, in_reply_to, Outcome::ReadOk(value)),
        ReplyBody::WriteOk { in_reply_to } => (r.dest@, in_reply_to, Outcome::WriteOk),
        ReplyBody::CasOk { in_reply_to } => (r.dest@, in_reply_to, Outcome::CasOk),
        ReplyBody::Error(e) => (
            r.dest@,
            e.in_reply_to,
            if e.error.code == KEY_DOES_NOT_EXIST {
                Outcome::KeyMissing
            } else {
                Outcome::Mismatch
            },
        ),
    }
}

pub open spec fn replies_view(rs: Seq<Reply>) -> Seq<(Seq<char>, i32, Outcome)> {
    rs.map_values(|r: Reply| reply_view(r))
}

/// The answer to a compare-and-set, once applied.
pub fn check_cas_result(cas_result: Result<(), DefiniteError>, in_reply_to: i32) -> (r: ReplyBody)
    ensures
        match cas_result {
            Ok(()) => r == ReplyBody::CasOk { in_reply_to },
            Err(e) => r == ReplyBody::Error(MaelstromError { in_reply_to, error: e }),
        },
{
    match cas_result {
        Ok(()) => ReplyBody::CasOk { in_reply_to },
        Err(error) => ReplyBody::Error(MaelstromError { in_reply_to, error }),
    }
}

/// The answer to a read, once applied.
pub fn check_read_result(read_result: Result<i32, DefiniteError>, msg_id: i32) -> (r: ReplyBody)
    ensures
        match read_result {
            Ok(v) => r == ReplyBody::ReadOk { value: v, in_reply_to: msg_id },
            Err(e) => r == ReplyBody::Error(MaelstromError { in_reply_to: msg_id, error: e }),
        },
{
    match read_result {
        Ok(value) => ReplyBody::ReadOk { value, in_reply_to: msg_id },
        Err(error) => ReplyBody::Error(MaelstromError { in_reply_to: msg_id, error }),
    }
}

/// Everything [`ElectionState`] holds, as plain values.
pub struct ElectionView {
    pub term: int,
    pub role: State,
    pub voted_for: Option<Seq<char>>,
    pub leader: Option<Seq<char>>,
    pub commit_index: int,
    pub last_applied: int,
    pub next_index: Seq<usize>,
    pub match_index: Seq<usize>,
    pub election_deadline: int,
    pub step_down_deadline: int,
}

pub open spec fn filled(n: nat, v: usize) -> Seq<usize> {
    Seq::new(n, |i: int| v)
}

/// The state after hearing of `remote` term: a higher one is adopted, with
/// no vote cast in it, as a follower that knows no leader and whose next
/// election is due at `deadline`.
pub open spec fn stepped(v: ElectionView, remote: int, deadline: int) -> ElectionView {
    if v.term < remote {
        ElectionView {
            term: remote,
            voted_for: None,
            role: State::FOLLOWER,
            leader: None,
            next_index: filled(v.next_index.len(), 0),
            match_index: filled(v.match_index.len(), 0),
            election_deadline: deadline,
            ..v
        }
    } else {
        v
    }
}

/// Terms, commit index and applied index never go back.
pub open spec fn evolves(a: ElectionView, b: ElectionView) -> bool {
    &&& a.term <= b.term
    &&& a.commit_index <= b.commit_index
    &&& a.last_applied <= b.last_applied
}

/// The number of values in `s` at least `v`.
pub open spec fn count_ge(s: Seq<usize>, v: int) -> nat
    decreases s.len(),
{
    if s.len() == 0 {
        0
    } else {
        count_ge(s.drop_last(), v) + if s.last() >= v { 1nat } else { 0nat }
    }
}

/// The match indices of the peers with the leader's own log size: what
/// the commit index can advance to.
pub open spec fn commit_candidates(v: ElectionView, log_len: int) -> Seq<usize> {
    v.match_index.push(log_len as usize)
}

/// The largest index that a majority of the cluster has reached.
pub open spec fn is_majority_index(vals: Seq<usize>, majority: int, r: int) -> bool {
    &&& exists|i: int| 0 <= i < vals.len() && vals[i] as int == r
    &&& count_ge(vals, r) >= majority
    &&& forall|i: int| 0 <= i < vals.len() && count_ge(vals, vals[i] as int) >= majority ==> vals[i] <= r
}

/// The entries applied when the applied index catches up with the commit
/// index: those of the log between the two.
pub open spec fn pending_entries(log: Seq<Entry>, applied: int, commit: int) -> Seq<Entry> {
    let lo = if applied < log.len() { applied } else { log.len() as int };
    let hi = if commit < log.len() { commit } else { log.len() as int };
    if lo < hi {
        log.subrange(lo, hi)
    } else {
        Seq::empty()
    }
}

/// Whether a vote request's log, given by its last term and size, is at
/// least as up to date as `log`.
pub open spec fn log_up_to_date(log: Seq<Entry>, last_term: int, last_index: int) -> bool {
    last_term > log.last().term || (last_term == log.last().term && last_index >= log.len())
}

/// The votes of one election: the term it was started in and the distinct
/// replicas that granted their vote, the candidate itself first.
pub struct Election {
    term: i32,
    votes: Vec<String>,
}

impl Election {
    pub closed spec fn election_term(&self) -> int {
        self.term as int
    }

    /// The term the election was started in.
    pub fn term(&self) -> (r: i32)
        ensures
            r == self.election_term(),
    {
        self.term
    }

    pub closed spec fn votes_spec(&self) -> Seq<Seq<char>> {
        crate::node::views(self.votes@)
    }

    /// An election in `term` that holds the candidate's own vote.
    pub fn start(rs: &RaftState, term: i32) -> (r: Election)
        ensures
            r.election_term() == term,
            r.votes_spec() == seq![rs.id_spec()],
    {
        let votes = vec![rs.node_id()];
        let r = Election { term, votes };
        assert(r.votes_spec() =~= seq![rs.id_spec()]);
        r
    }

    /// The number of distinct votes received.
    pub fn votes_received(&self) -> (r: usize)
        ensures
            r == self.votes_spec().len(),
    {
        self.votes.len()
    }

    /// Counts a vote from `src`, once however often it comes.
    fn add_vote(&mut self, src: String)
        ensures
            final(self).election_term() == old(self).election_term(),
            old(self).votes_spec().contains(src@) ==> final(self).votes_spec() == old(self).votes_spec(),
            !old(self).votes_spec().contains(src@) ==> final(self).votes_spec() == old(self).votes_spec().push(src@),
    {
        let mut i: usize = 0;
        while i < self.votes.len()
            invariant
                i <= self.votes@.len(),
                forall|j: int| 0 <= j < i ==> self.votes_spec()[j] != src@,
            decreases self.votes@.len() - i,
        {
            if same_text(&self.votes[i], &src) {
                assert(self.votes_spec()[i as int] == src@);
                return;
            }
            i = i + 1;
        }
        proof {
            assert(!self.votes_spec().contains(src@)) by {
                if self.votes_spec().contains(src@) {
                    let j = choose|j: int| 0 <= j < self.votes_spec().len() && self.votes_spec()[j] == src@;
                    assert(self.votes_spec()[j] != src@);
                }
            }
        }
        let ghost before = self.votes@;
        self.votes.push(src);
        proof {
            assert(crate::node::views(self.votes@) =~= crate::node::views(before).push(src@)) by {
                assert forall|j: int| 0 <= j < self.votes@.len() implies #[trigger] crate::node::views(self.votes@)[j] == crate::node::views(before).push(src@)[j] by {
                    if j < before.len() {
                        assert(self.votes@[j] == before[j]);
                    }
                }
            }
        }
    }
}

/// The volatile Raft state of a replica.
pub struct ElectionState {
    term: i32,
    curr_state: State,
    voted_for: Option<String>,
    leader: Option<String>,
    commit_index: usize,
    last_applied: usize,
    next_index: Vec<usize>,
    match_index: Vec<usize>,
    next_election: u64,
    step_down: u64,
}

pub open spec fn opt_view(o: Option<String>) -> Option<Seq<char>> {
    match o {
        Some(s) => Some(s@),
        None => None,
    }
}

impl View for ElectionState {
    type V = ElectionView;

    closed spec fn view(&self) -> ElectionView {
        ElectionView {
            term: self.term as int,
            role: self.curr_state,
            voted_for: opt_view(self.voted_for),
            leader: opt_view(self.leader),
            commit_index: self.commit_index as int,
            last_applied: self.last_applied as int,
            next_index: self.next_index@,
            match_index: self.match_index@,
            election_deadline: self.next_election as int,
            step_down_deadline: self.step_down as int,
        }
    }
}

impl ElectionState {
    /// The shape every state keeps: one next and one match index per peer,
    /// a term that fits, the applied index behind the commit index, and a
    /// leader's next indices past the sentinel.
    pub open spec fn wf(&self, rs: &RaftState) -> bool {
        &&& rs.wf()
        &&& self@.next_index.len() == rs.peers_spec().len()
        &&& self@.match_index.len() == rs.peers_spec().len()
        &&& 0 <= self@.term
        &&& 1 <= self@.last_applied <= self@.commit_index
        &&& self@.role == State::LEADER ==> forall|i: int|
            0 <= i < self@.next_index.len() ==> self@.next_index[i] >= 1
    }

    /// The applied and commit indices stay within the log.
    pub open spec fn commit_in_log(&self, rs: &RaftState) -> bool {
        self@.last_applied <= self@.commit_index <= rs.log_spec().len()
    }

    /// A follower in term zero that has voted for nobody; the sentinel is
    /// committed and applied.
    pub fn init(rs: &RaftState, now: u64) -> (r: ElectionState)
        requires
            rs.wf(),
        ensures
            r.wf(rs),
            r.commit_in_log(rs),
            r@.term == 0,
            r@.role == State::FOLLOWER,
            r@.voted_for is None,
            r@.leader is None,
            r@.commit_index == 1,
            r@.last_applied == 1,
            r@.next_index == filled(rs.peers_spec().len(), 0),
            r@.match_index == filled(rs.peers_spec().len(), 0),
            r@.election_deadline == now,
            r@.step_down_deadline == now,
    {
        proof {
            rs.lemma_log_nonempty();
        }
        let n = rs.peer_count();
        let next_index = zeros(n);
        let match_index = zeros(n);
        ElectionState {
            term: 0,
            curr_state: State::FOLLOWER,
            voted_for: None,
            leader: None,
            commit_index: 1,
            last_applied: 1,
            next_index,
            match_index,
            next_election: now,
            step_down: now,
        }
    }

    pub fn current_term(&self) -> (r: i32)
        ensures
            r == self@.term,
    {
        self.term
    }

    pub fn current_state(&self) -> (r: State)
        ensures
            r == self@.role,
    {
        self.curr_state
    }

    pub fn commit_index(&self) -> (r: usize)
        ensures
            r == self@.commit_index,
    {
        self.commit_index
    }

    pub fn last_applied(&self) -> (r: usize)
        ensures
            r == self@.last_applied,
    {
        self.last_applied
    }

    pub fn get_leader(&self) -> (r: Option<String>)
        ensures
            opt_view(r) == self@.leader,
    {
        match &self.leader {
            Some(l) => Some(l.clone()),
            None => None,
        }
    }

    pub fn voted_for(&self) -> (r: Option<String>)
        ensures
            opt_view(r) == self@.voted_for,
    {
        match &self.voted_for {
            Some(l) => Some(l.clone()),
            None => None,
        }
    }

    pub fn next_election_time(&self) -> (r: u64)
        ensures
            r == self@.election_deadline,
    {
        self.next_election
    }

    pub fn step_down_time(&self) -> (r: u64)
        ensures
            r == self@.step_down_deadline,
    {
        self.step_down
    }

    pub fn next_index_of_node(&self, peer: usize) -> (r: usize)
        requires
            peer < self@.next_index.len(),
        ensures
            r == self@.next_index[peer as int],
    {
        self.next_index[peer]
    }

    pub fn match_index_of_node(&self, peer: usize) -> (r: usize)
        requires
            peer < self@.match_index.len(),
        ensures
            r == self@.match_index[peer as int],
    {
        self.match_index[peer]
    }

    /// The next election falls due after a fresh timeout.
    pub fn reset_election_time(&mut self, now: u64)
        requires
            now <= LAST_INSTANT,
        ensures
            now + 3000 <= final(self)@.election_deadline <= now + 12000,
            final(self)@ == (ElectionView {
                election_deadline: final(self)@.election_deadline,
                ..old(self)@
            }),
    {
        self.next_election = now + timeout_ms();
    }

    /// A leader steps down unless it hears from the cluster within a
    /// fresh timeout.
    pub fn reset_step_down_time(&mut self, now: u64)
        requires
            now <= LAST_INSTANT,
        ensures
            now + 3000 <= final(self)@.step_down_deadline <= now + 12000,
            final(self)@ == (ElectionView {
                step_down_deadline: final(self)@.step_down_deadline,
                ..old(self)@
            }),
    {
        self.step_down = now + timeout_ms();
    }

    pub fn set_commit_index(&mut self, i: usize)
        ensures
            final(self)@ == (ElectionView { commit_index: i as int, ..old(self)@ }),
    {
        self.commit_index = i;
    }

    pub fn set_leader(&mut self, leader_id: String)
        ensures
            final(self)@ == (ElectionView { leader: Some(leader_id@), ..old(self)@ }),
    {
        self.leader = Some(leader_id);
    }

    pub fn vote_for(&mut self, id: String)
        ensures
            final(self)@ == (ElectionView { voted_for: Some(id@), ..old(self)@ }),
    {
        self.voted_for = Some(id);
    }

    pub fn set_node_next_index(&mut self, peer: usize, i: usize)
        requires
            peer < old(self)@.next_index.len(),
        ensures
            final(self)@ == (ElectionView {
                next_index: old(self)@.next_index.update(peer as int, i),
                ..old(self)@
            }),
    {
        self.next_index.set(peer, i);
    }

    pub fn set_node_match_index(&mut self, peer: usize, i: usize)
        requires
            peer < old(self)@.match_index.len(),
        ensures
            final(self)@ == (ElectionView {
                match_index: old(self)@.match_index.update(peer as int, i),
                ..old(self)@
            }),
    {
        self.match_index.set(peer, i);
    }

    /// Moves to `new_term`, forgetting the vote; a lower term is refused.
    pub fn advance_term(&mut self, new_term: i32) -> (r: Result<(), String>)
        ensures
            r is Err <==> new_term < old(self)@.term,
            r is Err ==> final(self)@ == old(self)@,
            r is Ok ==> final(self)@ == (ElectionView {
                term: new_term as int,
                voted_for: if new_term > old(self)@.term { None } else { old(self)@.voted_for },
                ..old(self)@
            }),
    {
        if new_term < self.term {
            let mut text = String::from_str("Cannot change term from ");
            crate::text::push_i32(&mut text, self.term);
            text.append(" to ");
            crate::text::push_i32(&mut text, new_term);
            return Err(text);
        }
        if new_term > self.term {
            self.voted_for = None;
        }
        self.term = new_term;
        Ok(())
    }

    /// Becomes a follower that knows no leader, with its peer indices
    /// cleared and a fresh election timeout; its vote in this term stays.
    pub fn become_follower(&mut self, now: u64)
        requires
            now <= LAST_INSTANT,
        ensures
            now + 3000 <= final(self)@.election_deadline <= now + 12000,
            final(self)@ == (ElectionView {
                role: State::FOLLOWER,
                leader: None,
                next_index: filled(old(self)@.next_index.len(), 0),
                match_index: filled(old(self)@.match_index.len(), 0),
                election_deadline: final(self)@.election_deadline,
                ..old(self)@
            }),
    {
        self.reset_election_time(now);
        self.clear_indices();
        self.leader = None;
        self.curr_state = State::FOLLOWER;
    }

    fn clear_indices(&mut self)
        ensures
            final(self)@ == (ElectionView {
                next_index: filled(old(self)@.next_index.len(), 0),
                match_index: filled(old(self)@.match_index.len(), 0),
                ..old(self)@
            }),
    {
        self.next_index = zeros(self.next_index.len());
        self.match_index = zeros(self.match_index.len());
    }

    /// Adopts a higher remote term as a follower; returns whether it did.
    pub fn maybe_step_down(&mut self, remote_term: i32, now: u64) -> (r: bool)
        requires
            now <= LAST_INSTANT,
        ensures
            r == (old(self)@.term < remote_term),
            final(self)@ == stepped(old(self)@, remote_term as int, final(self)@.election_deadline),
            r ==> now + 3000 <= final(self)@.election_deadline <= now + 12000,
    {
        if self.term < remote_term {
            let _ = self.advance_term(remote_term);
            self.become_follower(now);
            return true;
        }
        false
    }

    /// Whether an election is due: the timeout passed, this replica is not
    /// the leader, and its term can still grow.
    pub fn election_due(&self, now: u64) -> (r: bool)
        ensures
            r == (self@.election_deadline < now && self@.role != State::LEADER && self@.term
                < i32::MAX),
    {
        self.next_election < now && self.curr_state != State::LEADER && self.term < i32::MAX
    }

    /// Whether a leader has gone a whole timeout without hearing from the
    /// cluster.
    pub fn step_down_due(&self, now: u64) -> (r: bool)
        ensures
            r == (self@.role == State::LEADER && self@.step_down_deadline < now),
    {
        self.curr_state == State::LEADER && self.step_down < now
    }

    /// Starts an election in the next term, voting for itself, and returns
    /// the vote request to send to every peer.
    pub fn become_candidate(&mut self, rs: &RaftState, now: u64) -> (r: RequestVote)
        requires
            old(self).wf(rs),
            old(self)@.role != State::LEADER,
            old(self)@.term < i32::MAX,
            now <= LAST_INSTANT,
        ensures
            final(self).wf(rs),
            now + 3000 <= final(self)@.election_deadline <= now + 12000,
            now + 3000 <= final(self)@.step_down_deadline <= now + 12000,
            final(self)@ == (ElectionView {
                term: old(self)@.term + 1,
                role: State::CANDIDATE,
                voted_for: Some(rs.id_spec()),
                leader: None,
                election_deadline: final(self)@.election_deadline,
                step_down_deadline: final(self)@.step_down_deadline,
                ..old(self)@
            }),
            r.term == final(self)@.term,
            r.candidate_id@ == rs.id_spec(),
            r.last_log_index == rs.log_spec().len(),
            r.last_log_term == rs.log_spec().last().term,
    {
        self.curr_state = State::CANDIDATE;
        let t = self.term + 1;
        let _ = self.advance_term(t);
        self.reset_election_time(now);
        self.reset_step_down_time(now);
        self.voted_for = Some(rs.node_id());
        self.leader = None;
        RequestVote {
            term: self.term,
            candidate_id: rs.node_id(),
            last_log_index: rs.log_size(),
            last_log_term: rs.log_last().term,
        }
    }

    /// A candidate becomes leader: every peer's next index is past the end
    /// of the log and its match index is zero. Any other role is left as
    /// it is.
    pub fn become_leader(&mut self, rs: &RaftState, now: u64)
        requires
            old(self).wf(rs),
            rs.log_spec().len() < usize::MAX,
            now <= LAST_INSTANT,
        ensures
            final(self).wf(rs),
            old(self)@.role != State::CANDIDATE ==> final(self)@ == old(self)@,
            old(self)@.role == State::CANDIDATE ==> {
                &&& now + 3000 <= final(self)@.step_down_deadline <= now + 12000
                &&& final(self)@ == (ElectionView {
                    role: State::LEADER,
                    leader: None,
                    next_index: filled(rs.peers_spec().len(), (rs.log_spec().len() + 1) as usize),
                    match_index: filled(rs.peers_spec().len(), 0),
                    step_down_deadline: final(self)@.step_down_deadline,
                    ..old(self)@
                })
            },
    {
        if self.curr_state != State::CANDIDATE {
            return;
        }
        self.reset_step_down_time(now);
        let n = rs.peer_count();
        let size = rs.log_size();
        self.next_index = filled_vec(n, size + 1);
        self.match_index = zeros(n);
        self.leader = None;
        self.curr_state = State::LEADER;
    }

    /// Whether a vote response grants this candidate its vote in the
    /// current term.
    pub fn vote_granted(&self, term: i32, granted: bool) -> (r: bool)
        ensures
            r == (self@.role == State::CANDIDATE && self@.term == term && granted),
    {
        self.curr_state == State::CANDIDATE && self.term == term && granted
    }

    /// Counts one vote response of `election`; every response restarts the
    /// step-down timeout. A higher term ends the
    /// election at once: the replica steps down and `true` comes back,
    /// with the tally untouched.
    pub fn count_vote(
        &mut self,
        rs: &RaftState,
        election: &mut Election,
        response_term: i32,
        granted: bool,
        src: String,
        now: u64,
    ) -> (r: bool)
        requires
            old(self).wf(rs),
            now <= LAST_INSTANT,
        ensures
            final(self).wf(rs),
            r == (old(self)@.term < response_term),
            now + 3000 <= final(self)@.step_down_deadline <= now + 12000,
            final(self)@ == stepped(
                ElectionView { step_down_deadline: final(self)@.step_down_deadline, ..old(self)@ },
                response_term as int,
                final(self)@.election_deadline,
            ),
            final(election).election_term() == old(election).election_term(),
            r ==> final(election).votes_spec() == old(election).votes_spec(),
            !r ==> {
                let counted = old(self)@.role == State::CANDIDATE && old(self)@.term == response_term
                    && response_term == old(election).election_term() && granted;
                let fresh = counted && !old(election).votes_spec().contains(src@);
                &&& fresh ==> final(election).votes_spec() == old(election).votes_spec().push(src@)
                &&& !fresh ==> final(election).votes_spec() == old(election).votes_spec()
            },
    {
        self.reset_step_down_time(now);
        if self.maybe_step_down(response_term, now) {
            return true;
        }
        if self.vote_granted(response_term, granted) && response_term == election.term {
            election.add_vote(src);
        }
        false
    }

    /// Becomes leader when a majority of the whole cluster voted in this
    /// term's election; returns whether the votes made a majority.
    pub fn validate_election(&mut self, rs: &RaftState, election: &Election, now: u64) -> (r: bool)
        requires
            old(self).wf(rs),
            rs.log_spec().len() < usize::MAX,
            now <= LAST_INSTANT,
        ensures
            final(self).wf(rs),
            r == (majority_of(rs.peers_spec().len() + 1int) <= election.votes_spec().len()
                && election.election_term() == old(self)@.term),
            !(r && old(self)@.role == State::CANDIDATE) ==> final(self)@ == old(self)@,
            r && old(self)@.role == State::CANDIDATE ==> final(self)@.role == State::LEADER
                && final(self)@.term == old(self)@.term,
    {
        let majority = rs.majority();
        if majority <= election.votes_received() && election.term == self.term {
            self.become_leader(rs, now);
            return true;
        }
        false
    }

    /// Answers a vote request. A higher term is adopted first; the vote is
    /// then granted iff the request's term is current, no vote was cast in
    /// it yet, and the candidate's log is at least as up to date.
    pub fn handle_request_vote(&mut self, rs: &RaftState, req: &RequestVote, now: u64) -> (r:
        VoteResponse)
        requires
            old(self).wf(rs),
            now <= LAST_INSTANT,
        ensures
            final(self).wf(rs),
            ({
                let s = stepped(old(self)@, req.term as int, final(self)@.election_deadline);
                let grant = req.term >= s.term && s.voted_for is None && log_up_to_date(
                    rs.log_spec(),
                    req.last_log_term as int,
                    req.last_log_index as int,
                );
                &&& r.vote_granted == grant
                &&& grant ==> final(self)@ == (ElectionView {
                    voted_for: Some(req.candidate_id@),
                    ..s
                })
                &&& !grant ==> final(self)@ == s
                &&& r.term == final(self)@.term
            }),
            old(self)@.voted_for is Some && req.term <= old(self)@.term ==> final(self)@.voted_for
                == old(self)@.voted_for && !r.vote_granted,
    {
        self.maybe_step_down(req.term, now);
        let last_log_term = rs.log_last().term;
        let log_size = rs.log_size();
        let mut grant = false;
        if req.term < self.term {
        } else if self.voted_for.is_some() {
        } else if req.last_log_term < last_log_term {
        } else if req.last_log_term == last_log_term && req.last_log_index < log_size {
        } else {
            grant = true;
            self.voted_for = Some(req.candidate_id.clone());
        }
        VoteResponse { term: self.term, vote_granted: grant }
    }
    /// Answers an append-entries request from a leader.
    ///
    /// A higher term is adopted first. A request from an older term is
    /// refused. Otherwise the sender is recorded as leader and the election
    /// timeout restarts; a previous index of zero or less is an abort error;
    /// a log that lacks the previous entry, or holds it with another term,
    /// refuses; else the log is cut to the previous index, the entries are
    /// added, and the commit index moves up to the leader's, within the log.
    pub fn handle_append_entries(
        &mut self,
        rs: &mut RaftState,
        req: AppendEntries,
        msg_id: i32,
        now: u64,
    ) -> (r: Result<AppendResponse, MaelstromError>)
        requires
            old(self).wf(&*old(rs)),
            now <= LAST_INSTANT,
        ensures
            final(self).wf(&*final(rs)),
            evolves(old(self)@, final(self)@),
            final(rs).kv() == old(rs).kv(),
            final(rs).id_spec() == old(rs).id_spec(),
            final(rs).peers_spec() == old(rs).peers_spec(),
            final(self)@.term == if old(self)@.term < req.term { req.term as int } else {
                old(self)@.term
            },
            final(self)@.last_applied == old(self)@.last_applied,
            req.term < final(self)@.term ==> {
                &&& r == Ok::<AppendResponse, MaelstromError>(
                    AppendResponse { term: final(self)@.term as i32, success: false },
                )
                &&& final(self)@ == stepped(old(self)@, req.term as int, final(self)@.election_deadline)
                &&& final(rs).log_spec() == old(rs).log_spec()
            },
            req.term >= final(self)@.term ==> final(self)@.leader == Some(req.leader_id@),
            req.term >= final(self)@.term ==> now + 3000 <= final(self)@.election_deadline <= now
                + 12000,
            req.term >= final(self)@.term && req.prev_log_index <= 0 ==> {
                &&& r matches Err(e) && e.in_reply_to == msg_id && e.error.code == ABORT
                &&& final(rs).log_spec() == old(rs).log_spec()
                &&& final(self)@.commit_index == old(self)@.commit_index
            },
            req.term >= final(self)@.term && req.prev_log_index > 0 ==> {
                let prev = entry_at(old(rs).log_spec(), req.prev_log_index as int);
                let matched = prev matches Some(e) && e.term == req.prev_log_term;
                let new_log = old(rs).log_spec().subrange(0, req.prev_log_index as int) + req.entries@;
                let bound = if req.leader_commit < new_log.len() { req.leader_commit as int } else { new_log.len() as int };
                &&& r == Ok::<AppendResponse, MaelstromError>(
                    AppendResponse { term: final(self)@.term as i32, success: matched },
                )
                &&& matched ==> final(rs).log_spec() == new_log
                &&& matched ==> final(self)@.commit_index == if old(self)@.commit_index < bound { bound } else { old(self)@.commit_index }
                &&& !matched ==> final(rs).log_spec() == old(rs).log_spec()
                &&& !matched ==> final(self)@.commit_index == old(self)@.commit_index
            },
            old(self).commit_in_log(&*old(rs)) && (req.prev_log_index + req.entries@.len()
                >= old(self)@.commit_index || !(r matches Ok(resp) && resp.success))
                ==> final(self).commit_in_log(&*final(rs)),
            old(self).commit_in_log(&*old(rs)) && req.prev_log_index + req.entries@.len()
                >= old(self)@.commit_index && (forall|i: int|
                req.prev_log_index <= i < old(self)@.commit_index ==> req.entries@[i
                - req.prev_log_index] == #[trigger] old(rs).log_spec()[i]) ==> final(rs).log_spec().subrange(
                0,
                old(self)@.commit_index,
            ) == old(rs).log_spec().subrange(0, old(self)@.commit_index),
    {
        let remote_term = req.term;
        self.maybe_step_down(remote_term, now);
        if remote_term < self.term {
            return Ok(AppendResponse { term: self.term, success: false });
        }
        self.leader = Some(req.leader_id);
        self.reset_election_time(now);
        let prev = req.prev_log_index;
        if prev <= 0 {
            let mut text = String::from_str("Out of bounds previous log index: ");
            crate::text::push_i32(&mut text, if prev < -2147483648 { -2147483648 } else { prev as i32 });
            return Err(MaelstromError { in_reply_to: msg_id, error: abort(text) });
        }
        let size = to_i64(rs.log_size());
        if prev > size {
            assert(entry_at(rs.log_spec(), prev as int) is None);
            return Ok(AppendResponse { term: self.term, success: false });
        }
        let prev_index = prev as usize;
        let entry = rs.log_entry(prev_index);
        let matched = match &entry {
            Some(e) => e.term == req.prev_log_term,
            None => false,
        };
        if !matched {
            return Ok(AppendResponse { term: self.term, success: false });
        }
        rs.truncate_log(prev_index);
        proof {
            assert(rs.log_spec() =~= old(rs).log_spec().subrange(0, prev as int));
        }
        let mut entries = req.entries;
        let ghost added = entries@;
        rs.append_log_entries(&mut entries);
        let new_size = rs.log_size();
        let leader_commit = req.leader_commit;
        if leader_commit > 0 {
            let bound: usize = if (leader_commit as u64) < (new_size as u64) { leader_commit as usize } else { new_size };
            if self.commit_index < bound {
                self.commit_index = bound;
            }
        }
        proof {
            assert(old(rs).log_spec().subrange(0, prev as int) + added == rs.log_spec());
            let c = old(self)@.commit_index;
            if old(self).commit_in_log(&*old(rs)) && prev + added.len() >= c && (forall|i: int|
                prev <= i < c ==> added[i - prev] == #[trigger] old(rs).log_spec()[i]) {
                assert forall|i: int| 0 <= i < c implies rs.log_spec().subrange(0, c)[i]
                    == old(rs).log_spec().subrange(0, c)[i] by {
                    if i >= prev {
                        assert(rs.log_spec()[i] == added[i - prev]);
                    }
                }
                assert(rs.log_spec().subrange(0, c) =~= old(rs).log_spec().subrange(0, c));
            }
        }
        Ok(AppendResponse { term: self.term, success: true })
    }
    /// The request that brings `peer` up to date: the entries from its next
    /// index on, the entry before them, and this leader's commit index.
    pub fn append_entries_for(&self, rs: &RaftState, peer: usize) -> (r: AppendEntries)
        requires
            self.wf(rs),
            peer < rs.peers_spec().len(),
        ensures
            ({
                let ni = self@.next_index[peer as int] as int;
                &&& r.term == self@.term
                &&& r.leader_id@ == rs.id_spec()
                &&& r.entries@ == entries_from(rs.log_spec(), ni)
                &&& r.prev_log_index as int == (if ni <= i64::MAX { ni } else { i64::MAX as int }) - 1
                &&& r.prev_log_term == match entry_at(rs.log_spec(), ni - 1) {
                    Some(e) => e.term,
                    None => 1,
                }
                &&& r.leader_commit as int == if self@.commit_index <= i64::MAX {
                    self@.commit_index
                } else {
                    i64::MAX as int
                }
            }),
    {
        let ni = self.next_index[peer];
        let entries = rs.log_from_index(ni);
        let prev_log_term = if ni == 0 {
            1
        } else {
            match rs.log_entry(ni - 1) {
                Some(e) => e.term,
                None => 1,
            }
        };
        AppendEntries {
            term: self.term,
            leader_id: rs.node_id(),
            prev_log_index: to_i64(ni) - 1,
            prev_log_term,
            entries,
            leader_commit: to_i64(self.commit_index),
        }
    }

    /// The largest index that a majority of the cluster holds: among the
    /// peers' match indices and the leader's own log size, the largest
    /// value that at least a majority of them reach.
    pub fn median_commit_index(&self, rs: &RaftState) -> (r: usize)
        requires
            self.wf(rs),
        ensures
            is_majority_index(
                commit_candidates(self@, rs.log_spec().len() as int),
                majority_of(rs.peers_spec().len() + 1int),
                r as int,
            ),
    {
        let majority = rs.majority();
        let mut vals: Vec<usize> = Vec::new();
        let mut k: usize = 0;
        while k < self.match_index.len()
            invariant
                k <= self.match_index@.len(),
                vals@ == self.match_index@.subrange(0, k as int),
            decreases self.match_index@.len() - k,
        {
            vals.push(self.match_index[k]);
            k = k + 1;
            proof {
                assert(vals@ =~= self.match_index@.subrange(0, k as int));
            }
        }
        vals.push(rs.log_size());
        proof {
            assert(vals@ =~= commit_candidates(self@, rs.log_spec().len() as int));
        }
        let ghost cands = vals@;
        let n = vals.len();
        let mut low: usize = 0;
        let mut j: usize = 1;
        while j < n
            invariant
                vals@ == cands,
                n == cands.len(),
                1 <= j <= n,
                low < n,
                forall|x: int| 0 <= x < j ==> cands[low as int] <= cands[x],
            decreases n - j,
        {
            if vals[j] < vals[low] {
                low = j;
            }
            j = j + 1;
        }
        proof {
            lemma_count_ge_all(cands, cands[low as int] as int);
        }
        let mut best: usize = 0;
        let mut found = false;
        let mut i: usize = 0;
        while i < n
            invariant
                vals@ == cands,
                n == cands.len(),
                i <= n,
                low < n,
                count_ge(cands, cands[low as int] as int) == n,
                majority <= n,
                majority == majority_of(rs.peers_spec().len() + 1int),
                i > low ==> found,
                found ==> (exists|k: int| 0 <= k < n && cands[k] == best) && count_ge(cands, best as int) >= majority,
                !found ==> forall|x: int| 0 <= x < i ==> count_ge(cands, cands[x] as int) < majority,
                forall|x: int| 0 <= x < i && count_ge(cands, cands[x] as int) >= majority ==> cands[x] <= best,
            decreases n - i,
        {
            let v = vals[i];
            let c = count_at_least(&vals, v);
            if c >= majority && (!found || v > best) {
                best = v;
                found = true;
            }
            proof {
                assert(cands[i as int] == v);
            }
            i = i + 1;
        }
        best
    }

    /// A leader moves its commit index to the index a majority holds when
    /// that entry is of its own term; then committed entries are applied.
    pub fn advance_commit_index(&mut self, rs: &mut RaftState) -> (r: Vec<Reply>)
        requires
            old(self).wf(&*old(rs)),
        ensures
            final(self).wf(&*final(rs)),
            ({
                let n = majority_index(
                    commit_candidates(old(self)@, old(rs).log_spec().len() as int),
                    majority_of(old(rs).peers_spec().len() + 1int),
                );
                let advance = old(self)@.role == State::LEADER && old(self)@.commit_index < n
                    && match entry_at(old(rs).log_spec(), n) {
                    Some(e) => e.term == old(self)@.term,
                    None => false,
                };
                let commit = if advance { n } else { old(self)@.commit_index };
                let pending = pending_entries(old(rs).log_spec(), old(self)@.last_applied, commit);
                &&& final(self)@ == (ElectionView {
                    commit_index: commit,
                    last_applied: commit,
                    ..old(self)@
                })
                &&& final(rs).kv() == apply_entries(old(rs).kv(), pending)
                &&& old(self)@.role == State::LEADER ==> replies_view(r@) == outcomes(old(rs).kv(), pending)
                &&& old(self)@.role != State::LEADER ==> r@.len() == 0
            }),
            final(rs).log_spec() == old(rs).log_spec(),
            final(rs).id_spec() == old(rs).id_spec(),
            final(rs).peers_spec() == old(rs).peers_spec(),
            evolves(old(self)@, final(self)@),
            old(self).commit_in_log(&*old(rs)) ==> final(self).commit_in_log(&*final(rs)),
    {
        let ghost vals = commit_candidates(self@, rs.log_spec().len() as int);
        let ghost maj = majority_of(rs.peers_spec().len() + 1int);
        if self.curr_state == State::LEADER {
            let n = self.median_commit_index(rs);
            proof {
                lemma_majority_index_unique(vals, maj, n as int);
            }
            if self.commit_index < n {
                match rs.log_entry(n) {
                    Some(e) => {
                        if e.term == self.term {
                            self.commit_index = n;
                        }
                    },
                    None => {},
                }
            }
        }
        self.advance_state_machine(rs)
    }

    /// Applies every committed entry not yet applied, in log order. A
    /// leader returns the replies to the clients that asked; a follower
    /// returns none.
    pub fn advance_state_machine(&mut self, rs: &mut RaftState) -> (r: Vec<Reply>)
        requires
            old(self).wf(&*old(rs)),
        ensures
            final(self).wf(&*final(rs)),
            final(self)@ == (ElectionView { last_applied: old(self)@.commit_index, ..old(self)@ }),
            ({
                let pending = pending_entries(
                    old(rs).log_spec(),
                    old(self)@.last_applied,
                    old(self)@.commit_index,
                );
                &&& final(rs).kv() == apply_entries(old(rs).kv(), pending)
                &&& old(self)@.role == State::LEADER ==> replies_view(r@) == outcomes(old(rs).kv(), pending)
                &&& old(self)@.role != State::LEADER ==> r@.len() == 0
            }),
            final(rs).log_spec() == old(rs).log_spec(),
            final(rs).id_spec() == old(rs).id_spec(),
            final(rs).peers_spec() == old(rs).peers_spec(),
    {
        let size = rs.log_size();
        let lo = if self.last_applied < size { self.last_applied } else { size };
        let hi = if self.commit_index < size { self.commit_index } else { size };
        let leading = self.curr_state == State::LEADER;
        let ghost kv0 = rs.kv();
        let ghost log = rs.log_spec();
        let mut out: Vec<Reply> = Vec::new();
        let mut i: usize = lo;
        proof {
            assert(log.subrange(lo as int, lo as int) =~= Seq::<Entry>::empty());
        }
        while i < hi
            invariant
                lo <= i,
                lo <= hi ==> i <= hi,
                hi <= size,
                size == log.len(),
                rs.wf(),
                rs.log_spec() == log,
                rs.id_spec() == old(rs).id_spec(),
                rs.peers_spec() == old(rs).peers_spec(),
                lo <= hi ==> rs.kv() == apply_entries(kv0, log.subrange(lo as int, i as int)),
                lo <= hi && leading ==> replies_view(out@) == outcomes(kv0, log.subrange(lo as int, i as int)),
                !leading ==> out@.len() == 0,
            decreases hi - i,
        {
            let ghost before = log.subrange(lo as int, i as int);
            let ghost after = log.subrange(lo as int, i as int + 1);
            proof {
                assert(after.drop_last() =~= before);
                assert(after.last() == log[i as int]);
            }
            let entry = rs.log_entry(i + 1);
            match entry {
                Some(e) => match e.op {
                    Some(op) => {
                        let reply = apply_one(rs, op);
                        if leading {
                            let ghost prev = out@;
                            out.push(reply);
                            proof {
                                assert(replies_view(out@) =~= replies_view(prev).push(reply_view(reply)));
                            }
                        }
                    },
                    None => {},
                },
                None => {},
            }
            i = i + 1;
        }
        proof {
            if !(lo < hi) {
                assert(pending_entries(log, old(self)@.last_applied, old(self)@.commit_index) =~= Seq::<Entry>::empty());
                if lo == hi {
                    assert(log.subrange(lo as int, hi as int) =~= Seq::<Entry>::empty());
                }
            }
        }
        self.last_applied = self.commit_index;
        out
    }

    /// Takes in a peer's answer to an append-entries request that carried
    /// `entries_len` entries from next index `sent_next`. A higher term is
    /// adopted first. While still leader of the answer's term, the step-down
    /// timeout restarts; success moves the peer's indices forward and may
    /// advance the commit index, whose replies come back; failure moves its
    /// next index back by one, never below one.
    pub fn handle_append_response(
        &mut self,
        rs: &mut RaftState,
        peer: usize,
        sent_next: usize,
        entries_len: usize,
        response_term: i32,
        success: bool,
        now: u64,
    ) -> (r: Vec<Reply>)
        requires
            old(self).wf(&*old(rs)),
            peer < old(rs).peers_spec().len(),
            1 <= sent_next,
            sent_next + entries_len < usize::MAX,
            now <= LAST_INSTANT,
        ensures
            final(self).wf(&*final(rs)),
            evolves(old(self)@, final(self)@),
            final(rs).log_spec() == old(rs).log_spec(),
            final(rs).id_spec() == old(rs).id_spec(),
            final(rs).peers_spec() == old(rs).peers_spec(),
            old(self).commit_in_log(&*old(rs)) ==> final(self).commit_in_log(&*final(rs)),
            ({
                let s = stepped(old(self)@, response_term as int, final(self)@.election_deadline);
                let counted = s.role == State::LEADER && response_term == s.term;
                let old_next = s.next_index[peer as int] as int;
                let old_match = s.match_index[peer as int] as int;
                &&& final(self)@.term == s.term
                &&& final(self)@.role == s.role
                &&& !counted ==> final(self)@ == s && r@.len() == 0
                &&& !(counted && success) ==> final(rs).kv() == old(rs).kv()
                &&& counted && success ==> final(self)@.next_index == s.next_index.update(
                    peer as int,
                    (if old_next < sent_next + entries_len { sent_next + entries_len } else { old_next }) as usize,
                )
                &&& counted && success ==> final(self)@.match_index == s.match_index.update(
                    peer as int,
                    (if old_match < sent_next + entries_len - 1 { sent_next + entries_len - 1 } else { old_match }) as usize,
                )
                &&& counted && success ==> {
                    let s2 = ElectionView {
                        next_index: final(self)@.next_index,
                        match_index: final(self)@.match_index,
                        step_down_deadline: final(self)@.step_down_deadline,
                        ..s
                    };
                    let n = majority_index(
                        commit_candidates(s2, old(rs).log_spec().len() as int),
                        majority_of(old(rs).peers_spec().len() + 1int),
                    );
                    let advance = s.commit_index < n && match entry_at(old(rs).log_spec(), n) {
                        Some(e) => e.term == s.term,
                        None => false,
                    };
                    let commit = if advance { n } else { s.commit_index };
                    let pending = pending_entries(old(rs).log_spec(), s.last_applied, commit);
                    &&& final(self)@ == (ElectionView { commit_index: commit, last_applied: commit, ..s2 })
                    &&& final(rs).kv() == apply_entries(old(rs).kv(), pending)
                    &&& replies_view(r@) == outcomes(old(rs).kv(), pending)
                }
                &&& counted && !success ==> final(self)@ == (ElectionView {
                    next_index: s.next_index.update(
                        peer as int,
                        (if old_next > 1 { old_next - 1 } else { 1 }) as usize,
                    ),
                    step_down_deadline: final(self)@.step_down_deadline,
                    ..s
                }) && r@.len() == 0
            }),
    {
        self.maybe_step_down(response_term, now);
        if self.curr_state == State::LEADER && response_term == self.term {
            self.reset_step_down_time(now);
            if success {
                let reached = sent_next + entries_len;
                let next = if self.next_index[peer] < reached { reached } else { self.next_index[peer] };
                self.next_index.set(peer, next);
                let matched = if self.match_index[peer] < reached - 1 { reached - 1 } else { self.match_index[peer] };
                self.match_index.set(peer, matched);
                return self.advance_commit_index(rs);
            } else {
                let cur = self.next_index[peer];
                let next = if cur > 1 { cur - 1 } else { 1 };
                self.next_index.set(peer, next);
            }
        }
        Vec::new()
    }

    /// Routes a client's read, write or compare-and-set. A leader appends
    /// it to its log in the current term and answers later, when it is
    /// applied; another replica forwards it to the leader it knows, or
    /// refuses it as temporarily unavailable when it knows none.
    pub fn route_client_request(&self, rs: &mut RaftState, op: Op, msg_id: i32) -> (r: Result<
        ClientRoute,
        MaelstromError,
    >)
        requires
            old(rs).wf(),
        ensures
            final(rs).wf(),
            final(rs).kv() == old(rs).kv(),
            final(rs).id_spec() == old(rs).id_spec(),
            final(rs).peers_spec() == old(rs).peers_spec(),
            self@.role == State::LEADER ==> final(rs).log_spec() == old(rs).log_spec().push(
                Entry { term: self@.term as i32, op: Some(op) },
            ),
            self@.role != State::LEADER ==> final(rs).log_spec() == old(rs).log_spec(),
            match r {
                Ok(ClientRoute::Appended) => self@.role == State::LEADER,
                Ok(ClientRoute::Forward(to)) => self@.role != State::LEADER && self@.leader == Some(to@),
                Err(e) => {
                    &&& self@.role != State::LEADER && self@.leader is None
                    &&& e.in_reply_to == msg_id && e.error.code == TEMPORARILY_UNAVAILABLE
                },
            },
    {
        if self.curr_state != State::LEADER {
            return match &self.leader {
                Some(l) => Ok(ClientRoute::Forward(l.clone())),
                None => Err(leader_unavailable(msg_id)),
            };
        }
        rs.append_single_entry(op, self.term);
        Ok(ClientRoute::Appended)
    }
}

/// Where a client's request went.
pub enum ClientRoute {
    /// Appended to this leader's log; the reply comes when it is applied.
    Appended,
    /// To be forwarded to this leader.
    Forward(String),
}

/// The refusal of a request that no known leader can take.
pub fn leader_unavailable(in_reply_to: i32) -> (r: MaelstromError)
    ensures
        r.in_reply_to == in_reply_to,
        r.error.code == TEMPORARILY_UNAVAILABLE,
{
    MaelstromError { in_reply_to, error: temporarily_unavailable(String::from_str("not a leader")) }
}

/// Whether a leader sends an append-entries request to a peer now: when
/// it has entries for it, or when a heartbeat is due.
pub fn replication_due(entries_len: usize, since_last_ms: u64) -> (r: bool)
    ensures
        r == (entries_len > 0 || since_last_ms > 1000),
{
    entries_len > 0 || since_last_ms > 1000
}

/// The index that a majority of the cluster holds, where there is one.
pub open spec fn majority_index(vals: Seq<usize>, majority: int) -> int {
    choose|r: int| is_majority_index(vals, majority, r)
}

proof fn lemma_majority_index_unique(vals: Seq<usize>, majority: int, r: int)
    requires
        is_majority_index(vals, majority, r),
    ensures
        majority_index(vals, majority) == r,
{
    let q = majority_index(vals, majority);
    assert(is_majority_index(vals, majority, q));
    let i = choose|i: int| 0 <= i < vals.len() && vals[i] as int == r;
    let j = choose|j: int| 0 <= j < vals.len() && vals[j] as int == q;
    assert(vals[i] <= q);
    assert(vals[j] <= r);
}

proof fn lemma_count_ge_all(s: Seq<usize>, v: int)
    requires
        forall|x: int| 0 <= x < s.len() ==> s[x] >= v,
    ensures
        count_ge(s, v) == s.len(),
    decreases s.len(),
{
    if s.len() > 0 {
        lemma_count_ge_all(s.drop_last(), v);
    }
}

/// How many values of `vals` are at least `v`.
fn count_at_least(vals: &Vec<usize>, v: usize) -> (r: usize)
    ensures
        r == count_ge(vals@, v as int),
{
    let mut c: usize = 0;
    let mut j: usize = 0;
    proof {
        assert(vals@.subrange(0, 0) =~= Seq::<usize>::empty());
    }
    while j < vals.len()
        invariant
            j <= vals@.len(),
            c == count_ge(vals@.subrange(0, j as int), v as int),
            c <= j,
        decreases vals@.len() - j,
    {
        proof {
            assert(vals@.subrange(0, j as int + 1).drop_last() =~= vals@.subrange(0, j as int));
        }
        if vals[j] >= v {
            c = c + 1;
        }
        j = j + 1;
    }
    proof {
        assert(vals@.subrange(0, j as int) =~= vals@);
    }
    c
}

/// Applies one operation to the map and says what to answer its client.
fn apply_one(rs: &mut RaftState, op: Op) -> (r: Reply)
    requires
        old(rs).wf(),
    ensures
        final(rs).wf(),
        final(rs).kv() == apply_op(old(rs).kv(), Some(op)),
        reply_view(r) == (requester_text(op), msg_id_of(op), outcome(old(rs).kv(), op)),
        final(rs).log_spec() == old(rs).log_spec(),
        final(rs).id_spec() == old(rs).id_spec(),
        final(rs).peers_spec() == old(rs).peers_spec(),
{
    match op {
        Op::CAS { key, from, to, requester, msg_id } => {
            let res = rs.cas_value(key, from, to);
            Reply { dest: requester, body: check_cas_result(res, msg_id) }
        },
        Op::Read { key, requester, msg_id } => {
            let res = rs.read_value(key);
            Reply { dest: requester, body: check_read_result(res, msg_id) }
        },
        Op::Write { key, value, requester, msg_id } => {
            rs.write_value(key, value);
            Reply { dest: requester, body: ReplyBody::WriteOk { in_reply_to: msg_id } }
        },
    }
}

/// Hearing of another term never lowers the current one.
pub proof fn lemma_term_never_decreases(v: ElectionView, remote: int, deadline: int)
    ensures
        stepped(v, remote, deadline).term >= v.term,
        evolves(v, stepped(v, remote, deadline)),
{
}

/// A replica that hears of a higher term is at once a follower of that
/// term, with no vote cast in it and no leader known.
pub proof fn lemma_higher_term_steps_down(v: ElectionView, remote: int, deadline: int)
    requires
        v.term < remote,
    ensures
        stepped(v, remote, deadline).role == State::FOLLOWER,
        stepped(v, remote, deadline).term == remote,
        stepped(v, remote, deadline).voted_for is None,
        stepped(v, remote, deadline).leader is None,
{
}

/// Cutting a log to `len` entries and then appending keeps exactly the
/// first `len` entries, followed by the appended ones.
pub proof fn lemma_truncate_then_append(log: Seq<Entry>, len: int, added: Seq<Entry>)
    requires
        0 <= len <= log.len(),
    ensures
        (log.subrange(0, len) + added).len() == len + added.len(),
        (log.subrange(0, len) + added).subrange(0, len) == log.subrange(0, len),
        (log.subrange(0, len) + added).subrange(len, len + added.len()) == added,
{
    assert((log.subrange(0, len) + added).subrange(0, len) =~= log.subrange(0, len));
    assert((log.subrange(0, len) + added).subrange(len, len + added.len()) =~= added);
}

/// A majority of the whole cluster is more than half of it, and a cluster
/// always has one.
pub proof fn lemma_majority_is_more_than_half(total: int)
    requires
        total >= 1,
    ensures
        2 * majority_of(total) > total,
        majority_of(total) <= total,
{
}

fn zeros(n: usize) -> (r: Vec<usize>)
    ensures
        r@ == filled(n as nat, 0),
{
    filled_vec(n, 0)
}

fn filled_vec(n: usize, v: usize) -> (r: Vec<usize>)
    ensures
        r@ == filled(n as nat, v),
{
    let mut out: Vec<usize> = Vec::new();
    let mut i: usize = 0;
    while i < n
        invariant
            i <= n,
            out@ == filled(i as nat, v),
        decreases n - i,
    {
        out.push(v);
        i = i + 1;
        proof {
            assert(out@ =~= filled(i as nat, v));
        }
    }
    out
}

} // verus!
