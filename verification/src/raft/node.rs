//! The decisions of one Raft replica. Every entry point takes the replica's state and one
//! event (a message or a timer) and returns the next state together with the actions the
//! caller performs: messages to send and election-timer resets.
use vstd::prelude::*;
use std::collections::{HashMap, HashSet};

use crate::raft::rpc::{
    AppendEntriesArgs, AppendEntriesReply, LogEntry, Message, RequestVoteArgs, RequestVoteReply,
};
use crate::raft::store::{apply_command, Command, KeyValueStore};

verus! {

broadcast use vstd::std_specs::hash::group_hash_axioms;

#[derive(Clone, Copy, Debug, PartialEq, Eq, Structural)]
pub enum Role {
    Follower,
    Candidate,
    Leader,
}

/// What the replica asks its environment to do.
#[derive(Debug)]
pub enum Action {
    /// Deliver `msg` to replica or client `to`.
    Send { to: usize, msg: Message },
    /// Draw a fresh election timeout and restart the election timer.
    ResetElectionTimer,
}

/// The abstract state of a replica.
pub struct RaftView {
    pub id: usize,
    pub peers: Seq<usize>,
    pub current_term: usize,
    pub voted_for: Option<usize>,
    pub log: Seq<LogEntry>,
    pub commit_index: usize,
    pub last_applied: usize,
    pub role: Role,
    pub next_index: Map<usize, usize>,
    pub match_index: Map<usize, usize>,
    pub votes_received: Set<usize>,
    /// Client writes awaiting commitment, as (log index, client) pairs in arrival order.
    pub pending_writes: Seq<(usize, usize)>,
    pub store: Map<Seq<char>, Seq<char>>,
}

/// The index of the last log entry.
pub open spec fn last_index(v: RaftView) -> int {
    v.log.len() - 1
}

/// The term of the last log entry.
pub open spec fn last_term(v: RaftView) -> usize {
    v.log[v.log.len() - 1].term
}

/// No log index occurs twice among the pending writes.
pub open spec fn pending_distinct(s: Seq<(usize, usize)>) -> bool {
    forall|i: int, j: int| 0 <= i < s.len() && 0 <= j < s.len() && i != j ==> s[i].0 != s[j].0
}

/// The invariant every replica state keeps.
pub open spec fn view_wf(v: RaftView) -> bool {
    &&& 1 <= v.log.len() <= usize::MAX
    &&& v.peers.no_duplicates()
    &&& v.peers.len() < usize::MAX
    &&& v.votes_received.finite()
    &&& v.commit_index < usize::MAX
    &&& pending_distinct(v.pending_writes)
    &&& forall|p: usize| #[trigger] v.next_index.contains_key(p) ==> v.next_index[p] >= 1
}

/// The next index recorded for `peer` (1 when none is).
pub open spec fn next_of(v: RaftView, peer: usize) -> int {
    if v.next_index.contains_key(peer) {
        v.next_index[peer] as int
    } else {
        1
    }
}

/// The match index recorded for `peer` (0 when none is).
pub open spec fn match_of(m: Map<usize, usize>, peer: usize) -> int {
    if m.contains_key(peer) {
        m[peer] as int
    } else {
        0
    }
}

/// Every peer's next index points into the log or just past it, so that a leader can
/// build an append request for each of them.
pub open spec fn broadcast_ok(v: RaftView) -> bool {
    forall|i: int| 0 <= i < v.peers.len() ==> next_of(v, #[trigger] v.peers[i]) <= v.log.len()
}

/// The state after seeing `term`: a higher term makes the replica a follower of that term
/// with no vote, and a leader drops its pending client writes.
pub open spec fn term_checked(v: RaftView, term: usize) -> RaftView {
    if term > v.current_term {
        RaftView {
            current_term: term,
            role: Role::Follower,
            voted_for: None,
            votes_received: Set::empty(),
            pending_writes: if v.role == Role::Leader {
                Seq::empty()
            } else {
                v.pending_writes
            },
            ..v
        }
    } else {
        v
    }
}

/// The reply that tells `client` its write failed, naming this replica.
pub open spec fn failed_write(id: usize, client: usize) -> Action {
    Action::Send {
        to: client,
        msg: Message::ClientWriteResponse { success: false, leader_id: Some(id), client_id: client },
    }
}

/// The failure replies for the given pending writes, in order.
pub open spec fn failed_writes(id: usize, pending: Seq<(usize, usize)>) -> Seq<Action> {
    pending.map_values(|p: (usize, usize)| failed_write(id, p.1))
}

/// The actions of seeing `term`: a timer reset on stepping down, then, for a leader, a failure
/// reply for each pending write.
pub open spec fn term_check_actions(v: RaftView, term: usize) -> Seq<Action> {
    if term > v.current_term {
        seq![Action::ResetElectionTimer] + if v.role == Role::Leader {
            failed_writes(v.id, v.pending_writes)
        } else {
            Seq::empty()
        }
    } else {
        Seq::empty()
    }
}

/// `a` is the append request a leader in state `v` sends to `peer`: the entries from the
/// peer's next index on, after the entry just before it.
pub open spec fn append_request_for(v: RaftView, peer: usize, a: Action) -> bool {
    let prev = next_of(v, peer) - 1;
    match a {
        Action::Send { to, msg: Message::AppendEntries { args, from } } => {
            &&& to == peer
            &&& from == v.id
            &&& args.term == v.current_term
            &&& args.leader_id == v.id
            &&& args.prev_log_index == prev
            &&& args.prev_log_term == v.log[prev].term
            &&& args.entries@ == if last_index(v) > prev {
                v.log.subrange(prev + 1, v.log.len() as int)
            } else {
                Seq::empty()
            }
            &&& args.leader_commit == v.commit_index
        },
        _ => false,
    }
}

/// `acts` are the append requests to every peer, in peer order.
pub open spec fn broadcast_actions(v: RaftView, acts: Seq<Action>) -> bool {
    &&& acts.len() == v.peers.len()
    &&& forall|i: int| 0 <= i < acts.len() ==> append_request_for(v, v.peers[i], #[trigger] acts[i])
}

/// The vote request a candidate in state `v` sends to `peer`.
pub open spec fn vote_request(v: RaftView, peer: usize) -> Action {
    Action::Send {
        to: peer,
        msg: Message::RequestVote {
            args: RequestVoteArgs {
                term: v.current_term,
                candidate_id: v.id,
                last_log_index: last_index(v) as usize,
                last_log_term: last_term(v),
            },
            from: v.id,
        },
    }
}

/// The state after an election timeout: a candidate of the next term that votes for itself.
pub open spec fn election_started(v: RaftView) -> RaftView {
    RaftView {
        role: Role::Candidate,
        current_term: (v.current_term + 1) as usize,
        voted_for: Some(v.id),
        votes_received: set![v.id],
        ..v
    }
}

/// The actions of an election timeout: a timer reset, then a vote request to every peer.
pub open spec fn election_actions(v: RaftView) -> Seq<Action> {
    let w = election_started(v);
    seq![Action::ResetElectionTimer] + v.peers.map_values(|p: usize| vote_request(w, p))
}

/// A message to `to`, sent only when `to` is a peer.
pub open spec fn reply_to_peer(v: RaftView, to: usize, msg: Message) -> Seq<Action> {
    if v.peers.contains(to) {
        seq![Action::Send { to, msg }]
    } else {
        Seq::empty()
    }
}

/// The candidate's log is at least as up to date as the log of `v`.
pub open spec fn log_up_to_date(v: RaftView, args: RequestVoteArgs) -> bool {
    args.last_log_term > last_term(v) || (args.last_log_term == last_term(v)
        && args.last_log_index >= last_index(v))
}

/// A replica in state `v` (after its term check) grants the vote `args` asks for.
pub open spec fn grants_vote(v: RaftView, args: RequestVoteArgs) -> bool {
    &&& args.term == v.current_term
    &&& (v.voted_for is None || v.voted_for == Some(args.candidate_id))
    &&& log_up_to_date(v, args)
}

/// The outcome of a vote request from `from`.
pub open spec fn request_vote_outcome(
    v: RaftView,
    args: RequestVoteArgs,
    from: usize,
    w: RaftView,
    acts: Seq<Action>,
) -> bool {
    let v1 = term_checked(v, args.term);
    let granted = grants_vote(v1, args);
    let v2 = if granted {
        RaftView { voted_for: Some(args.candidate_id), ..v1 }
    } else {
        v1
    };
    &&& w == v2
    &&& acts == term_check_actions(v, args.term) + (if granted {
        seq![Action::ResetElectionTimer]
    } else {
        Seq::empty()
    }) + reply_to_peer(
        v,
        from,
        Message::RequestVoteResponse {
            reply: RequestVoteReply { term: v2.current_term, vote_granted: granted },
            from: v.id,
        },
    )
}

/// The number of votes that make a majority of this replica and its peers.
pub open spec fn majority(v: RaftView) -> int {
    ((v.peers.len() + 1) / 2 + 1) as int
}

/// `m` with every key of `ks` set to `x`.
pub open spec fn set_all(m: Map<usize, usize>, ks: Seq<usize>, x: usize) -> Map<usize, usize> {
    Map::new(
        |k: usize| m.contains_key(k) || ks.contains(k),
        |k: usize|
            if ks.contains(k) {
                x
            } else {
                m[k]
            },
    )
}

/// The state of a newly elected leader: every peer's next index just past its log, and no
/// peer known to match anything.
pub open spec fn became_leader(v: RaftView) -> RaftView {
    RaftView {
        role: Role::Leader,
        next_index: set_all(v.next_index, v.peers, v.log.len() as usize),
        match_index: set_all(v.match_index, v.peers, 0),
        ..v
    }
}

/// The outcome of a vote reply from `from`.
pub open spec fn vote_reply_outcome(
    v: RaftView,
    reply: RequestVoteReply,
    from: usize,
    w: RaftView,
    acts: Seq<Action>,
) -> bool {
    if v.role != Role::Candidate {
        w == v && acts == Seq::<Action>::empty()
    } else {
        let v1 = term_checked(v, reply.term);
        let a1 = term_check_actions(v, reply.term);
        if reply.term == v1.current_term && reply.vote_granted {
            let v2 = RaftView { votes_received: v1.votes_received.insert(from), ..v1 };
            if v2.votes_received.len() >= majority(v) {
                let v3 = became_leader(v2);
                &&& w == v3
                &&& acts.len() >= a1.len()
                &&& acts.subrange(0, a1.len() as int) == a1
                &&& broadcast_actions(v3, acts.subrange(a1.len() as int, acts.len() as int))
            } else {
                w == v2 && acts == a1
            }
        } else {
            w == v1 && acts == a1
        }
    }
}

/// The log after placing `entries` from index `at` on: an entry whose slot holds one of the
/// same term is skipped, one whose slot holds another term cuts the log there and is
/// appended, and one past the end is appended.
pub open spec fn merge_entries(log: Seq<LogEntry>, at: int, entries: Seq<LogEntry>) -> Seq<
    LogEntry,
>
    decreases entries.len(),
{
    if entries.len() == 0 {
        log
    } else {
        let e = entries[0];
        let log2 = if at < log.len() {
            if log[at].term != e.term {
                log.take(at).push(e)
            } else {
                log
            }
        } else {
            log.push(e)
        };
        merge_entries(log2, at + 1, entries.drop_first())
    }
}

/// The outcome of an append request from `from`.
pub open spec fn append_outcome(
    v: RaftView,
    args: AppendEntriesArgs,
    from: usize,
    w: RaftView,
    acts: Seq<Action>,
) -> bool {
    let v1 = term_checked(v, args.term);
    let a1 = term_check_actions(v, args.term);
    let current = args.term >= v1.current_term;
    let v2 = if current && v1.role == Role::Candidate {
        RaftView { role: Role::Follower, ..v1 }
    } else {
        v1
    };
    let consistent = current && args.prev_log_index < v2.log.len()
        && v2.log[args.prev_log_index as int].term == args.prev_log_term;
    let log3 = if consistent {
        merge_entries(v2.log, args.prev_log_index + 1, args.entries@)
    } else {
        v2.log
    };
    let commit3 = if consistent && args.leader_commit > v2.commit_index {
        if args.leader_commit < log3.len() - 1 {
            args.leader_commit
        } else {
            (log3.len() - 1) as usize
        }
    } else {
        v2.commit_index
    };
    let v3 = RaftView { log: log3, commit_index: commit3, ..v2 };
    &&& w == v3
    &&& acts == a1 + (if current {
        seq![Action::ResetElectionTimer]
    } else {
        Seq::empty()
    }) + reply_to_peer(
        v,
        from,
        Message::AppendEntriesResponse {
            reply: AppendEntriesReply {
                term: v3.current_term,
                success: consistent,
                match_index: (log3.len() - 1) as usize,
            },
            from: v.id,
        },
    )
}

/// `peer` has replicated the log up to `idx`.
pub open spec fn replicated(m: Map<usize, usize>, peer: usize, idx: int) -> bool {
    match_of(m, peer) >= idx
}

/// How many of `peers` have replicated the log up to `idx`.
pub open spec fn match_count(peers: Seq<usize>, m: Map<usize, usize>, idx: int) -> nat
    decreases peers.len(),
{
    if peers.len() == 0 {
        0
    } else {
        match_count(peers.drop_last(), m, idx) + if replicated(m, peers.last(), idx) {
            1nat
        } else {
            0nat
        }
    }
}

/// Entry `idx` is of the current term and held by a majority, the leader counted.
pub open spec fn quorum_at(
    log: Seq<LogEntry>,
    term: usize,
    peers: Seq<usize>,
    m: Map<usize, usize>,
    idx: int,
) -> bool {
    &&& log[idx].term == term
    &&& 1 + match_count(peers, m, idx) > (peers.len() + 1) / 2
}

/// The commit index after scanning the log from `idx` on: the last index held by a quorum,
/// or `c` when none is.
pub open spec fn commit_scan(
    log: Seq<LogEntry>,
    term: usize,
    peers: Seq<usize>,
    m: Map<usize, usize>,
    c: int,
    idx: int,
) -> int
    decreases log.len() - idx,
{
    if idx >= log.len() || idx < 0 {
        c
    } else {
        commit_scan(
            log,
            term,
            peers,
            m,
            if quorum_at(log, term, peers, m, idx) {
                idx
            } else {
                c
            },
            idx + 1,
        )
    }
}

/// The outcome of an append reply from `from`.
pub open spec fn append_reply_outcome(
    v: RaftView,
    reply: AppendEntriesReply,
    from: usize,
    w: RaftView,
    acts: Seq<Action>,
) -> bool {
    let v1 = term_checked(v, reply.term);
    let a1 = term_check_actions(v, reply.term);
    &&& acts == a1
    &&& if v1.role != Role::Leader {
        w == v1
    } else if reply.success {
        let m2 = v1.match_index.insert(from, reply.match_index);
        let v2 = RaftView {
            match_index: m2,
            next_index: v1.next_index.insert(from, (reply.match_index + 1) as usize),
            ..v1
        };
        w == RaftView {
            commit_index: commit_scan(
                v2.log,
                v2.current_term,
                v2.peers,
                m2,
                v2.commit_index as int,
                v2.commit_index + 1,
            ) as usize,
            ..v2
        }
    } else if next_of(v1, from) > 1 {
        w == RaftView {
            next_index: v1.next_index.insert(from, (next_of(v1, from) - 1) as usize),
            ..v1
        }
    } else {
        w == v1
    }
}

/// The pending writes with `idx` now waiting on `client`.
pub open spec fn pending_put(s: Seq<(usize, usize)>, idx: usize, client: usize) -> Seq<
    (usize, usize),
> {
    if exists|i: int| 0 <= i < s.len() && #[trigger] s[i].0 == idx {
        let i = choose|i: int| 0 <= i < s.len() && #[trigger] s[i].0 == idx;
        s.update(i, (idx, client))
    } else {
        s.push((idx, client))
    }
}

/// The outcome of a client write.
pub open spec fn client_write_outcome(
    v: RaftView,
    key: String,
    value: String,
    client: usize,
    w: RaftView,
    acts: Seq<Action>,
) -> bool {
    if v.role != Role::Leader {
        let leader = if v.role == Role::Follower {
            v.voted_for
        } else {
            None
        };
        &&& w == v
        &&& acts == reply_to_peer(
            v,
            client,
            Message::ClientWriteResponse { success: false, leader_id: leader, client_id: client },
        )
    } else {
        let log1 = v.log.push(
            LogEntry { term: v.current_term, command: Command::Put { key, value } },
        );
        let v1 = RaftView {
            log: log1,
            pending_writes: if v.peers.contains(client) {
                pending_put(v.pending_writes, (log1.len() - 1) as usize, client)
            } else {
                v.pending_writes
            },
            ..v
        };
        w == v1 && broadcast_actions(v1, acts)
    }
}

/// The outcome of any message.
pub open spec fn message_outcome(v: RaftView, msg: Message, w: RaftView, acts: Seq<Action>) -> bool {
    match msg {
        Message::RequestVote { args, from } => request_vote_outcome(v, args, from, w, acts),
        Message::RequestVoteResponse { reply, from } => vote_reply_outcome(v, reply, from, w, acts),
        Message::AppendEntries { args, from } => append_outcome(v, args, from, w, acts),
        Message::AppendEntriesResponse { reply, from } => append_reply_outcome(
            v,
            reply,
            from,
            w,
            acts,
        ),
        Message::ClientWrite { key, value, client_id } => client_write_outcome(
            v,
            key,
            value,
            client_id,
            w,
            acts,
        ),
        Message::ClientWriteResponse { .. } => w == v && acts == Seq::<Action>::empty(),
    }
}

/// What handling `msg` asks of the inputs: no index computed from it overflows, and a leader
/// can address every peer's next index.
pub open spec fn message_in_range(v: RaftView, msg: Message) -> bool {
    match msg {
        Message::AppendEntries { args, .. } => args.prev_log_index + args.entries.len()
            < usize::MAX,
        Message::AppendEntriesResponse { reply, .. } => reply.match_index < usize::MAX,
        Message::ClientWrite { .. } => v.role == Role::Leader ==> broadcast_ok(v),
        _ => true,
    }
}

/// The position of `idx` among the pending writes, if it is there.
pub open spec fn pending_find(s: Seq<(usize, usize)>, idx: usize) -> Option<int> {
    if exists|i: int| 0 <= i < s.len() && #[trigger] s[i].0 == idx {
        Some(choose|i: int| 0 <= i < s.len() && #[trigger] s[i].0 == idx)
    } else {
        None
    }
}

/// The state after applying the next committed entry: the store runs its command, and a
/// leader forgets the pending write of that index.
pub open spec fn applied_next(v: RaftView) -> RaftView {
    let i = (v.last_applied + 1) as usize;
    RaftView {
        last_applied: i,
        store: apply_command(v.store, v.log[i as int].command),
        pending_writes: if v.role == Role::Leader && pending_find(v.pending_writes, i) is Some {
            v.pending_writes.remove(pending_find(v.pending_writes, i)->0)
        } else {
            v.pending_writes
        },
        ..v
    }
}

/// The reply a leader owes the client whose write the next entry was, if any.
pub open spec fn applied_reply(v: RaftView) -> Option<Action> {
    let i = (v.last_applied + 1) as usize;
    if v.role == Role::Leader && pending_find(v.pending_writes, i) is Some {
        let client = v.pending_writes[pending_find(v.pending_writes, i)->0].1;
        Some(
            Action::Send {
                to: client,
                msg: Message::ClientWriteResponse {
                    success: true,
                    leader_id: Some(v.id),
                    client_id: client,
                },
            },
        )
    } else {
        None
    }
}

/// Places `entries` into `log` from index `at` on, as `merge_entries` describes.
fn merge_into(log: &mut Vec<LogEntry>, at: usize, entries: Vec<LogEntry>)
    requires
        1 <= at <= old(log)@.len(),
        at + entries@.len() <= usize::MAX,
    ensures
        final(log)@ == merge_entries(old(log)@, at as int, entries@),
        final(log)@.len() >= 1,
{
    let ghost log0 = log@;
    let ghost e0 = entries@;
    let mut entries = entries;
    let mut idx = at;
    while entries.len() > 0
        invariant
            merge_entries(log@, idx as int, entries@) == merge_entries(log0, at as int, e0),
            1 <= idx <= log@.len(),
            idx + entries@.len() == at + e0.len(),
            at + e0.len() <= usize::MAX,
        decreases entries@.len(),
    {
        let ghost l = log@;
        let ghost es = entries@;
        let e = entries.remove(0);
        assert(entries@ =~= es.drop_first());
        if idx < log.len() {
            if log[idx].term != e.term {
                log.truncate(idx);
                log.push(e);
            }
        } else {
            log.push(e);
        }
        assert(log@ =~= (if idx < l.len() {
            if l[idx as int].term != es[0].term {
                l.take(idx as int).push(es[0])
            } else {
                l
            }
        } else {
            l.push(es[0])
        }));
        idx = idx + 1;
    }
}

/// Makes `idx` wait on `client` among the pending writes.
fn put_pending(s: &mut Vec<(usize, usize)>, idx: usize, client: usize)
    requires
        pending_distinct(old(s)@),
    ensures
        pending_distinct(final(s)@),
        final(s)@ == pending_put(old(s)@, idx, client),
{
    let mut i: usize = 0;
    while i < s.len()
        invariant
            i <= s@.len(),
            s@ == old(s)@,
            pending_distinct(s@),
            forall|j: int| 0 <= j < i ==> s@[j].0 != idx,
        decreases s@.len() - i,
    {
        if s[i].0 == idx {
            proof {
                let c = choose|j: int| 0 <= j < s@.len() && #[trigger] s@[j].0 == idx;
                assert(c == i);
            }
            s.set(i, (idx, client));
            return;
        }
        i = i + 1;
    }
    s.push((idx, client));
}

/// Removes the pending write of `idx` and returns its client, if there is one.
fn take_pending(s: &mut Vec<(usize, usize)>, idx: usize) -> (r: Option<usize>)
    requires
        pending_distinct(old(s)@),
    ensures
        pending_distinct(final(s)@),
        match pending_find(old(s)@, idx) {
            Some(i) => r == Some(old(s)@[i].1) && final(s)@ == old(s)@.remove(i),
            None => r is None && final(s)@ == old(s)@,
        },
{
    let mut i: usize = 0;
    while i < s.len()
        invariant
            i <= s@.len(),
            s@ == old(s)@,
            pending_distinct(s@),
            forall|j: int| 0 <= j < i ==> s@[j].0 != idx,
        decreases s@.len() - i,
    {
        if s[i].0 == idx {
            proof {
                let c = choose|j: int| 0 <= j < s@.len() && #[trigger] s@[j].0 == idx;
                assert(c == i);
            }
            let (_, client) = s.remove(i);
            proof {
                let t = s@;
                assert forall|a: int, b: int|
                    0 <= a < t.len() && 0 <= b < t.len() && a != b implies t[a].0 != t[b].0 by {
                    let a2 = if a < i { a } else { a + 1 };
                    let b2 = if b < i { b } else { b + 1 };
                    assert(t[a] == old(s)@[a2]);
                    assert(t[b] == old(s)@[b2]);
                }
            }
            return Some(client);
        }
        i = i + 1;
    }
    None
}

proof fn lemma_push_contains(s: Seq<usize>, p: usize, k: usize)
    ensures
        s.push(p).contains(k) <==> (s.contains(k) || k == p),
{
    if s.push(p).contains(k) {
        let j = choose|j: int| 0 <= j < s.push(p).len() && s.push(p)[j] == k;
        if j < s.len() {
            assert(s[j] == k);
        }
    }
    if s.contains(k) {
        let j = choose|j: int| 0 <= j < s.len() && s[j] == k;
        assert(s.push(p)[j] == k);
    }
    if k == p {
        assert(s.push(p)[s.len() as int] == k);
    }
}

/// One replica's state.
pub struct RaftNode {
    id: usize,
    peers: Vec<usize>,
    current_term: usize,
    voted_for: Option<usize>,
    log: Vec<LogEntry>,
    commit_index: usize,
    last_applied: usize,
    role: Role,
    next_index: HashMap<usize, usize>,
    match_index: HashMap<usize, usize>,
    votes_received: HashSet<usize>,
    pending_writes: Vec<(usize, usize)>,
    state_machine: KeyValueStore,
}

impl View for RaftNode {
    type V = RaftView;

    closed spec fn view(&self) -> RaftView {
        RaftView {
            id: self.id,
            peers: self.peers@,
            current_term: self.current_term,
            voted_for: self.voted_for,
            log: self.log@,
            commit_index: self.commit_index,
            last_applied: self.last_applied,
            role: self.role,
            next_index: self.next_index@,
            match_index: self.match_index@,
            votes_received: self.votes_received@,
            pending_writes: self.pending_writes@,
            store: self.state_machine@,
        }
    }
}

/// The failure replies for the first `n` pending writes grow by one reply per write.
proof fn lemma_failed_writes_step(id: usize, s: Seq<(usize, usize)>, n: int)
    requires
        0 <= n < s.len(),
    ensures
        failed_writes(id, s.take(n + 1)) == failed_writes(id, s.take(n)).push(
            failed_write(id, s[n].1),
        ),
{
    assert(s.take(n + 1) =~= s.take(n).push(s[n]));
    assert(failed_writes(id, s.take(n + 1)) =~= failed_writes(id, s.take(n)).push(
        failed_write(id, s[n].1),
    ));
}

impl RaftNode {
    /// The replica keeps its invariant.
    pub open spec fn wf(&self) -> bool {
        view_wf(self@)
    }

    /// A follower of term 0 with a log holding one initial entry.
    pub fn new(id: usize, peers: Vec<usize>) -> (r: Self)
        requires
            peers@.no_duplicates(),
            peers@.len() < usize::MAX,
        ensures
            r.wf(),
            r@.id == id,
            r@.peers == peers@,
            r@.current_term == 0,
            r@.voted_for is None,
            r@.log.len() == 1,
            r@.log[0].term == 0,
            match r@.log[0].command {
                Command::Put { key, value } => key@ == "init"@ && value@ == "true"@,
                _ => false,
            },
            r@.commit_index == 0,
            r@.last_applied == 0,
            r@.role == Role::Follower,
            r@.next_index == Map::<usize, usize>::empty(),
            r@.match_index == Map::<usize, usize>::empty(),
            r@.votes_received == Set::<usize>::empty(),
            r@.pending_writes == Seq::<(usize, usize)>::empty(),
            r@.store == Map::<Seq<char>, Seq<char>>::empty(),
    {
        let mut log: Vec<LogEntry> = Vec::new();
        log.push(
            LogEntry {
                term: 0,
                command: Command::Put { key: "init".to_owned(), value: "true".to_owned() },
            },
        );
        let r = RaftNode {
            id,
            peers,
            current_term: 0,
            voted_for: None,
            log,
            commit_index: 0,
            last_applied: 0,
            role: Role::Follower,
            next_index: HashMap::new(),
            match_index: HashMap::new(),
            votes_received: HashSet::new(),
            pending_writes: Vec::new(),
            state_machine: KeyValueStore::new(),
        };
        assert(pending_distinct(r.pending_writes@));
        r
    }

    /// The index of the last log entry.
    pub fn last_log_index(&self) -> (r: usize)
        requires
            self.wf(),
        ensures
            r == last_index(self@),
    {
        self.log.len() - 1
    }

    /// The term of the last log entry.
    pub fn last_log_term(&self) -> (r: usize)
        requires
            self.wf(),
        ensures
            r == last_term(self@),
    {
        self.log[self.log.len() - 1].term
    }

    /// The replica's role.
    pub fn role(&self) -> (r: Role)
        ensures
            r == self@.role,
    {
        self.role
    }

    /// The replica's current term.
    pub fn current_term(&self) -> (r: usize)
        ensures
            r == self@.current_term,
    {
        self.current_term
    }

    /// The highest log index known to be committed.
    pub fn commit_index(&self) -> (r: usize)
        ensures
            r == self@.commit_index,
    {
        self.commit_index
    }

    /// The highest log index applied to the store.
    pub fn last_applied(&self) -> (r: usize)
        ensures
            r == self@.last_applied,
    {
        self.last_applied
    }

    /// The applied key-value state.
    pub fn store(&self) -> (r: &KeyValueStore)
        ensures
            r@ == self@.store,
    {
        &self.state_machine
    }

    /// `p` is one of the peers.
    fn has_peer(&self, p: usize) -> (r: bool)
        ensures
            r == self@.peers.contains(p),
    {
        let mut i: usize = 0;
        while i < self.peers.len()
            invariant
                i <= self.peers@.len(),
                forall|j: int| 0 <= j < i ==> self.peers@[j] != p,
            decreases self.peers@.len() - i,
        {
            if self.peers[i] == p {
                return true;
            }
            i = i + 1;
        }
        false
    }

    /// Steps down to a follower of `term` when it is higher than the current one.
    fn check_term(&mut self, term: usize, acts: &mut Vec<Action>) -> (r: bool)
        requires
            old(self).wf(),
        ensures
            final(self).wf(),
            r == (term > old(self)@.current_term),
            final(self)@ == term_checked(old(self)@, term),
            final(acts)@ == old(acts)@ + term_check_actions(old(self)@, term),
    {
        if term > self.current_term {
            let ghost acts0 = acts@;
            let ghost v0 = self@;
            self.current_term = term;
            let old_role = self.role;
            self.role = Role::Follower;
            self.voted_for = None;
            self.votes_received.clear();
            acts.push(Action::ResetElectionTimer);
            if old_role == Role::Leader {
                let mut i: usize = 0;
                while i < self.pending_writes.len()
                    invariant
                        i <= self.pending_writes@.len(),
                        self.pending_writes@ == v0.pending_writes,
                        self.id == v0.id,
                        acts@ == acts0 + seq![Action::ResetElectionTimer] + failed_writes(
                            v0.id,
                            v0.pending_writes.take(i as int),
                        ),
                    decreases self.pending_writes@.len() - i,
                {
                    let client = self.pending_writes[i].1;
                    proof {
                        lemma_failed_writes_step(v0.id, v0.pending_writes, i as int);
                    }
                    acts.push(
                        Action::Send {
                            to: client,
                            msg: Message::ClientWriteResponse {
                                success: false,
                                leader_id: Some(self.id),
                                client_id: client,
                            },
                        },
                    );
                    i = i + 1;
                }
                assert(v0.pending_writes.take(i as int) =~= v0.pending_writes);
                self.pending_writes = Vec::new();
            } else {
                assert(acts@ =~= acts0 + term_check_actions(v0, term));
            }
            assert(self@.votes_received =~= Set::<usize>::empty());
            assert(pending_distinct(self.pending_writes@));
            true
        } else {
            assert(acts@ =~= old(acts)@ + term_check_actions(old(self)@, term));
            false
        }
    }

    /// Starts an election: becomes a candidate of the next term, votes for itself and asks
    /// every peer for its vote.
    pub fn start_election(&mut self) -> (r: Vec<Action>)
        requires
            old(self).wf(),
            old(self)@.current_term < usize::MAX,
        ensures
            final(self).wf(),
            final(self)@ == election_started(old(self)@),
            r@ == election_actions(old(self)@),
    {
        self.role = Role::Candidate;
        self.current_term = self.current_term + 1;
        self.voted_for = Some(self.id);
        self.votes_received.clear();
        self.votes_received.insert(self.id);
        assert(self@.votes_received =~= set![self.id]);
        let mut acts: Vec<Action> = Vec::new();
        acts.push(Action::ResetElectionTimer);
        let last_log_index = self.last_log_index();
        let last_log_term = self.last_log_term();
        let ghost w = self@;
        let mut i: usize = 0;
        while i < self.peers.len()
            invariant
                self@ == w,
                w.log.len() >= 1,
                last_log_index == last_index(w),
                last_log_term == last_term(w),
                i <= w.peers.len(),
                acts@ == seq![Action::ResetElectionTimer] + w.peers.take(i as int).map_values(
                    |p: usize| vote_request(w, p),
                ),
            decreases w.peers.len() - i,
        {
            let peer = self.peers[i];
            acts.push(
                Action::Send {
                    to: peer,
                    msg: Message::RequestVote {
                        args: RequestVoteArgs {
                            term: self.current_term,
                            candidate_id: self.id,
                            last_log_index,
                            last_log_term,
                        },
                        from: self.id,
                    },
                },
            );
            proof {
                assert(w.peers.take(i + 1) =~= w.peers.take(i as int).push(peer));
                assert(w.peers.take(i + 1).map_values(|p: usize| vote_request(w, p))
                    =~= w.peers.take(i as int).map_values(|p: usize| vote_request(w, p)).push(
                    vote_request(w, peer),
                ));
            }
            i = i + 1;
        }
        assert(w.peers.take(i as int) =~= w.peers);
        acts
    }

    /// The entries from index `from` to the end of the log, copied.
    fn entries_from(&self, from: usize) -> (r: Vec<LogEntry>)
        requires
            from <= self.log@.len(),
        ensures
            r@ == self.log@.subrange(from as int, self.log@.len() as int),
    {
        let mut r: Vec<LogEntry> = Vec::new();
        let mut i: usize = from;
        while i < self.log.len()
            invariant
                from <= i <= self.log@.len(),
                r@ == self.log@.subrange(from as int, i as int),
            decreases self.log@.len() - i,
        {
            r.push(self.log[i].duplicate());
            proof {
                assert(r@ =~= self.log@.subrange(from as int, i + 1));
            }
            i = i + 1;
        }
        r
    }

    /// The next index recorded for `peer`, 1 when none is.
    fn next_for(&self, peer: usize) -> (r: usize)
        ensures
            r == next_of(self@, peer),
    {
        match self.next_index.get(&peer) {
            Some(n) => *n,
            None => 1,
        }
    }

    /// The append request to every peer, each carrying the log from the peer's next index on.
    pub fn send_append_entries(&self) -> (r: Vec<Action>)
        requires
            self.wf(),
            broadcast_ok(self@),
        ensures
            broadcast_actions(self@, r@),
    {
        let mut acts: Vec<Action> = Vec::new();
        let mut i: usize = 0;
        while i < self.peers.len()
            invariant
                self.wf(),
                broadcast_ok(self@),
                i <= self@.peers.len(),
                acts@.len() == i,
                forall|j: int|
                    0 <= j < i ==> append_request_for(self@, self@.peers[j], #[trigger] acts@[j]),
            decreases self@.peers.len() - i,
        {
            let peer = self.peers[i];
            assert(next_of(self@, self@.peers[i as int]) <= self@.log.len());
            let next = self.next_for(peer);
            let prev_log_index = next - 1;
            let prev_log_term = self.log[prev_log_index].term;
            let entries = if self.log.len() - 1 > prev_log_index {
                self.entries_from(prev_log_index + 1)
            } else {
                Vec::new()
            };
            acts.push(
                Action::Send {
                    to: peer,
                    msg: Message::AppendEntries {
                        args: AppendEntriesArgs {
                            term: self.current_term,
                            leader_id: self.id,
                            prev_log_index,
                            prev_log_term,
                            entries,
                            leader_commit: self.commit_index,
                        },
                        from: self.id,
                    },
                },
            );
            assert(append_request_for(self@, peer, acts@[i as int]));
            i = i + 1;
        }
        acts
    }

    /// Answers a vote request from `from`.
    fn on_request_vote(&mut self, args: RequestVoteArgs, from: usize) -> (r: Vec<Action>)
        requires
            old(self).wf(),
        ensures
            final(self).wf(),
            request_vote_outcome(old(self)@, args, from, final(self)@, r@),
    {
        let ghost v0 = self@;
        let mut acts: Vec<Action> = Vec::new();
        self.check_term(args.term, &mut acts);
        let mut vote_granted = false;
        if args.term == self.current_term {
            let last_term = self.last_log_term();
            let last_idx = self.last_log_index();
            let is_log_ok = args.last_log_term > last_term || (args.last_log_term == last_term
                && args.last_log_index >= last_idx);
            let free = match self.voted_for {
                None => true,
                Some(c) => c == args.candidate_id,
            };
            if free && is_log_ok {
                self.voted_for = Some(args.candidate_id);
                vote_granted = true;
                acts.push(Action::ResetElectionTimer);
            }
        }
        let ghost a2 = acts@;
        if self.has_peer(from) {
            acts.push(
                Action::Send {
                    to: from,
                    msg: Message::RequestVoteResponse {
                        reply: RequestVoteReply { term: self.current_term, vote_granted },
                        from: self.id,
                    },
                },
            );
        }
        proof {
            let v1 = term_checked(v0, args.term);
            assert(vote_granted == grants_vote(v1, args));
            assert(a2 =~= term_check_actions(v0, args.term) + (if vote_granted {
                seq![Action::ResetElectionTimer]
            } else {
                Seq::empty()
            }));
            assert(acts@ =~= a2 + reply_to_peer(
                v0,
                from,
                Message::RequestVoteResponse {
                    reply: RequestVoteReply { term: self@.current_term, vote_granted },
                    from: v0.id,
                },
            ));
        }
        acts
    }

    /// Sets the entry of every peer in `m` to `x`.
    fn set_for_peers(peers: &Vec<usize>, m: &mut HashMap<usize, usize>, x: usize)
        ensures
            final(m)@ == set_all(old(m)@, peers@, x),
    {
        let mut i: usize = 0;
        while i < peers.len()
            invariant
                i <= peers@.len(),
                m@ == set_all(old(m)@, peers@.take(i as int), x),
            decreases peers@.len() - i,
        {
            m.insert(peers[i], x);
            proof {
                assert(peers@.take(i + 1) =~= peers@.take(i as int).push(peers@[i as int]));
                assert forall|k: usize| #![trigger peers@.take(i + 1).contains(k)]
                    peers@.take(i + 1).contains(k) <==> (peers@.take(i as int).contains(k) || k
                        == peers@[i as int]) by {
                    lemma_push_contains(peers@.take(i as int), peers@[i as int], k);
                }
                assert(m@ =~= set_all(old(m)@, peers@.take(i + 1), x));
            }
            i = i + 1;
        }
        assert(peers@.take(i as int) =~= peers@);
    }

    /// Counts a vote reply from `from`, and takes the lead on reaching a majority.
    fn on_vote_reply(&mut self, reply: RequestVoteReply, from: usize) -> (r: Vec<Action>)
        requires
            old(self).wf(),
        ensures
            final(self).wf(),
            vote_reply_outcome(old(self)@, reply, from, final(self)@, r@),
    {
        let ghost v0 = self@;
        if self.role != Role::Candidate {
            return Vec::new();
        }
        let mut acts: Vec<Action> = Vec::new();
        self.check_term(reply.term, &mut acts);
        let ghost a1 = acts@;
        if reply.term == self.current_term && reply.vote_granted {
            self.votes_received.insert(from);
            let majority = (self.peers.len() + 1) / 2 + 1;
            if self.votes_received.len() >= majority {
                self.role = Role::Leader;
                let next = self.log.len();
                RaftNode::set_for_peers(&self.peers, &mut self.next_index, next);
                RaftNode::set_for_peers(&self.peers, &mut self.match_index, 0);
                proof {
                    assert forall|p: usize| #[trigger] self@.next_index.contains_key(p) implies self@.next_index[p] >= 1 by {
                        if !self@.peers.contains(p) {
                            assert(v0.next_index.contains_key(p));
                        }
                    }
                    assert forall|i: int| 0 <= i < self@.peers.len() implies next_of(self@, #[trigger] self@.peers[i]) <= self@.log.len() by {
                        assert(self@.peers.contains(self@.peers[i]));
                    }
                }
                let mut b = self.send_append_entries();
                let ghost bs = b@;
                acts.append(&mut b);
                proof {
                    assert(acts@.subrange(0, a1.len() as int) =~= a1);
                    assert(acts@.subrange(a1.len() as int, acts@.len() as int) =~= bs);
                }
            }
        }
        acts
    }

    /// Handles an append request from `from`.
    fn on_append_entries(&mut self, args: AppendEntriesArgs, from: usize) -> (r: Vec<Action>)
        requires
            old(self).wf(),
            args.prev_log_index + args.entries@.len() < usize::MAX,
        ensures
            final(self).wf(),
            append_outcome(old(self)@, args, from, final(self)@, r@),
    {
        let ghost v0 = self@;
        let AppendEntriesArgs {
            term,
            leader_id: _,
            prev_log_index,
            prev_log_term,
            entries,
            leader_commit,
        } = args;
        let mut acts: Vec<Action> = Vec::new();
        self.check_term(term, &mut acts);
        let mut success = false;
        if term >= self.current_term {
            if self.role == Role::Candidate {
                self.role = Role::Follower;
            }
            acts.push(Action::ResetElectionTimer);
            if prev_log_index < self.log.len() && self.log[prev_log_index].term == prev_log_term {
                success = true;
                merge_into(&mut self.log, prev_log_index + 1, entries);
                if leader_commit > self.commit_index {
                    let last = self.log.len() - 1;
                    self.commit_index = if leader_commit < last {
                        leader_commit
                    } else {
                        last
                    };
                }
            }
        }
        let ghost a2 = acts@;
        let match_index = self.log.len() - 1;
        if self.has_peer(from) {
            acts.push(
                Action::Send {
                    to: from,
                    msg: Message::AppendEntriesResponse {
                        reply: AppendEntriesReply {
                            term: self.current_term,
                            success,
                            match_index,
                        },
                        from: self.id,
                    },
                },
            );
        }
        proof {
            let current = args.term >= term_checked(v0, args.term).current_term;
            assert(a2 =~= term_check_actions(v0, args.term) + (if current {
                seq![Action::ResetElectionTimer]
            } else {
                Seq::empty()
            }));
            assert(acts@ =~= a2 + reply_to_peer(
                v0,
                from,
                Message::AppendEntriesResponse {
                    reply: AppendEntriesReply {
                        term: self@.current_term,
                        success,
                        match_index: (self@.log.len() - 1) as usize,
                    },
                    from: v0.id,
                },
            ));
        }
        acts
    }

    /// How many peers have replicated the log up to `idx`.
    fn count_matches(&self, idx: usize) -> (r: usize)
        ensures
            r == match_count(self@.peers, self@.match_index, idx as int),
            r <= self@.peers.len(),
    {
        let mut count: usize = 0;
        let mut i: usize = 0;
        while i < self.peers.len()
            invariant
                i <= self@.peers.len(),
                count == match_count(self@.peers.take(i as int), self@.match_index, idx as int),
                count <= i,
            decreases self@.peers.len() - i,
        {
            let p = self.peers[i];
            let m = match self.match_index.get(&p) {
                Some(x) => *x,
                None => 0,
            };
            proof {
                assert(self@.peers.take(i + 1).drop_last() =~= self@.peers.take(i as int));
            }
            if m >= idx {
                count = count + 1;
            }
            i = i + 1;
        }
        assert(self@.peers.take(i as int) =~= self@.peers);
        count
    }

    /// Handles an append reply from `from`: records the follower's progress and commits what
    /// a majority holds, or steps its next index back.
    fn on_append_reply(&mut self, reply: AppendEntriesReply, from: usize) -> (r: Vec<Action>)
        requires
            old(self).wf(),
            reply.match_index < usize::MAX,
        ensures
            final(self).wf(),
            append_reply_outcome(old(self)@, reply, from, final(self)@, r@),
    {
        let mut acts: Vec<Action> = Vec::new();
        self.check_term(reply.term, &mut acts);
        if self.role != Role::Leader {
            return acts;
        }
        if reply.success {
            self.match_index.insert(from, reply.match_index);
            self.next_index.insert(from, reply.match_index + 1);
            let ghost v2 = self@;
            let mut idx = self.commit_index + 1;
            while idx < self.log.len()
                invariant
                    view_wf(v2),
                    self@.commit_index < usize::MAX,
                    self@ == (RaftView { commit_index: self@.commit_index, ..v2 }),
                    1 <= idx,
                    commit_scan(v2.log, v2.current_term, v2.peers, v2.match_index, self@.commit_index as int, idx as int)
                        == commit_scan(v2.log, v2.current_term, v2.peers, v2.match_index, v2.commit_index as int, v2.commit_index + 1),
                decreases self@.log.len() - idx,
            {
                if self.log[idx].term == self.current_term {
                    let matches = self.count_matches(idx);
                    if matches + 1 > (self.peers.len() + 1) / 2 {
                        self.commit_index = idx;
                    }
                }
                idx = idx + 1;
            }
        } else {
            let next = self.next_for(from);
            if next > 1 {
                self.next_index.insert(from, next - 1);
            }
        }
        acts
    }

    /// Handles a client write: a leader appends it and replicates it, any other replica
    /// refuses it, naming the leader it last voted for when it is a follower.
    fn on_client_write(&mut self, key: String, value: String, client_id: usize) -> (r: Vec<
        Action,
    >)
        requires
            old(self).wf(),
            old(self)@.role == Role::Leader ==> broadcast_ok(old(self)@),
        ensures
            final(self).wf(),
            client_write_outcome(old(self)@, key, value, client_id, final(self)@, r@),
    {
        if self.role != Role::Leader {
            let leader_id = if self.role == Role::Follower {
                self.voted_for
            } else {
                None
            };
            let mut acts: Vec<Action> = Vec::new();
            if self.has_peer(client_id) {
                acts.push(
                    Action::Send {
                        to: client_id,
                        msg: Message::ClientWriteResponse { success: false, leader_id, client_id },
                    },
                );
            }
            assert(acts@ =~= reply_to_peer(
                self@,
                client_id,
                Message::ClientWriteResponse { success: false, leader_id, client_id },
            ));
            return acts;
        }
        let term = self.current_term;
        self.log.push(LogEntry { term, command: Command::Put { key, value } });
        let idx = self.log.len() - 1;
        if self.has_peer(client_id) {
            put_pending(&mut self.pending_writes, idx, client_id);
        }
        assert forall|i: int| 0 <= i < self@.peers.len() implies next_of(self@, #[trigger] self@.peers[i]) <= self@.log.len() by {
            assert(next_of(old(self)@, old(self)@.peers[i]) <= old(self)@.log.len());
        }
        self.send_append_entries()
    }

    /// Handles one message and returns what to do about it.
    pub fn handle_message(&mut self, msg: Message) -> (r: Vec<Action>)
        requires
            old(self).wf(),
            message_in_range(old(self)@, msg),
        ensures
            final(self).wf(),
            message_outcome(old(self)@, msg, final(self)@, r@),
    {
        match msg {
            Message::RequestVote { args, from } => self.on_request_vote(args, from),
            Message::RequestVoteResponse { reply, from } => self.on_vote_reply(reply, from),
            Message::AppendEntries { args, from } => self.on_append_entries(args, from),
            Message::AppendEntriesResponse { reply, from } => self.on_append_reply(reply, from),
            Message::ClientWrite { key, value, client_id } => self.on_client_write(
                key,
                value,
                client_id,
            ),
            Message::ClientWriteResponse { .. } => Vec::new(),
        }
    }

    /// Applies the next committed entry to the store, and returns the reply a leader owes the
    /// client that wrote it.
    pub fn apply_next(&mut self) -> (r: Option<Action>)
        requires
            old(self).wf(),
            old(self)@.last_applied < old(self)@.commit_index,
            old(self)@.last_applied + 1 < old(self)@.log.len(),
        ensures
            final(self).wf(),
            final(self)@ == applied_next(old(self)@),
            r == applied_reply(old(self)@),
    {
        self.last_applied = self.last_applied + 1;
        self.state_machine.apply(&self.log[self.last_applied].command);
        if self.role == Role::Leader {
            match take_pending(&mut self.pending_writes, self.last_applied) {
                Some(client_id) => {
                    return Some(
                        Action::Send {
                            to: client_id,
                            msg: Message::ClientWriteResponse {
                                success: true,
                                leader_id: Some(self.id),
                                client_id,
                            },
                        },
                    );
                },
                None => {},
            }
        }
        None
    }
}

impl RaftNode {
    /// Every peer's next index is one an append request can be built from.
    pub fn broadcast_ready(&self) -> (r: bool)
        ensures
            r == broadcast_ok(self@),
    {
        let mut i: usize = 0;
        while i < self.peers.len()
            invariant
                i <= self@.peers.len(),
                forall|j: int| 0 <= j < i ==> next_of(self@, #[trigger] self@.peers[j]) <= self@.log.len(),
            decreases self@.peers.len() - i,
        {
            if self.next_for(self.peers[i]) > self.log.len() {
                return false;
            }
            i = i + 1;
        }
        true
    }

    /// `msg` can be handled in this state without an index overflowing or a next index
    /// pointing past the log.
    pub fn accepts(&self, msg: &Message) -> (r: bool)
        ensures
            r == message_in_range(self@, *msg),
    {
        match msg {
            Message::AppendEntries { args, .. } => args.entries.len() < usize::MAX
                - args.prev_log_index,
            Message::AppendEntriesResponse { reply, .. } => reply.match_index < usize::MAX,
            Message::ClientWrite { .. } => self.role != Role::Leader || self.broadcast_ready(),
            _ => true,
        }
    }
}

proof fn lemma_commit_scan_grows(
    log: Seq<LogEntry>,
    term: usize,
    peers: Seq<usize>,
    m: Map<usize, usize>,
    c: int,
    idx: int,
)
    requires
        idx > c,
    ensures
        commit_scan(log, term, peers, m, c, idx) >= c,
        commit_scan(log, term, peers, m, c, idx) == c || commit_scan(log, term, peers, m, c, idx)
            < log.len(),
    decreases log.len() - idx,
{
    if idx < log.len() && idx >= 0 {
        let c2 = if quorum_at(log, term, peers, m, idx) {
            idx
        } else {
            c
        };
        lemma_commit_scan_grows(log, term, peers, m, c2, idx + 1);
    }
}

/// A replica's term never decreases, whatever message it handles.
pub proof fn lemma_term_never_decreases(v: RaftView, msg: Message, w: RaftView, acts: Seq<Action>)
    requires
        message_outcome(v, msg, w, acts),
    ensures
        w.current_term >= v.current_term,
{
}

/// Within one term a replica never changes the vote it has cast.
pub proof fn lemma_vote_kept_within_term(
    v: RaftView,
    msg: Message,
    w: RaftView,
    acts: Seq<Action>,
)
    requires
        message_outcome(v, msg, w, acts),
        w.current_term == v.current_term,
        v.voted_for is Some,
    ensures
        w.voted_for == v.voted_for,
{
}

/// A replica becomes leader only on a vote reply that brings its votes to a majority.
pub proof fn lemma_leader_only_by_majority(
    v: RaftView,
    msg: Message,
    w: RaftView,
    acts: Seq<Action>,
)
    requires
        message_outcome(v, msg, w, acts),
        v.role != Role::Leader,
        w.role == Role::Leader,
    ensures
        msg is RequestVoteResponse,
        w.votes_received.len() >= majority(v),
{
}

/// Only an append request can lower a replica's commit index.
pub proof fn lemma_commit_only_lowered_by_append(
    v: RaftView,
    msg: Message,
    w: RaftView,
    acts: Seq<Action>,
)
    requires
        view_wf(v),
        message_outcome(v, msg, w, acts),
        !(msg is AppendEntries),
    ensures
        w.commit_index >= v.commit_index,
{
    match msg {
        Message::AppendEntriesResponse { reply, from } => {
            let v1 = term_checked(v, reply.term);
            if v1.role == Role::Leader && reply.success {
                let m2 = v1.match_index.insert(from, reply.match_index);
                lemma_commit_scan_grows(
                    v1.log,
                    v1.current_term,
                    v1.peers,
                    m2,
                    v1.commit_index as int,
                    v1.commit_index + 1,
                );
            }
        },
        _ => {},
    }
}

/// Stepping down on a higher term always leaves a follower without a vote.
pub proof fn lemma_higher_term_makes_follower(v: RaftView, term: usize)
    requires
        term > v.current_term,
    ensures
        term_checked(v, term).role == Role::Follower,
        term_checked(v, term).voted_for is None,
        term_checked(v, term).current_term == term,
{
}

/// The commit scan moves the commit index only to an entry of the current term held by a
/// quorum, within the log.
proof fn lemma_commit_scan_quorum(
    log: Seq<LogEntry>,
    term: usize,
    peers: Seq<usize>,
    m: Map<usize, usize>,
    c: int,
    idx: int,
)
    requires
        0 <= idx,
    ensures
        commit_scan(log, term, peers, m, c, idx) != c ==> idx <= commit_scan(log, term, peers, m, c, idx)
            < log.len() && quorum_at(log, term, peers, m, commit_scan(log, term, peers, m, c, idx)),
    decreases log.len() - idx,
{
    if idx < log.len() {
        let c2 = if quorum_at(log, term, peers, m, idx) {
            idx
        } else {
            c
        };
        lemma_commit_scan_quorum(log, term, peers, m, c2, idx + 1);
    }
}

/// Counting the peers that hold `idx` one by one gives the number of peers whose recorded
/// match index reaches `idx`.
proof fn lemma_match_count_filter(peers: Seq<usize>, m: Map<usize, usize>, idx: int)
    requires
        idx >= 1,
    ensures
        match_count(peers, m, idx) == peers.filter(|p: usize| m.contains_key(p) && m[p] >= idx).len(),
    decreases peers.len(),
{
    reveal_with_fuel(Seq::filter, 1);
    if peers.len() > 0 {
        lemma_match_count_filter(peers.drop_last(), m, idx);
    }
}

/// Fewer peers hold a later index.
proof fn lemma_match_count_mono(peers: Seq<usize>, m: Map<usize, usize>, a: int, b: int)
    requires
        a <= b,
    ensures
        match_count(peers, m, a) >= match_count(peers, m, b),
    decreases peers.len(),
{
    if peers.len() > 0 {
        lemma_match_count_mono(peers.drop_last(), m, a, b);
    }
}

/// A leader commits only what a strict majority of the cluster holds: after an append reply,
/// every newly committed index `idx` is in the leader's log, the entry the commit index reaches is
/// of the leader's term, and the leader together with the peers whose match index reaches
/// the index are more than half of the cluster.
pub proof fn lemma_commit_needs_majority(
    v: RaftView,
    reply: AppendEntriesReply,
    from: usize,
    w: RaftView,
    acts: Seq<Action>,
    idx: int,
)
    requires
        view_wf(v),
        message_outcome(v, Message::AppendEntriesResponse { reply, from }, w, acts),
        v.commit_index < idx <= w.commit_index,
    ensures
        w.role == Role::Leader,
        w.commit_index < w.log.len(),
        w.log[w.commit_index as int].term == w.current_term,
        2 * (1 + w.peers.filter(|p: usize| w.match_index.contains_key(p) && w.match_index[p] >= idx).len())
            > w.peers.len() + 1,
{
    let v1 = term_checked(v, reply.term);
    let m2 = v1.match_index.insert(from, reply.match_index);
    let c = v1.commit_index as int;
    lemma_commit_scan_quorum(v1.log, v1.current_term, v1.peers, m2, c, c + 1);
    let k = commit_scan(v1.log, v1.current_term, v1.peers, m2, c, c + 1);
    assert(v1.commit_index == v.commit_index);
    assert(v1.role == Role::Leader && reply.success);
    assert(k != c);
    assert(k == w.commit_index);
    lemma_match_count_mono(w.peers, w.match_index, idx, k);
    lemma_match_count_filter(w.peers, w.match_index, idx);
    let n = w.peers.len() as int;
    let q = match_count(w.peers, w.match_index, k) as int;
    assert(1 + q > (n + 1) / 2);
    assert(2 * (1 + q) > n + 1) by (nonlinear_arith)
        requires
            1 + q > (n + 1) / 2,
            n >= 0,
    ;
}

/// A vote is granted only to a candidate whose log is at least as up to date as the voter's
/// (its last term is later, or the same with a last index at least the voter's), whose term
/// is not behind the voter's, and, within the voter's own term, only when the voter has voted
/// for no one else.
pub proof fn lemma_vote_needs_up_to_date_log(
    v: RaftView,
    args: RequestVoteArgs,
    from: usize,
    w: RaftView,
    acts: Seq<Action>,
    i: int,
)
    requires
        v.log.len() >= 1,
        message_outcome(v, Message::RequestVote { args, from }, w, acts),
        0 <= i < acts.len(),
        acts[i] matches Action::Send { msg: Message::RequestVoteResponse { reply, .. }, .. } && reply.vote_granted,
    ensures
        args.last_log_term > v.log[v.log.len() - 1].term || (args.last_log_term == v.log[v.log.len() - 1].term
            && args.last_log_index >= v.log.len() - 1),
        w.voted_for == Some(args.candidate_id),
        args.term >= v.current_term,
        w.current_term == args.term,
        args.term == v.current_term ==> (v.voted_for is None || v.voted_for == Some(args.candidate_id)),
{
    let v1 = term_checked(v, args.term);
    let granted = grants_vote(v1, args);
    let a1 = term_check_actions(v, args.term);
    let mid = if granted {
        seq![Action::ResetElectionTimer]
    } else {
        Seq::<Action>::empty()
    };
    if i < a1.len() {
        if args.term > v.current_term && v.role == Role::Leader && i >= 1 {
            let ws = failed_writes(v.id, v.pending_writes);
            assert(a1 == seq![Action::ResetElectionTimer] + ws);
            assert(acts[i] == ws[i - 1]);
        }
    } else if i < a1.len() + mid.len() {
    } else {
        assert(acts[i] == reply_to_peer(
            v,
            from,
            Message::RequestVoteResponse {
                reply: RequestVoteReply { term: w.current_term, vote_granted: granted },
                from: v.id,
            },
        )[i - a1.len() - mid.len()]);
    }
}

/// The commit scan reaches at least every later index held by a quorum.
proof fn lemma_commit_scan_reaches(
    log: Seq<LogEntry>,
    term: usize,
    peers: Seq<usize>,
    m: Map<usize, usize>,
    c: int,
    start: int,
    idx: int,
)
    requires
        0 <= start <= idx < log.len(),
        c < idx,
        quorum_at(log, term, peers, m, idx),
    ensures
        commit_scan(log, term, peers, m, c, start) >= idx,
    decreases log.len() - start,
{
    let c2 = if quorum_at(log, term, peers, m, start) {
        start
    } else {
        c
    };
    if start < idx {
        lemma_commit_scan_reaches(log, term, peers, m, c2, start + 1, idx);
    } else {
        lemma_commit_scan_grows(log, term, peers, m, c2, start + 1);
    }
}

/// A leader that hears a successful append reply commits every entry of its term that a
/// strict majority of the cluster holds: the leader together with the peers whose match
/// index, after the reply, reaches the entry.
pub proof fn lemma_majority_commits(
    v: RaftView,
    reply: AppendEntriesReply,
    from: usize,
    w: RaftView,
    acts: Seq<Action>,
    idx: int,
)
    requires
        view_wf(v),
        message_outcome(v, Message::AppendEntriesResponse { reply, from }, w, acts),
        w.role == Role::Leader,
        reply.success,
        v.commit_index < idx < w.log.len(),
        w.log[idx].term == w.current_term,
        2 * (1 + w.peers.filter(|p: usize| w.match_index.contains_key(p) && w.match_index[p] >= idx).len())
            > w.peers.len() + 1,
    ensures
        w.commit_index >= idx,
{
    let v1 = term_checked(v, reply.term);
    let m2 = v1.match_index.insert(from, reply.match_index);
    let c = v1.commit_index as int;
    lemma_match_count_filter(w.peers, w.match_index, idx);
    let n = w.peers.len() as int;
    let q = match_count(w.peers, w.match_index, idx) as int;
    assert(1 + q > (n + 1) / 2) by (nonlinear_arith)
        requires
            2 * (1 + q) > n + 1,
            n >= 0,
    ;
    assert(v1.role == Role::Leader);
    assert(quorum_at(v1.log, v1.current_term, v1.peers, m2, idx));
    lemma_commit_scan_reaches(v1.log, v1.current_term, v1.peers, m2, c, c + 1, idx);
    lemma_commit_scan_quorum(v1.log, v1.current_term, v1.peers, m2, c, c + 1);
}

/// A replica grants a vote whenever it may: a request of its own term (or a later one), when
/// it has voted for no one else in that term and the candidate's log is at least as up to
/// date as its own, is granted, the vote recorded, and the grant sent back to a peer.
pub proof fn lemma_vote_granted_when_eligible(
    v: RaftView,
    args: RequestVoteArgs,
    from: usize,
    w: RaftView,
    acts: Seq<Action>,
)
    requires
        v.log.len() >= 1,
        message_outcome(v, Message::RequestVote { args, from }, w, acts),
        args.term >= v.current_term,
        args.term == v.current_term ==> (v.voted_for is None || v.voted_for == Some(args.candidate_id)),
        args.last_log_term > v.log[v.log.len() - 1].term || (args.last_log_term == v.log[v.log.len() - 1].term
            && args.last_log_index >= v.log.len() - 1),
    ensures
        w.voted_for == Some(args.candidate_id),
        w.current_term == args.term,
        v.peers.contains(from) ==> acts.last() == (Action::Send {
            to: from,
            msg: Message::RequestVoteResponse {
                reply: RequestVoteReply { term: args.term, vote_granted: true },
                from: v.id,
            },
        }),
{
}

/// A leader that hears an append reply of its own term (or an earlier one) records the
/// peer's progress and nothing else: on success the peer's match index is the index it
/// reported and its next index the one after; on failure its next index steps back by one,
/// never below one, and no match index changes. No other peer's record changes, the replica
/// stays leader of its term with the same log, and its commit index never goes back.
pub proof fn lemma_append_reply_progress(
    v: RaftView,
    reply: AppendEntriesReply,
    from: usize,
    w: RaftView,
    acts: Seq<Action>,
)
    requires
        view_wf(v),
        message_outcome(v, Message::AppendEntriesResponse { reply, from }, w, acts),
        v.role == Role::Leader,
        reply.term <= v.current_term,
        reply.match_index < usize::MAX,
    ensures
        w.role == Role::Leader,
        w.current_term == v.current_term,
        w.log == v.log,
        w.commit_index >= v.commit_index,
        reply.success ==> w.match_index.contains_key(from) && w.match_index[from] == reply.match_index
            && w.next_index.contains_key(from) && w.next_index[from] == reply.match_index + 1,
        !reply.success ==> w.match_index == v.match_index,
        !reply.success && v.next_index.contains_key(from) && v.next_index[from] > 1
            ==> w.next_index.contains_key(from) && w.next_index[from] == v.next_index[from] - 1,
        !reply.success && !(v.next_index.contains_key(from) && v.next_index[from] > 1)
            ==> w.next_index == v.next_index,
        forall|p: usize|
            p != from ==> (#[trigger] w.match_index.contains_key(p) == v.match_index.contains_key(p)
                && (v.match_index.contains_key(p) ==> w.match_index[p] == v.match_index[p])),
        forall|p: usize|
            p != from ==> (#[trigger] w.next_index.contains_key(p) == v.next_index.contains_key(p)
                && (v.next_index.contains_key(p) ==> w.next_index[p] == v.next_index[p])),
{
    if reply.success {
        let m2 = v.match_index.insert(from, reply.match_index);
        let c = v.commit_index as int;
        lemma_commit_scan_grows(v.log, v.current_term, v.peers, m2, c, c + 1);
        lemma_commit_scan_quorum(v.log, v.current_term, v.peers, m2, c, c + 1);
    }
}

} // verus!
