//! Messages exchanged between replicas and with clients.
use vstd::prelude::*;

use crate::raft::store::Command;

verus! {

/// One log slot: the term it was created in and its command.
#[derive(Debug)]
pub struct LogEntry {
    pub term: usize,
    pub command: Command,
}

impl LogEntry {
    /// A copy of the entry.
    pub fn duplicate(&self) -> (r: LogEntry)
        ensures
            r == *self,
    {
        LogEntry { term: self.term, command: self.command.duplicate() }
    }
}

#[derive(Debug, Clone, Copy)]
pub struct RequestVoteArgs {
    pub term: usize,
    pub candidate_id: usize,
    pub last_log_index: usize,
    pub last_log_term: usize,
}

#[derive(Debug, Clone, Copy)]
pub struct RequestVoteReply {
    pub term: usize,
    pub vote_granted: bool,
}

#[derive(Debug)]
pub struct AppendEntriesArgs {
    pub term: usize,
    pub leader_id: usize,
    pub prev_log_index: usize,
    pub prev_log_term: usize,
    pub entries: Vec<LogEntry>,
    pub leader_commit: usize,
}

#[derive(Debug, Clone, Copy)]
pub struct AppendEntriesReply {
    pub term: usize,
    pub success: bool,
    pub match_index: usize,
}

/// Everything a replica receives or sends.
#[derive(Debug)]
#[allow(inconsistent_fields)]
pub enum Message {
    RequestVote { args: RequestVoteArgs, from: usize },
    RequestVoteResponse { reply: RequestVoteReply, from: usize },
    AppendEntries { args: AppendEntriesArgs, from: usize },
    AppendEntriesResponse { reply: AppendEntriesReply, from: usize },
    ClientWrite { key: String, value: String, client_id: usize },
    ClientWriteResponse { success: bool, leader_id: Option<usize>, client_id: usize },
}

} // verus!
