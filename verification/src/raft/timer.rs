//! The timers of a replica: a randomised election timeout that a follower or candidate waits
//! out before it stands for election, and the period at which a leader sends heartbeats.
//! Times are milliseconds on a clock the caller reads.
use vstd::prelude::*;
use rand::Rng;

use crate::raft::node::Role;

verus! {

/// The shortest election timeout drawn.
pub const ELECTION_TIMEOUT_MIN_MS: u64 = 150;

/// The bound, not reached, of the election timeouts drawn.
pub const ELECTION_TIMEOUT_MAX_MS: u64 = 300;

/// How long a leader waits between heartbeats.
pub const HEARTBEAT_INTERVAL_MS: u64 = 50;

/// `rand::thread_rng().gen_range(low..high)`: a number drawn at random from `low` up to,
/// not including, `high`. Which number comes out is left to chance; only the range is
/// stated.
#[verifier::external_body]
fn random_in(low: u64, high: u64) -> (r: u64)
    requires
        low < high,
    ensures
        low <= r < high,
{
    rand::thread_rng().gen_range(low..high)
}

/// What a timer check asks of the replica.
#[derive(Debug, Clone, Copy, PartialEq, Eq, Structural)]
pub enum TimerEvent {
    /// Nothing is due yet.
    Idle,
    /// A leader's heartbeat period has passed: send the heartbeats.
    Heartbeat,
    /// The election timeout has passed without word from a leader: stand for election.
    Election,
}

/// The election timer: the timeout last drawn and when the timer was last restarted.
pub struct ElectionTimer {
    timeout_ms: u64,
    last_reset_ms: u64,
}

/// The timer as plain values.
pub struct TimerView {
    pub timeout_ms: u64,
    pub last_reset_ms: u64,
}

impl View for ElectionTimer {
    type V = TimerView;

    closed spec fn view(&self) -> TimerView {
        TimerView { timeout_ms: self.timeout_ms, last_reset_ms: self.last_reset_ms }
    }
}

/// The time passed since `since`; none when the clock reads earlier.
pub open spec fn elapsed_since(since: u64, now: u64) -> int {
    if now >= since {
        now - since
    } else {
        0
    }
}

/// What is due at `now` for a replica in `role` whose timer reads `t`.
pub open spec fn due_event(t: TimerView, role: Role, now: u64) -> TimerEvent {
    if role == Role::Leader {
        if elapsed_since(t.last_reset_ms, now) >= HEARTBEAT_INTERVAL_MS {
            TimerEvent::Heartbeat
        } else {
            TimerEvent::Idle
        }
    } else if elapsed_since(t.last_reset_ms, now) >= t.timeout_ms {
        TimerEvent::Election
    } else {
        TimerEvent::Idle
    }
}

impl ElectionTimer {
    /// The timeout lies in the range timeouts are drawn from.
    pub closed spec fn wf(&self) -> bool {
        ELECTION_TIMEOUT_MIN_MS <= self.timeout_ms < ELECTION_TIMEOUT_MAX_MS
    }

    /// A timer started at `now_ms` with a freshly drawn timeout.
    pub fn new(now_ms: u64) -> (r: Self)
        ensures
            r.wf(),
            r@.last_reset_ms == now_ms,
            ELECTION_TIMEOUT_MIN_MS <= r@.timeout_ms < ELECTION_TIMEOUT_MAX_MS,
    {
        ElectionTimer {
            timeout_ms: random_in(ELECTION_TIMEOUT_MIN_MS, ELECTION_TIMEOUT_MAX_MS),
            last_reset_ms: now_ms,
        }
    }

    /// Draws a fresh timeout and restarts the timer at `now_ms`.
    pub fn reset(&mut self, now_ms: u64)
        ensures
            final(self).wf(),
            final(self)@.last_reset_ms == now_ms,
            ELECTION_TIMEOUT_MIN_MS <= final(self)@.timeout_ms < ELECTION_TIMEOUT_MAX_MS,
    {
        self.timeout_ms = random_in(ELECTION_TIMEOUT_MIN_MS, ELECTION_TIMEOUT_MAX_MS);
        self.last_reset_ms = now_ms;
    }

    /// Restarts the timer at `now_ms`, keeping the timeout: a leader does so after each
    /// round of heartbeats.
    pub fn touch(&mut self, now_ms: u64)
        ensures
            final(self)@.last_reset_ms == now_ms,
            final(self)@.timeout_ms == old(self)@.timeout_ms,
            old(self).wf() ==> final(self).wf(),
    {
        self.last_reset_ms = now_ms;
    }

    /// The timeout last drawn.
    pub fn timeout_ms(&self) -> (r: u64)
        ensures
            r == self@.timeout_ms,
    {
        self.timeout_ms
    }

    /// What is due at `now_ms` for a replica in `role`: heartbeats for a leader once the
    /// heartbeat period has passed since the last restart, an election for any other role
    /// once the drawn timeout has.
    pub fn due(&self, role: Role, now_ms: u64) -> (r: TimerEvent)
        ensures
            r == due_event(self@, role, now_ms),
    {
        let elapsed = if now_ms >= self.last_reset_ms {
            now_ms - self.last_reset_ms
        } else {
            0
        };
        if role == Role::Leader {
            if elapsed >= HEARTBEAT_INTERVAL_MS {
                TimerEvent::Heartbeat
            } else {
                TimerEvent::Idle
            }
        } else if elapsed >= self.timeout_ms {
            TimerEvent::Election
        } else {
            TimerEvent::Idle
        }
    }
}

/// A replica that is not the leader does not stand for election before the shortest
/// timeout has passed since its timer was last restarted, and always does once the longest
/// has.
pub proof fn lemma_election_waits_for_timeout(t: TimerView, role: Role, now: u64)
    requires
        role != Role::Leader,
        ELECTION_TIMEOUT_MIN_MS <= t.timeout_ms < ELECTION_TIMEOUT_MAX_MS,
    ensures
        elapsed_since(t.last_reset_ms, now) < ELECTION_TIMEOUT_MIN_MS ==> due_event(t, role, now) == TimerEvent::Idle,
        elapsed_since(t.last_reset_ms, now) >= ELECTION_TIMEOUT_MAX_MS ==> due_event(t, role, now) == TimerEvent::Election,
{
}

} // verus!
