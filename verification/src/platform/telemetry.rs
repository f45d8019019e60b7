//! The control-center view of the cluster: per-node telemetry records, the fault-injection
//! switches, and the rules by which a switch changes a node's role and health.
use vstd::prelude::*;

verus! {

/// What the dashboard shows for one node.
#[derive(Debug, Clone)]
pub struct NodeTelemetry {
    pub node_id: u32,
    pub role: String,
    pub status: String,
    pub cpu: u32,
    pub arena_memory_allocated: u32,
    pub arena_memory_total: u32,
    pub active_fd_pool: u32,
    pub replication_lag: u32,
    pub lsm_storage_bytes: u64,
    pub iops: u32,
}

/// The fault-injection switches.
#[derive(Debug, Clone, Copy)]
pub struct ChaosMode {
    pub partition_split: bool,
    pub malformed_frames: bool,
    pub crash_node2: bool,
    pub fuzzer_running: bool,
}

impl ChaosMode {
    /// Every switch off.
    pub fn off() -> (r: Self)
        ensures
            !r.partition_split && !r.malformed_frames && !r.crash_node2 && !r.fuzzer_running,
    {
        ChaosMode {
            partition_split: false,
            malformed_frames: false,
            crash_node2: false,
            fuzzer_running: false,
        }
    }
}

/// Node `i` is down: node 2 while the crash switch is on.
pub open spec fn crashed(i: u32, chaos: ChaosMode) -> bool {
    i == 2 && chaos.crash_node2
}

/// Node `i` is cut off: nodes above 2 while the partition switch is on.
pub open spec fn partitioned(i: u32, chaos: ChaosMode) -> bool {
    chaos.partition_split && i > 2
}

/// Whether node `i` is down.
pub fn node_crashed(i: u32, chaos: &ChaosMode) -> (r: bool)
    ensures
        r == crashed(i, *chaos),
{
    i == 2 && chaos.crash_node2
}

/// Whether node `i` is cut off.
pub fn node_partitioned(i: u32, chaos: &ChaosMode) -> (r: bool)
    ensures
        r == partitioned(i, *chaos),
{
    chaos.partition_split && i > 2
}

/// The role node `i` reports: node 1 leads, node 3 campaigns while cut off, the rest follow.
pub open spec fn role_of(i: u32, chaos: ChaosMode) -> Seq<char> {
    if i == 1 {
        "Leader"@
    } else if i == 3 && partitioned(i, chaos) {
        "Candidate"@
    } else {
        "Follower"@
    }
}

/// The role node `i` reports.
pub fn node_role(i: u32, chaos: &ChaosMode) -> (r: String)
    ensures
        r@ == role_of(i, *chaos),
{
    if i == 1 {
        "Leader".to_owned()
    } else if i == 3 && node_partitioned(i, chaos) {
        "Candidate".to_owned()
    } else {
        "Follower".to_owned()
    }
}

/// The health node `i` reports: offline when down, degraded when cut off or when the fuzzer
/// hit it (`fuzzed`), healthy otherwise.
pub open spec fn status_of(i: u32, chaos: ChaosMode, fuzzed: bool) -> Seq<char> {
    if crashed(i, chaos) {
        "Offline"@
    } else if partitioned(i, chaos) || fuzzed {
        "Degraded"@
    } else {
        "Healthy"@
    }
}

/// The health node `i` reports, `fuzzed` telling whether the fuzzer's draw hit it.
pub fn node_status(i: u32, chaos: &ChaosMode, fuzzed: bool) -> (r: String)
    ensures
        r@ == status_of(i, *chaos, fuzzed),
{
    if node_crashed(i, chaos) {
        "Offline".to_owned()
    } else if node_partitioned(i, chaos) || fuzzed {
        "Degraded".to_owned()
    } else {
        "Healthy".to_owned()
    }
}

/// One step of the 32-bit xorshift generator (shifts 13, 17, 5).
pub open spec fn xorshift_step(x: u32) -> u32 {
    let a = x ^ (x << 13u32);
    let b = a ^ (a >> 17u32);
    b ^ (b << 5u32)
}

/// One step of the 32-bit xorshift generator.
pub fn xorshift32(x: u32) -> (r: u32)
    ensures
        r == xorshift_step(x),
{
    let mut y = x;
    y = y ^ (y << 13u32);
    y = y ^ (y >> 17u32);
    y = y ^ (y << 5u32);
    y
}

/// The generator never leaves a nonzero state for zero, so a nonzero seed keeps it running.
pub proof fn lemma_xorshift_nonzero(x: u32)
    requires
        x != 0,
    ensures
        xorshift_step(x) != 0,
{
    assert(x != 0 ==> ({
        let a = x ^ (x << 13u32);
        let b = a ^ (a >> 17u32);
        b ^ (b << 5u32)
    }) != 0) by (bit_vector);
}

} // verus!
