//! SWIM-style membership: the ping/ack packet, and the directory of peers with the
//! decisions taken on each received packet and each gossip round.
use vstd::prelude::*;

use crate::wire::{be32, read_u32, u32_at};

verus! {

#[derive(Debug, Clone, Copy, PartialEq, Eq, Structural)]
pub enum SwimMessageType {
    Ping,
    Ack,
}

/// A gossip packet: its kind and sequence number.
#[derive(Debug, Clone, Copy)]
pub struct SwimPacket {
    pub msg_type: SwimMessageType,
    pub seq_num: u32,
}

/// The tag byte of a packet kind.
pub open spec fn type_tag(t: SwimMessageType) -> u8 {
    match t {
        SwimMessageType::Ping => 0,
        SwimMessageType::Ack => 1,
    }
}

/// The five bytes of a packet: its tag, then its sequence number.
pub open spec fn packet_bytes(p: SwimPacket) -> Seq<u8> {
    seq![type_tag(p.msg_type)] + be32(p.seq_num)
}

/// The packet `buf` starts with, if any.
pub open spec fn packet_of(buf: Seq<u8>) -> Option<SwimPacket> {
    if buf.len() < 5 {
        None
    } else if buf[0] == 0 {
        Some(SwimPacket { msg_type: SwimMessageType::Ping, seq_num: u32_at(buf, 1) })
    } else if buf[0] == 1 {
        Some(SwimPacket { msg_type: SwimMessageType::Ack, seq_num: u32_at(buf, 1) })
    } else {
        None
    }
}

impl SwimPacket {
    /// The five bytes of the packet.
    pub fn serialize(&self) -> (r: [u8; 5])
        ensures
            r@ == packet_bytes(*self),
    {
        let tag: u8 = match self.msg_type {
            SwimMessageType::Ping => 0,
            SwimMessageType::Ack => 1,
        };
        let s = self.seq_num;
        let r = [tag, (s >> 24u32) as u8, ((s >> 16u32) & 0xffu32) as u8, ((s >> 8u32) & 0xffu32) as u8, (s & 0xffu32) as u8];
        assert(r@ =~= packet_bytes(*self));
        r
    }

    /// The packet at the start of `buf`; `None` when it is shorter than a packet or its tag
    /// is unknown.
    pub fn deserialize(buf: &[u8]) -> (r: Option<SwimPacket>)
        ensures
            r == packet_of(buf@),
    {
        if buf.len() < 5 {
            return None;
        }
        let msg_type = if buf[0] == 0 {
            SwimMessageType::Ping
        } else if buf[0] == 1 {
            SwimMessageType::Ack
        } else {
            return None;
        };
        let seq_num = read_u32(buf, 1);
        Some(SwimPacket { msg_type, seq_num })
    }
}

/// Reading back the bytes of a packet gives the packet.
pub proof fn lemma_packet_roundtrip(p: SwimPacket, rest: Seq<u8>)
    ensures
        packet_of(packet_bytes(p) + rest) == Some(p),
{
    let b = packet_bytes(p) + rest;
    crate::wire::lemma_be32_roundtrip(p.seq_num, rest, seq![type_tag(p.msg_type)]);
    assert(b =~= seq![type_tag(p.msg_type)] + be32(p.seq_num) + rest);
}

#[derive(Debug, Clone, Copy, PartialEq, Eq, Structural)]
pub enum PeerState {
    Alive,
    Suspect,
    Dead,
}

/// A peer's socket address as plain values: address bits, port, and for IPv6 the flow
/// information and scope.
#[derive(Debug, Clone, Copy, PartialEq, Eq, Structural)]
pub struct PeerAddr {
    pub is_v6: bool,
    pub ip: u128,
    pub port: u16,
    pub flowinfo: u32,
    pub scope_id: u32,
}

/// One directory record: the peer, its state, and when it was last heard from (nanoseconds
/// on the caller's monotonic clock).
#[derive(Debug, Clone, Copy)]
pub struct PeerInfo {
    pub address: PeerAddr,
    pub state: PeerState,
    pub last_seen_ns: u64,
}

/// The age after which a silent alive peer becomes suspect.
pub const SUSPECT_AFTER_NS: u64 = 3000000000;

/// The age after which a silent suspect peer is dead.
pub const DEAD_AFTER_NS: u64 = 6000000000;

/// The time elapsed from `then` to `now`, zero when `now` is earlier.
pub open spec fn elapsed(now: u64, then: u64) -> int {
    if now >= then {
        now - then
    } else {
        0
    }
}

/// A record after a gossip round at `now`: alive and silent too long turns suspect,
/// suspect and silent too long turns dead.
pub open spec fn aged(r: PeerInfo, now: u64) -> PeerInfo {
    if r.state == PeerState::Alive && elapsed(now, r.last_seen_ns) > SUSPECT_AFTER_NS {
        PeerInfo { state: PeerState::Suspect, ..r }
    } else if r.state == PeerState::Suspect && elapsed(now, r.last_seen_ns) > DEAD_AFTER_NS {
        PeerInfo { state: PeerState::Dead, ..r }
    } else {
        r
    }
}

/// The addresses of the records that are not dead, in order.
pub open spec fn live_addresses(rs: Seq<PeerInfo>) -> Seq<PeerAddr>
    decreases rs.len(),
{
    if rs.len() == 0 {
        Seq::empty()
    } else {
        live_addresses(rs.drop_last()) + if rs.last().state != PeerState::Dead {
            seq![rs.last().address]
        } else {
            Seq::empty()
        }
    }
}

/// The index of the record of `addr`, if any.
pub open spec fn record_of(rs: Seq<PeerInfo>, addr: PeerAddr) -> Option<int> {
    if exists|i: int| 0 <= i < rs.len() && #[trigger] rs[i].address == addr {
        Some(choose|i: int| 0 <= i < rs.len() && #[trigger] rs[i].address == addr)
    } else {
        None
    }
}

/// No address is listed twice.
pub open spec fn addresses_distinct(rs: Seq<PeerInfo>) -> bool {
    forall|i: int, j: int|
        0 <= i < rs.len() && 0 <= j < rs.len() && i != j ==> rs[i].address != rs[j].address
}

/// The peer directory and the gossip sequence counter.
pub struct Membership {
    peers: Vec<PeerInfo>,
    seq_num: u32,
}

/// The state of a directory.
pub struct MembershipView {
    pub peers: Seq<PeerInfo>,
    pub seq_num: u32,
}

impl View for Membership {
    type V = MembershipView;

    closed spec fn view(&self) -> MembershipView {
        MembershipView { peers: self.peers@, seq_num: self.seq_num }
    }
}

impl Membership {
    /// Every address is listed once.
    pub open spec fn wf(&self) -> bool {
        addresses_distinct(self@.peers)
    }

    /// An empty directory.
    pub fn new() -> (r: Self)
        ensures
            r.wf(),
            r@.peers == Seq::<PeerInfo>::empty(),
            r@.seq_num == 0,
    {
        Membership { peers: Vec::new(), seq_num: 0 }
    }

    fn find(&self, addr: PeerAddr) -> (r: Option<usize>)
        requires
            self.wf(),
        ensures
            match record_of(self@.peers, addr) {
                Some(i) => r == Some(i as usize),
                None => r is None,
            },
    {
        let mut i: usize = 0;
        while i < self.peers.len()
            invariant
                i <= self@.peers.len(),
                addresses_distinct(self@.peers),
                forall|j: int| 0 <= j < i ==> self@.peers[j].address != addr,
            decreases self@.peers.len() - i,
        {
            if self.peers[i].address == addr {
                proof {
                    let c = choose|k: int| 0 <= k < self@.peers.len() && #[trigger] self@.peers[k].address == addr;
                    assert(c == i);
                }
                return Some(i);
            }
            i = i + 1;
        }
        None
    }

    /// Lists `addr` as alive, seen at `now`, unless it is already listed.
    pub fn add_peer(&mut self, addr: PeerAddr, now: u64)
        requires
            old(self).wf(),
        ensures
            final(self).wf(),
            final(self)@.seq_num == old(self)@.seq_num,
            final(self)@.peers == if record_of(old(self)@.peers, addr) is Some {
                old(self)@.peers
            } else {
                old(self)@.peers.push(PeerInfo { address: addr, state: PeerState::Alive, last_seen_ns: now })
            },
    {
        if self.find(addr).is_none() {
            self.peers.push(PeerInfo { address: addr, state: PeerState::Alive, last_seen_ns: now });
            proof {
                assert forall|j: int| 0 <= j < old(self)@.peers.len() implies old(self)@.peers[j].address != addr by {
                    if old(self)@.peers[j].address == addr {
                        assert(record_of(old(self)@.peers, addr) is Some);
                    }
                }
            }
        }
    }

    /// What to answer a datagram from `src` received at `now`: a ping is answered with an ack
    /// of the same sequence number; an ack marks the sender alive and seen now.
    pub fn on_datagram(&mut self, buf: &[u8], src: PeerAddr, now: u64) -> (r: Option<[u8; 5]>)
        requires
            old(self).wf(),
        ensures
            final(self).wf(),
            final(self)@.seq_num == old(self)@.seq_num,
            match packet_of(buf@) {
                Some(p) => match p.msg_type {
                    SwimMessageType::Ping => final(self)@ == old(self)@ && (r matches Some(a) && a@
                        == packet_bytes(SwimPacket { msg_type: SwimMessageType::Ack, seq_num: p.seq_num })),
                    SwimMessageType::Ack => r is None && final(self)@.peers == match record_of(old(self)@.peers, src) {
                        Some(i) => old(self)@.peers.update(i, PeerInfo { address: src, state: PeerState::Alive, last_seen_ns: now }),
                        None => old(self)@.peers,
                    },
                },
                None => r is None && final(self)@ == old(self)@,
            },
    {
        match SwimPacket::deserialize(buf) {
            None => None,
            Some(packet) => {
                match packet.msg_type {
                    SwimMessageType::Ping => {
                        let ack = SwimPacket { msg_type: SwimMessageType::Ack, seq_num: packet.seq_num };
                        Some(ack.serialize())
                    },
                    SwimMessageType::Ack => {
                        match self.find(src) {
                            Some(i) => {
                                self.peers.set(i, PeerInfo { address: src, state: PeerState::Alive, last_seen_ns: now });
                                proof {
                                    assert forall|a: int, b: int| 0 <= a < self@.peers.len() && 0 <= b < self@.peers.len() && a != b implies self@.peers[a].address != self@.peers[b].address by {
                                        assert(self@.peers[a].address == old(self)@.peers[a].address);
                                        assert(self@.peers[b].address == old(self)@.peers[b].address);
                                    }
                                }
                            },
                            None => {},
                        }
                        None
                    },
                }
            },
        }
    }

    /// A gossip round at `now`: ages every peer, then picks the live peer at the current
    /// sequence number (modulo their count) and returns it with a ping carrying that number,
    /// which then advances.
    pub fn gossip_round(&mut self, now: u64) -> (r: Option<(PeerAddr, [u8; 5])>)
        requires
            old(self).wf(),
        ensures
            final(self).wf(),
            final(self)@.peers == old(self)@.peers.map_values(|p: PeerInfo| aged(p, now)),
            ({
                let live = live_addresses(final(self)@.peers);
                if live.len() == 0 {
                    r is None && final(self)@.seq_num == old(self)@.seq_num
                } else {
                    &&& (r matches Some((target, bytes)) && target == live[(old(self)@.seq_num as int) % (live.len() as int)]
                        && bytes@ == packet_bytes(SwimPacket { msg_type: SwimMessageType::Ping, seq_num: old(self)@.seq_num }))
                    &&& final(self)@.seq_num == vstd::wrapping::u32_specs::wrapping_add(old(self)@.seq_num, 1)
                }
            }),
    {
        let ghost old_peers = self@.peers;
        let mut i: usize = 0;
        while i < self.peers.len()
            invariant
                i <= self@.peers.len(),
                self@.peers.len() == old_peers.len(),
                self@.seq_num == old(self)@.seq_num,
                forall|j: int| 0 <= j < i ==> #[trigger] self@.peers[j] == aged(old_peers[j], now),
                forall|j: int| i <= j < self@.peers.len() ==> #[trigger] self@.peers[j] == old_peers[j],
            decreases self@.peers.len() - i,
        {
            let p = self.peers[i];
            let since = if now >= p.last_seen_ns { now - p.last_seen_ns } else { 0 };
            if p.state == PeerState::Alive && since > SUSPECT_AFTER_NS {
                self.peers.set(i, PeerInfo { state: PeerState::Suspect, ..p });
            } else if p.state == PeerState::Suspect && since > DEAD_AFTER_NS {
                self.peers.set(i, PeerInfo { state: PeerState::Dead, ..p });
            }
            i = i + 1;
        }
        proof {
            assert(self@.peers =~= old_peers.map_values(|p: PeerInfo| aged(p, now)));
            assert forall|a: int, b: int| 0 <= a < self@.peers.len() && 0 <= b < self@.peers.len() && a != b implies self@.peers[a].address != self@.peers[b].address by {
                assert(self@.peers[a].address == old_peers[a].address);
                assert(self@.peers[b].address == old_peers[b].address);
            }
        }
        let mut live: Vec<PeerAddr> = Vec::new();
        let mut k: usize = 0;
        while k < self.peers.len()
            invariant
                k <= self@.peers.len(),
                live@ == live_addresses(self@.peers.take(k as int)),
            decreases self@.peers.len() - k,
        {
            proof {
                assert(self@.peers.take(k + 1).drop_last() =~= self@.peers.take(k as int));
            }
            if self.peers[k].state != PeerState::Dead {
                live.push(self.peers[k].address);
            }
            k = k + 1;
            proof {
                assert(live@ =~= live_addresses(self@.peers.take(k as int)));
            }
        }
        assert(self@.peers.take(k as int) =~= self@.peers);
        if live.len() == 0 {
            return None;
        }
        let idx = (self.seq_num as usize) % live.len();
        let target = live[idx];
        let ping = SwimPacket { msg_type: SwimMessageType::Ping, seq_num: self.seq_num };
        let bytes = ping.serialize();
        self.seq_num = self.seq_num.wrapping_add(1);
        Some((target, bytes))
    }

    /// The state of `addr`, if listed.
    pub fn get_peer_state(&self, addr: PeerAddr) -> (r: Option<PeerState>)
        requires
            self.wf(),
        ensures
            match record_of(self@.peers, addr) {
                Some(i) => r == Some(self@.peers[i].state),
                None => r is None,
            },
    {
        match self.find(addr) {
            Some(i) => {
                proof {
                    let c = choose|k: int| 0 <= k < self@.peers.len() && #[trigger] self@.peers[k].address == addr;
                    assert(record_of(self@.peers, addr) == Some(c));
                    assert(self@.peers.len() == self.peers.len());
                }
                Some(self.peers[i].state)
            },
            None => None,
        }
    }

    /// How many peers are listed.
    pub fn peer_count(&self) -> (r: usize)
        ensures
            r == self@.peers.len(),
    {
        self.peers.len()
    }
}

} // verus!
