use infra_core::platform::http::{http_response, request_path};
use infra_core::platform::swim::{Membership, PeerAddr, PeerState, SwimMessageType, SwimPacket};
use infra_core::platform::telemetry::{node_role, node_status, xorshift32, ChaosMode};

fn addr(port: u16) -> PeerAddr {
    PeerAddr { is_v6: false, ip: 0x7f000001, port, flowinfo: 0, scope_id: 0 }
}

#[test]
fn request_paths() {
    assert_eq!(request_path(b"GET /telemetry HTTP/1.1\r\nHost: x\r\n\r\n"), "/telemetry");
    assert_eq!(request_path(b"GET"), "/");
    assert_eq!(request_path(b""), "/");
    assert_eq!(request_path(b"  POST   /a/b  \r\n"), "/a/b");
}

#[test]
fn telemetry_and_not_found_responses() {
    let ok = http_response("/telemetry", 3, 2);
    let body = "{\n  \"status\": \"ACTIVE\",\n  \"swim_peers\": 3,\n  \"lsm_sstables\": 2\n}";
    assert_eq!(
        ok,
        format!(
            "HTTP/1.1 200 OK\r\nContent-Type: application/json\r\nContent-Length: {}\r\nConnection: close\r\n\r\n{}",
            body.len(),
            body
        )
    );
    let missing = http_response("/x", 0, 0);
    assert!(missing.starts_with("HTTP/1.1 404 Not Found\r\n"));
    assert!(missing.ends_with("{\n  \"error\": \"Not Found\"\n}"));
}

#[test]
fn short_or_unknown_packets_are_ignored() {
    assert!(SwimPacket::deserialize(&[0, 0, 0]).is_none());
    assert!(SwimPacket::deserialize(&[7, 0, 0, 0, 1]).is_none());
    let p = SwimPacket::deserialize(&[1, 0, 0, 1, 0]).unwrap();
    assert_eq!(p.msg_type, SwimMessageType::Ack);
    assert_eq!(p.seq_num, 256);
}

#[test]
fn membership_answers_pings_and_tracks_acks() {
    let mut m = Membership::new();
    m.add_peer(addr(1), 0);
    m.add_peer(addr(1), 5);
    assert_eq!(m.peer_count(), 1);
    let ping = SwimPacket { msg_type: SwimMessageType::Ping, seq_num: 9 }.serialize();
    let reply = m.on_datagram(&ping, addr(2), 10).unwrap();
    let ack = SwimPacket::deserialize(&reply).unwrap();
    assert_eq!(ack.msg_type, SwimMessageType::Ack);
    assert_eq!(ack.seq_num, 9);
    assert_eq!(m.get_peer_state(addr(1)), Some(PeerState::Alive));
    assert_eq!(m.get_peer_state(addr(3)), None);
}

#[test]
fn silent_peers_become_suspect_then_dead() {
    let mut m = Membership::new();
    m.add_peer(addr(1), 0);
    let first = m.gossip_round(4_000_000_000);
    assert_eq!(first.map(|(a, _)| a), Some(addr(1)));
    assert_eq!(m.get_peer_state(addr(1)), Some(PeerState::Suspect));
    assert!(m.gossip_round(7_000_000_000).is_none());
    assert_eq!(m.get_peer_state(addr(1)), Some(PeerState::Dead));
    let ack = SwimPacket { msg_type: SwimMessageType::Ack, seq_num: 0 }.serialize();
    assert!(m.on_datagram(&ack, addr(1), 8_000_000_000).is_none());
    assert_eq!(m.get_peer_state(addr(1)), Some(PeerState::Alive));
    let (target, bytes) = m.gossip_round(8_500_000_000).unwrap();
    assert_eq!(target, addr(1));
    assert_eq!(SwimPacket::deserialize(&bytes).unwrap().msg_type, SwimMessageType::Ping);
}

#[test]
fn chaos_switches_set_roles_and_health() {
    let calm = ChaosMode::off();
    assert_eq!(node_role(1, &calm), "Leader");
    assert_eq!(node_role(3, &calm), "Follower");
    assert_eq!(node_status(2, &calm, false), "Healthy");
    let split = ChaosMode { partition_split: true, ..calm };
    assert_eq!(node_role(3, &split), "Candidate");
    assert_eq!(node_status(4, &split, false), "Degraded");
    let crash = ChaosMode { crash_node2: true, ..calm };
    assert_eq!(node_status(2, &crash, true), "Offline");
    assert_eq!(node_status(1, &crash, true), "Degraded");
}

#[test]
fn xorshift_steps() {
    assert_eq!(xorshift32(1), 270369);
    assert_ne!(xorshift32(0xDEADBEEF), 0);
}

#[test]
fn request_paths_of_broken_utf8_are_read_lossily() {
    assert_eq!(request_path(b"GET /a\xffb HTTP/1.1\r\n"), "/a\u{FFFD}b");
}
