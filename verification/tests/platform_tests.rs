use infra_core::platform::swim::{SwimMessageType, SwimPacket};

#[test]
fn test_packet_serialization() {
    let packet = SwimPacket {
        msg_type: SwimMessageType::Ping,
        seq_num: 1234,
    };
    let bytes = packet.serialize();
    let parsed = SwimPacket::deserialize(&bytes);
    assert!(parsed.is_some());
    let parsed = parsed.unwrap();
    assert_eq!(parsed.msg_type, SwimMessageType::Ping);
    assert_eq!(parsed.seq_num, 1234);

    let ack = SwimPacket {
        msg_type: SwimMessageType::Ack,
        seq_num: 5678,
    };
    let ack_bytes = ack.serialize();
    let parsed_ack = SwimPacket::deserialize(&ack_bytes);
    assert!(parsed_ack.is_some());
    let parsed_ack = parsed_ack.unwrap();
    assert_eq!(parsed_ack.msg_type, SwimMessageType::Ack);
    assert_eq!(parsed_ack.seq_num, 5678);
}
