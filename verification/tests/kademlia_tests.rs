use litep2p::kademlia::{KademliaMessage, KademliaPeer, Record};
use litep2p::types::PeerId;

#[test]
fn find_node_bytes() {
    let bytes = KademliaMessage::find_node(vec![0x01, 0x02]);
    // type FIND_NODE, key [01 02], cluster level 10
    assert_eq!(bytes, vec![0x08, 0x04, 0x12, 0x02, 0x01, 0x02, 0x50, 0x0a]);
}

#[test]
fn get_record_bytes() {
    let bytes = KademliaMessage::get_record(vec![0x6b]);
    assert_eq!(bytes, vec![0x08, 0x01, 0x12, 0x01, 0x6b, 0x50, 0x0a]);
}

#[test]
fn put_value_bytes() {
    let bytes = KademliaMessage::put_value(Record::new(vec![0x6b], vec![0x76]));
    // the type field is the default and omitted; the key rides twice
    assert_eq!(
        bytes,
        vec![
            0x12, 0x01, 0x6b, // message key
            0x1a, 0x06, // record submessage, 6 bytes
            0x0a, 0x01, 0x6b, // record key
            0x12, 0x01, 0x76, // record value
            0x50, 0x0a, // cluster level
        ]
    );
}

#[test]
fn find_node_response_bytes() {
    let peer = KademliaPeer {
        peer: PeerId::from_bytes([7; 32]),
        addresses: vec![vec![0xAA, 0xBB]],
    };
    let bytes = KademliaMessage::find_node_response(vec![peer]);
    let mut expected = vec![0x08, 0x04, 0x42, 0x28, 0x0a, 0x22, 0x12, 0x20];
    expected.extend(std::iter::repeat(7u8).take(32));
    expected.extend([0x12, 0x02, 0xAA, 0xBB]);
    expected.extend([0x50, 0x0a]);
    assert_eq!(bytes, expected);
}

#[test]
fn put_value_round_trip() {
    let bytes = KademliaMessage::put_value(Record::new(vec![1, 2, 3], vec![4, 5]));
    match KademliaMessage::from_bytes(&bytes) {
        Some(KademliaMessage::PutValue { record }) => {
            assert_eq!(record.key, vec![1, 2, 3]);
            assert_eq!(record.value, vec![4, 5]);
        },
        _ => panic!("expected a PUT_VALUE message"),
    }
}

#[test]
fn find_node_response_round_trip() {
    let peer = KademliaPeer {
        peer: PeerId::from_bytes([9; 32]),
        addresses: vec![vec![1], vec![2, 3]],
    };
    let bytes = KademliaMessage::find_node_response(vec![peer]);
    match KademliaMessage::from_bytes(&bytes) {
        Some(KademliaMessage::FindNodeResponse { peers }) => {
            assert_eq!(peers.len(), 1);
            assert_eq!(peers[0].peer.as_bytes(), &[9; 32]);
            assert_eq!(peers[0].addresses, vec![vec![1], vec![2, 3]]);
        },
        _ => panic!("expected a FIND_NODE response"),
    }
}

#[test]
fn get_record_decodes_as_get_record_response() {
    let bytes = KademliaMessage::get_record(vec![0x6b]);
    match KademliaMessage::from_bytes(&bytes) {
        Some(KademliaMessage::GetRecordResponse { record, peers }) => {
            assert!(record.is_none());
            assert!(peers.is_empty());
        },
        _ => panic!("expected a GET_VALUE shape"),
    }
}

#[test]
fn unknown_fields_are_skipped() {
    // field 11 (varint 5) is unknown and skipped; type FIND_NODE follows
    let bytes = vec![0x58, 0x05, 0x08, 0x04];
    match KademliaMessage::from_bytes(&bytes) {
        Some(KademliaMessage::FindNodeResponse { peers }) => assert!(peers.is_empty()),
        _ => panic!("expected a FIND_NODE response"),
    }
}

#[test]
fn invalid_peer_ids_are_dropped() {
    // a closer peer whose id is not a multihash is silently dropped
    let bytes = vec![
        0x08, 0x04, // type FIND_NODE
        0x42, 0x03, 0x0a, 0x01, 0x00, // peer with 1-byte id
    ];
    match KademliaMessage::from_bytes(&bytes) {
        Some(KademliaMessage::FindNodeResponse { peers }) => assert!(peers.is_empty()),
        _ => panic!("expected a FIND_NODE response"),
    }
}

#[test]
fn malformed_and_unknown_messages_are_rejected() {
    // truncated varint
    assert!(KademliaMessage::from_bytes(&vec![0xFF]).is_none());
    // empty input defaults to PUT_VALUE, which demands a record
    assert!(KademliaMessage::from_bytes(&vec![]).is_none());
    // unhandled message type
    assert!(KademliaMessage::from_bytes(&vec![0x08, 0x05]).is_none());
    // length past the end of the input
    assert!(KademliaMessage::from_bytes(&vec![0x12, 0x05, 0x00]).is_none());
}

#[test]
fn is_response() {
    let response = KademliaMessage::FindNodeResponse { peers: Vec::new() };
    assert!(response.is_response());
    let response = KademliaMessage::GetRecordResponse { record: None, peers: Vec::new() };
    assert!(response.is_response());
    let request = KademliaMessage::FindNodeRequest { target: PeerId::from_bytes([1; 32]) };
    assert!(!request.is_response());
    let put = KademliaMessage::PutValue { record: Record::new(vec![], vec![]) };
    assert!(!put.is_response());
}

#[test]
fn large_payload_varint_length() {
    // a 200-byte key forces a two-byte varint length
    let key = vec![0xEE; 200];
    let bytes = KademliaMessage::find_node(key.clone());
    assert_eq!(bytes[0], 0x08);
    assert_eq!(bytes[1], 0x04);
    assert_eq!(bytes[2], 0x12);
    assert_eq!(bytes[3], 0xC8); // 200 = 0xC8 -> [0xC8, 0x01]
    assert_eq!(bytes[4], 0x01);
    assert_eq!(&bytes[5..205], &key[..]);
    assert_eq!(&bytes[205..], &[0x50, 0x0a]);
}
