use litep2p::address::{
    dial_target, get_socket_address, listen_address_components, AddressComponent, AddressError,
    IpAddress, SocketAddress,
};
use litep2p::types::PeerId;

fn multihash_of(tag: u8) -> Vec<u8> {
    PeerId::from_bytes([tag; 32]).to_multihash()
}

#[test]
fn accepts_ip4_quic() {
    let address = vec![
        AddressComponent::Ip4([127, 0, 0, 1]),
        AddressComponent::Udp(4001),
        AddressComponent::QuicV1,
    ];
    let (socket, maybe_peer) = get_socket_address(&address).unwrap();
    match socket.ip {
        IpAddress::V4(octets) => assert_eq!(octets, [127, 0, 0, 1]),
        _ => panic!("expected an IPv4 address"),
    }
    assert_eq!(socket.port, 4001);
    assert!(maybe_peer.is_none());
}

#[test]
fn accepts_ip6_quic_with_peer() {
    let address = vec![
        AddressComponent::Ip6([0; 16]),
        AddressComponent::Udp(9000),
        AddressComponent::QuicV1,
        AddressComponent::P2p(multihash_of(3)),
    ];
    let (socket, maybe_peer) = get_socket_address(&address).unwrap();
    assert_eq!(socket.port, 9000);
    assert_eq!(maybe_peer.unwrap().as_bytes(), &[3; 32]);
}

#[test]
fn rejects_wrong_shapes() {
    // too short
    let address = vec![AddressComponent::Ip4([1, 2, 3, 4]), AddressComponent::Udp(1)];
    assert_eq!(get_socket_address(&address).unwrap_err(), AddressError::InvalidProtocol);
    // udp and quic swapped
    let address = vec![
        AddressComponent::Ip4([1, 2, 3, 4]),
        AddressComponent::QuicV1,
        AddressComponent::Udp(1),
    ];
    assert_eq!(get_socket_address(&address).unwrap_err(), AddressError::InvalidProtocol);
    // no leading ip
    let address = vec![
        AddressComponent::Udp(1),
        AddressComponent::Udp(2),
        AddressComponent::QuicV1,
    ];
    assert_eq!(get_socket_address(&address).unwrap_err(), AddressError::InvalidProtocol);
    // a fourth component that is not a peer id
    let address = vec![
        AddressComponent::Ip4([1, 2, 3, 4]),
        AddressComponent::Udp(1),
        AddressComponent::QuicV1,
        AddressComponent::Other,
    ];
    assert_eq!(get_socket_address(&address).unwrap_err(), AddressError::InvalidProtocol);
    // a malformed multihash
    let address = vec![
        AddressComponent::Ip4([1, 2, 3, 4]),
        AddressComponent::Udp(1),
        AddressComponent::QuicV1,
        AddressComponent::P2p(vec![1, 2, 3]),
    ];
    assert_eq!(get_socket_address(&address).unwrap_err(), AddressError::InvalidProtocol);
}

#[test]
fn dial_target_needs_a_peer() {
    let address = vec![
        AddressComponent::Ip4([10, 0, 0, 1]),
        AddressComponent::Udp(7),
        AddressComponent::QuicV1,
    ];
    assert_eq!(dial_target(&address).unwrap_err(), AddressError::PeerIdMissing);

    let mut with_peer = address;
    with_peer.push(AddressComponent::P2p(multihash_of(9)));
    let (socket, peer) = dial_target(&with_peer).unwrap();
    assert_eq!(socket.port, 7);
    assert_eq!(peer.as_bytes(), &[9; 32]);

    let bad = vec![AddressComponent::Other];
    assert_eq!(dial_target(&bad).unwrap_err(), AddressError::InvalidProtocol);
}

#[test]
fn listen_address_round_trip() {
    let socket = SocketAddress { ip: IpAddress::V6([1; 16]), port: 4242 };
    let components = listen_address_components(&socket);
    assert_eq!(components.len(), 3);
    let (parsed, maybe_peer) = get_socket_address(&components).unwrap();
    assert!(maybe_peer.is_none());
    assert_eq!(parsed.port, 4242);
    match parsed.ip {
        IpAddress::V6(octets) => assert_eq!(octets, [1; 16]),
        _ => panic!("expected an IPv6 address"),
    }
}
