//! Address model for the QUIC transport.
//!
//! A multiaddress is modelled as the sequence of its protocol components.
//! The transport accepts exactly the shape `(Ip4|Ip6, Udp(port), QuicV1)`,
//! optionally followed by a `P2p` component carrying the peer's multihash;
//! anything else is rejected. The surrounding code converts between this
//! model and its own multiaddress type at the boundary.

use vstd::prelude::*;
use crate::types::PeerId;

verus! {

/// One protocol component of a multiaddress.
pub enum AddressComponent {
    /// An IPv4 address, as its four octets.
    Ip4([u8; 4]),
    /// An IPv6 address, as its sixteen octets.
    Ip6([u8; 16]),
    /// A UDP port.
    Udp(u16),
    /// The QUIC (version 1) protocol marker.
    QuicV1,
    /// A peer identity, as the raw bytes of its multihash.
    P2p(Vec<u8>),
    /// Any other protocol component; the transport rejects these.
    Other,
}

/// An IP address of either family.
#[derive(Clone, Copy, Debug)]
pub enum IpAddress {
    /// Four IPv4 octets.
    V4([u8; 4]),
    /// Sixteen IPv6 octets.
    V6([u8; 16]),
}

/// An IP address together with a UDP port.
#[derive(Clone, Copy, Debug)]
pub struct SocketAddress {
    /// The IP address.
    pub ip: IpAddress,
    /// The UDP port.
    pub port: u16,
}

/// Why an address was rejected.
#[derive(Clone, Copy, Debug, PartialEq, Eq, Structural)]
pub enum AddressError {
    /// The component sequence deviates from `(Ip4|Ip6, Udp, QuicV1, P2p?)`.
    InvalidProtocol,
    /// A dial target carried no `P2p` suffix.
    PeerIdMissing,
}

/// The first three components are an IP address, a UDP port and the QUIC
/// marker.
pub open spec fn leading_quic_ok(s: Seq<AddressComponent>) -> bool {
    &&& s.len() >= 3
    &&& (s[0] is Ip4 || s[0] is Ip6)
    &&& s[1] is Udp
    &&& s[2] is QuicV1
}

/// The whole sequence is acceptable: the leading triple, and either
/// nothing after it or a `P2p` component carrying a valid peer multihash.
pub open spec fn quic_address_ok(s: Seq<AddressComponent>) -> bool {
    &&& leading_quic_ok(s)
    &&& (s.len() == 3 || (s[3] matches AddressComponent::P2p(mh)
        && PeerId::multihash_valid(mh@)))
}

/// The socket address named by an acceptable sequence.
pub open spec fn spec_socket_of(s: Seq<AddressComponent>) -> SocketAddress
    recommends
        leading_quic_ok(s),
{
    SocketAddress {
        ip: (match s[0] {
            AddressComponent::Ip4(octets) => IpAddress::V4(octets),
            AddressComponent::Ip6(octets) => IpAddress::V6(octets),
            _ => IpAddress::V4([0u8, 0u8, 0u8, 0u8]),
        }),
        port: (match s[1] {
            AddressComponent::Udp(port) => port,
            _ => 0,
        }),
    }
}

/// Extract the socket address and, if present, the peer id from a
/// multiaddress. Succeeds exactly on the shape
/// `(Ip4|Ip6, Udp(port), QuicV1, P2p(multihash)?)` — components after a
/// `P2p` suffix are ignored — and rejects any deviation with
/// `InvalidProtocol`.
pub fn get_socket_address(address: &Vec<AddressComponent>) -> (r: Result<
    (SocketAddress, Option<PeerId>),
    AddressError,
>)
    ensures
        r is Ok <==> quic_address_ok(address@),
        (match r {
            Ok((socket, maybe_peer)) => {
                &&& socket == spec_socket_of(address@)
                &&& (match maybe_peer {
                    None => address@.len() == 3,
                    Some(peer) => {
                        &&& address@.len() >= 4
                        &&& (address@[3] matches AddressComponent::P2p(mh) && peer@
                            == PeerId::multihash_digest(mh@))
                    },
                })
            },
            Err(e) => e == AddressError::InvalidProtocol,
        }),
{
    if address.len() < 3 {
        return Err(AddressError::InvalidProtocol);
    }
    let ip = match &address[0] {
        AddressComponent::Ip4(octets) => IpAddress::V4(*octets),
        AddressComponent::Ip6(octets) => IpAddress::V6(*octets),
        _ => {
            return Err(AddressError::InvalidProtocol);
        },
    };
    let port = match &address[1] {
        AddressComponent::Udp(port) => *port,
        _ => {
            return Err(AddressError::InvalidProtocol);
        },
    };
    match &address[2] {
        AddressComponent::QuicV1 => {},
        _ => {
            return Err(AddressError::InvalidProtocol);
        },
    }
    let socket = SocketAddress { ip, port };
    if address.len() == 3 {
        return Ok((socket, None));
    }
    match &address[3] {
        AddressComponent::P2p(multihash) => match PeerId::from_multihash(multihash) {
            Ok(peer) => Ok((socket, Some(peer))),
            Err(_) => Err(AddressError::InvalidProtocol),
        },
        _ => Err(AddressError::InvalidProtocol),
    }
}

/// Resolve a dial target: like [`get_socket_address`], but a dial needs
/// the peer identity, so an acceptable address without a `P2p` suffix is
/// rejected with `PeerIdMissing`.
pub fn dial_target(address: &Vec<AddressComponent>) -> (r: Result<
    (SocketAddress, PeerId),
    AddressError,
>)
    ensures
        r is Ok <==> (quic_address_ok(address@) && address@.len() >= 4),
        (match r {
            Ok((socket, peer)) => {
                &&& socket == spec_socket_of(address@)
                &&& (address@[3] matches AddressComponent::P2p(mh) && peer@
                    == PeerId::multihash_digest(mh@))
            },
            Err(e) => {
                &&& (e == AddressError::PeerIdMissing <==> quic_address_ok(address@))
                &&& (e == AddressError::InvalidProtocol <==> !quic_address_ok(address@))
            },
        }),
{
    match get_socket_address(address) {
        Ok((socket, Some(peer))) => Ok((socket, peer)),
        Ok((_, None)) => Err(AddressError::PeerIdMissing),
        Err(e) => Err(e),
    }
}

/// The multiaddress the transport advertises for a socket it listens on:
/// the address, the port, and the QUIC marker.
pub fn listen_address_components(socket: &SocketAddress) -> (r: Vec<AddressComponent>)
    ensures
        r@.len() == 3,
        (r@[0] == (match socket.ip {
            IpAddress::V4(octets) => AddressComponent::Ip4(octets),
            IpAddress::V6(octets) => AddressComponent::Ip6(octets),
        })),
        r@[1] == AddressComponent::Udp(socket.port),
        r@[2] == AddressComponent::QuicV1,
        quic_address_ok(r@),
        spec_socket_of(r@) == *socket,
{
    let mut components: Vec<AddressComponent> = Vec::new();
    match socket.ip {
        IpAddress::V4(octets) => components.push(AddressComponent::Ip4(octets)),
        IpAddress::V6(octets) => components.push(AddressComponent::Ip6(octets)),
    }
    components.push(AddressComponent::Udp(socket.port));
    components.push(AddressComponent::QuicV1);
    components
}

} // verus!
