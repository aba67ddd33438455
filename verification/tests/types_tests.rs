use litep2p::request_response::{PeerContext, RequestContext};
use litep2p::store::{IdMap, IdSet, PeerMap};
use litep2p::types::{PeerId, ProtocolName};

#[test]
fn peer_id_multihash_round_trip() {
    let peer = PeerId::from_bytes([0xAB; 32]);
    let multihash = peer.to_multihash();
    assert_eq!(multihash.len(), 34);
    assert_eq!(&multihash[..2], &[0x12, 0x20]);
    let parsed = PeerId::from_multihash(&multihash).unwrap();
    assert!(parsed.same(&peer));
}

#[test]
fn peer_id_rejects_bad_multihash() {
    assert!(PeerId::from_multihash(&vec![0x12, 0x20]).is_err());
    let mut wrong_code = PeerId::from_bytes([1; 32]).to_multihash();
    wrong_code[0] = 0x11;
    assert!(PeerId::from_multihash(&wrong_code).is_err());
}

#[test]
fn peer_id_equality() {
    let a = PeerId::from_bytes([1; 32]);
    let b = PeerId::from_bytes([1; 32]);
    let mut raw = [1u8; 32];
    raw[31] = 2;
    let c = PeerId::from_bytes(raw);
    assert!(a.same(&b));
    assert!(!a.same(&c));
}

#[test]
fn from_static_str() {
    let name = ProtocolName::from_static_str("/kad/1");
    assert_eq!(name.as_str(), "/kad/1");
    let owned = ProtocolName::from_string(String::from("/notif/1"));
    assert_eq!(owned.as_str(), "/notif/1");
}

#[test]
fn id_map_operations() {
    let mut map: IdMap<u32> = IdMap::new();
    assert!(!map.contains_key(5));
    map.insert(5, 50);
    map.insert(6, 60);
    assert_eq!(map.len(), 2);
    assert_eq!(map.get(5), Some(&50));
    map.insert(5, 55);
    assert_eq!(map.len(), 2);
    assert_eq!(map.get(5), Some(&55));
    assert_eq!(map.remove(5), Some(55));
    assert_eq!(map.remove(5), None);
    assert_eq!(map.len(), 1);
}

#[test]
fn id_set_operations() {
    let mut set = IdSet::new();
    assert!(set.insert(1));
    assert!(set.insert(2));
    assert!(!set.insert(1));
    assert_eq!(set.len(), 2);
    assert!(set.contains(2));
    assert!(set.remove(2));
    assert!(!set.remove(2));
    assert_eq!(set.into_vec(), vec![1]);
}

#[test]
fn peer_map_operations() {
    let mut map: PeerMap<u8> = PeerMap::new();
    let a = PeerId::from_bytes([1; 32]);
    let b = PeerId::from_bytes([2; 32]);
    map.insert(a, 10);
    assert!(map.contains_key(&a));
    assert!(!map.contains_key(&b));
    map.insert(b, 20);
    assert_eq!(map.get(&b), Some(&20));
    assert_eq!(map.remove(&a), Some(10));
    assert_eq!(map.remove(&a), None);
    assert_eq!(map.len(), 1);
}

#[test]
fn context_constructors() {
    let peer = PeerId::from_bytes([4; 32]);
    let context = RequestContext::new(peer, 17, vec![1, 2]);
    assert!(context.peer.same(&peer));
    assert_eq!(context.request_id, 17);
    assert_eq!(context.request, vec![1, 2]);

    let peer_context = PeerContext::new();
    assert_eq!(peer_context.active.len(), 0);
    assert_eq!(peer_context.active_inbound.len(), 0);
}
