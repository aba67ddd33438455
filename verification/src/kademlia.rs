//! Kademlia message taxonomy and wire framing.
//!
//! The messages exchanged by the Kademlia protocol are a small protobuf
//! schema: a `Message` with a type tag, a key, an optional record, repeated
//! peers, and a fixed cluster level. The wire format of exactly these
//! messages is written out here as functions on bytes, with the byte
//! sequences themselves as the specification.

use vstd::prelude::*;
use crate::types::PeerId;

verus! {

/// Cluster level carried by every message.
pub const CLUSTER_LEVEL_RAW: u64 = 10;

/// Message type tag for `PUT_VALUE`.
pub const MESSAGE_TYPE_PUT_VALUE: u64 = 0;

/// Message type tag for `GET_VALUE`.
pub const MESSAGE_TYPE_GET_VALUE: u64 = 1;

/// Message type tag for `FIND_NODE`.
pub const MESSAGE_TYPE_FIND_NODE: u64 = 4;

/// A key/value record.
pub struct Record {
    /// The record key.
    pub key: Vec<u8>,
    /// The record value.
    pub value: Vec<u8>,
}

impl Record {
    /// Create a new [`Record`].
    pub fn new(key: Vec<u8>, value: Vec<u8>) -> (r: Self)
        ensures
            r.key == key,
            r.value == value,
    {
        Record { key, value }
    }
}

/// A peer a Kademlia response names: its identity and the multiaddresses
/// it was seen under, each as raw bytes.
pub struct KademliaPeer {
    /// The peer's identity.
    pub peer: PeerId,
    /// The peer's addresses, each as the raw bytes of a multiaddress.
    pub addresses: Vec<Vec<u8>>,
}

impl View for KademliaPeer {
    type V = (Seq<u8>, Seq<Seq<u8>>);

    open spec fn view(&self) -> (Seq<u8>, Seq<Seq<u8>>) {
        (self.peer@, self.addresses.deep_view())
    }
}

/// The views of a sequence of peers.
pub open spec fn peers_view(peers: Seq<KademliaPeer>) -> Seq<(Seq<u8>, Seq<Seq<u8>>)> {
    peers.map(|i: int, p: KademliaPeer| p@)
}

/// A Kademlia message.
#[allow(inconsistent_fields)]
pub enum KademliaMessage {
    /// Inbound `FIND_NODE` query.
    FindNodeRequest {
        /// Peer id of the target node.
        target: PeerId,
    },
    /// Response to an outbound `FIND_NODE` query.
    FindNodeResponse {
        /// Found peers.
        peers: Vec<KademliaPeer>,
    },
    /// `PUT_VALUE` message.
    PutValue {
        /// The record to store.
        record: Record,
    },
    /// Response to an outbound `GET_VALUE` query.
    GetRecordResponse {
        /// Found record, if any.
        record: Option<Record>,
        /// Peers closest to the key.
        peers: Vec<KademliaPeer>,
    },
}

impl KademliaMessage {
    /// Whether the message is a response.
    pub open spec fn spec_is_response(&self) -> bool {
        match self {
            KademliaMessage::FindNodeResponse { .. } => true,
            KademliaMessage::GetRecordResponse { .. } => true,
            _ => false,
        }
    }

    /// Check if the message is a response.
    pub fn is_response(&self) -> (r: bool)
        ensures
            r == self.spec_is_response(),
    {
        match self {
            KademliaMessage::FindNodeResponse { .. } => true,
            KademliaMessage::GetRecordResponse { .. } => true,
            _ => false,
        }
    }
}

/// The base-128 varint encoding of `n`, least significant group first.
pub open spec fn spec_varint(n: u64) -> Seq<u8>
    decreases n,
{
    if n < 0x80 {
        seq![n as u8]
    } else {
        seq![((n % 0x80) + 0x80) as u8] + spec_varint(n / 0x80)
    }
}

/// A length-delimited protobuf field: its tag byte, the length of the
/// payload as a varint, then the payload.
pub open spec fn spec_len_delim(tag: u8, data: Seq<u8>) -> Seq<u8> {
    seq![tag] + spec_varint(data.len() as u64) + data
}

/// The encoding of the fixed cluster-level field (field 10, varint 10).
pub open spec fn spec_cluster_level() -> Seq<u8> {
    seq![0x50u8] + spec_varint(CLUSTER_LEVEL_RAW)
}

/// The encoding of the message-type field (field 1) for a non-default tag.
pub open spec fn spec_type_field(msg_type: u64) -> Seq<u8> {
    seq![0x08u8] + spec_varint(msg_type)
}

/// The encoding of a `FIND_NODE` message for `key`: type `FIND_NODE`, the
/// key, and the cluster level, in field order.
pub open spec fn spec_find_node(key: Seq<u8>) -> Seq<u8> {
    spec_type_field(MESSAGE_TYPE_FIND_NODE) + spec_len_delim(0x12, key) + spec_cluster_level()
}

/// The encoding of a record submessage: its key (field 1) and value
/// (field 2), each omitted when empty, as protobuf omits default fields.
pub open spec fn spec_record(key: Seq<u8>, value: Seq<u8>) -> Seq<u8> {
    (if key.len() == 0 {
        Seq::empty()
    } else {
        spec_len_delim(0x0a, key)
    }) + (if value.len() == 0 {
        Seq::empty()
    } else {
        spec_len_delim(0x12, value)
    })
}

/// The encoding of a `PUT_VALUE` message for a record: the type field is
/// the protobuf default and omitted; the record's key rides once more as
/// the message key (field 2), then the record (field 3), then the cluster
/// level.
pub open spec fn spec_put_value(key: Seq<u8>, value: Seq<u8>) -> Seq<u8> {
    spec_len_delim(0x12, key) + spec_len_delim(0x1a, spec_record(key, value))
        + spec_cluster_level()
}

/// The encoding of a `GET_VALUE` message for `key`: type `GET_VALUE`, the
/// key, and the cluster level.
pub open spec fn spec_get_record(key: Seq<u8>) -> Seq<u8> {
    spec_type_field(MESSAGE_TYPE_GET_VALUE) + spec_len_delim(0x12, key) + spec_cluster_level()
}

/// The encoding of one peer submessage: the peer's multihash (field 1)
/// and each address (field 2); the connection type stays at its default
/// and is omitted.
pub open spec fn spec_peer(id: Seq<u8>, addresses: Seq<Seq<u8>>) -> Seq<u8> {
    spec_len_delim(0x0a, seq![0x12u8, 0x20u8] + id) + spec_addresses(addresses)
}

/// The encoding of a peer's address list, one field 2 entry per address.
pub open spec fn spec_addresses(addresses: Seq<Seq<u8>>) -> Seq<u8>
    decreases addresses.len(),
{
    if addresses.len() == 0 {
        Seq::empty()
    } else {
        spec_addresses(addresses.drop_last()) + spec_len_delim(0x12, addresses.last())
    }
}

/// The encoding of a `closer_peers` list, one field 8 entry per peer.
pub open spec fn spec_closer_peers(peers: Seq<(Seq<u8>, Seq<Seq<u8>>)>) -> Seq<u8>
    decreases peers.len(),
{
    if peers.len() == 0 {
        Seq::empty()
    } else {
        spec_closer_peers(peers.drop_last()) + spec_len_delim(
            0x42,
            spec_peer(peers.last().0, peers.last().1),
        )
    }
}

/// The encoding of a `FIND_NODE` response: type `FIND_NODE`, the found
/// peers, and the cluster level, in field order.
pub open spec fn spec_find_node_response(peers: Seq<(Seq<u8>, Seq<Seq<u8>>)>) -> Seq<u8> {
    spec_type_field(MESSAGE_TYPE_FIND_NODE) + spec_closer_peers(peers) + spec_cluster_level()
}

/// Append the varint encoding of `n` to `out`.
pub fn encode_varint(n: u64, out: &mut Vec<u8>)
    ensures
        final(out)@ == old(out)@ + spec_varint(n),
{
    let mut remaining = n;
    while remaining >= 0x80
        invariant
            old(out)@ + spec_varint(n) == out@ + spec_varint(remaining),
        decreases remaining,
    {
        let ghost before = out@;
        out.push(((remaining % 0x80) + 0x80) as u8);
        proof {
            assert(spec_varint(remaining) == seq![((remaining % 0x80) + 0x80) as u8]
                + spec_varint(remaining / 0x80));
            assert(before + spec_varint(remaining) =~= out@ + spec_varint(remaining / 0x80));
        }
        remaining = remaining / 0x80;
    }
    let ghost before = out@;
    out.push(remaining as u8);
    proof {
        assert(spec_varint(remaining) == seq![remaining as u8]);
        assert(before + spec_varint(remaining) =~= out@);
    }
}

/// Append a length-delimited field to `out`.
fn encode_len_delim(tag: u8, data: &Vec<u8>, out: &mut Vec<u8>)
    ensures
        final(out)@ == old(out)@ + spec_len_delim(tag, data@),
{
    let ghost before = out@;
    out.push(tag);
    encode_varint(data.len() as u64, out);
    let ghost mid = out@;
    out.extend_from_slice(data.as_slice());
    proof {
        assert(out@ =~= before + spec_len_delim(tag, data@));
    }
}

/// Append the cluster-level field to `out`.
fn encode_cluster_level(out: &mut Vec<u8>)
    ensures
        final(out)@ == old(out)@ + spec_cluster_level(),
{
    let ghost before = out@;
    out.push(0x50);
    out.push(0x0a);
    proof {
        assert(out@ =~= before + spec_cluster_level());
    }
}

impl KademliaMessage {
    /// Create a `FIND_NODE` message for `key`.
    pub fn find_node(key: Vec<u8>) -> (r: Vec<u8>)
        ensures
            r@ == spec_find_node(key@),
    {
        let mut out: Vec<u8> = Vec::new();
        out.push(0x08);
        out.push(0x04);
        proof {
            assert(out@ =~= spec_type_field(MESSAGE_TYPE_FIND_NODE));
        }
        encode_len_delim(0x12, &key, &mut out);
        encode_cluster_level(&mut out);
        proof {
            assert(out@ =~= spec_find_node(key@));
        }
        out
    }

    /// Create a `PUT_VALUE` message for `record`.
    pub fn put_value(record: Record) -> (r: Vec<u8>)
        ensures
            r@ == spec_put_value(record.key@, record.value@),
    {
        let mut body: Vec<u8> = Vec::new();
        if record.key.len() > 0 {
            encode_len_delim(0x0a, &record.key, &mut body);
        }
        if record.value.len() > 0 {
            encode_len_delim(0x12, &record.value, &mut body);
        }
        proof {
            assert(body@ =~= spec_record(record.key@, record.value@));
        }
        let mut out: Vec<u8> = Vec::new();
        encode_len_delim(0x12, &record.key, &mut out);
        encode_len_delim(0x1a, &body, &mut out);
        encode_cluster_level(&mut out);
        proof {
            assert(out@ =~= spec_put_value(record.key@, record.value@));
        }
        out
    }

    /// Create a `GET_VALUE` message for `key`.
    pub fn get_record(key: Vec<u8>) -> (r: Vec<u8>)
        ensures
            r@ == spec_get_record(key@),
    {
        let mut out: Vec<u8> = Vec::new();
        out.push(0x08);
        out.push(0x01);
        proof {
            assert(out@ =~= spec_type_field(MESSAGE_TYPE_GET_VALUE));
        }
        encode_len_delim(0x12, &key, &mut out);
        encode_cluster_level(&mut out);
        proof {
            assert(out@ =~= spec_get_record(key@));
        }
        out
    }

    /// Create a `FIND_NODE` response naming `peers`.
    pub fn find_node_response(peers: Vec<KademliaPeer>) -> (r: Vec<u8>)
        ensures
            r@ == spec_find_node_response(peers_view(peers@)),
    {
        let mut out: Vec<u8> = Vec::new();
        out.push(0x08);
        out.push(0x04);
        proof {
            assert(out@ =~= spec_type_field(MESSAGE_TYPE_FIND_NODE));
        }
        let n = peers.len();
        let mut i: usize = 0;
        while i < n
            invariant
                i <= n,
                n == peers@.len(),
                out@ == spec_type_field(MESSAGE_TYPE_FIND_NODE) + spec_closer_peers(
                    peers_view(peers@.take(i as int)),
                ),
            decreases n - i,
        {
            let ghost before = out@;
            let peer_bytes = encode_peer(&peers[i]);
            encode_len_delim(0x42, &peer_bytes, &mut out);
            proof {
                let taken = peers_view(peers@.take(i + 1));
                assert(taken.drop_last() =~= peers_view(peers@.take(i as int)));
                assert(taken.last() == peers@[i as int]@);
                assert(out@ =~= spec_type_field(MESSAGE_TYPE_FIND_NODE) + spec_closer_peers(
                    taken,
                ));
            }
            i += 1;
        }
        encode_cluster_level(&mut out);
        proof {
            assert(peers@.take(n as int) =~= peers@);
            assert(out@ =~= spec_find_node_response(peers_view(peers@)));
        }
        out
    }
}

/// Parse a varint at position `i`: the value and the position after it.
/// Rejects truncated input and values beyond the `u64` range.
pub open spec fn sp_varint(s: Seq<u8>, i: int) -> Option<(u64, int)>
    decreases s.len() - i,
{
    if i < 0 || i >= s.len() {
        None
    } else {
        let b = s[i];
        if b < 0x80 {
            Some((b as u64, i + 1))
        } else {
            match sp_varint(s, i + 1) {
                None => None,
                Some((v, j)) => {
                    if v >= 0x0200000000000000 {
                        None
                    } else {
                        Some((((b - 0x80) + 0x80 * v) as u64, j))
                    }
                },
            }
        }
    }
}

/// A parsed varint ends after where it began and within the input.
pub proof fn lemma_sp_varint_bounds(s: Seq<u8>, i: int)
    ensures
        sp_varint(s, i) matches Some(p) ==> i < p.1 <= s.len(),
    decreases s.len() - i,
{
    if 0 <= i < s.len() && s[i] >= 0x80 {
        lemma_sp_varint_bounds(s, i + 1);
    }
}

/// The raw contents of a message, before the type tag picks its shape.
pub struct RawMessage {
    /// The message type (field 1); protobuf default 0 when absent.
    pub msg_type: u64,
    /// The message key (field 2); empty when absent.
    pub key: Seq<u8>,
    /// The record (field 3), as its key and value, if present.
    pub record: Option<(Seq<u8>, Seq<u8>)>,
    /// The closer peers (field 8) whose identities parsed: each as its
    /// 32-byte id and its raw addresses.
    pub peers: Seq<(Seq<u8>, Seq<Seq<u8>>)>,
}

/// Scan the fields of a record submessage from position `i`: key is
/// field 1, value field 2, unknown fields are skipped by wire type, and
/// a later occurrence of a field wins.
pub open spec fn sp_record_fields(s: Seq<u8>, i: int, key: Seq<u8>, value: Seq<u8>) -> Option<
    (Seq<u8>, Seq<u8>),
>
    decreases s.len() - i,
    via sp_record_fields_decreases
{
    if i == s.len() {
        Some((key, value))
    } else {
        match sp_varint(s, i) {
            None => None,
            Some((tag, j)) => {
                let wire = tag % 8;
                let field = tag / 8;
                if wire == 0 {
                    match sp_varint(s, j) {
                        None => None,
                        Some((_, k)) => sp_record_fields(s, k, key, value),
                    }
                } else if wire == 2 {
                    match sp_varint(s, j) {
                        None => None,
                        Some((l, k)) => {
                            if k + l > s.len() {
                                None
                            } else {
                                let data = s.subrange(k, k + l);
                                if field == 1 {
                                    sp_record_fields(s, k + l, data, value)
                                } else if field == 2 {
                                    sp_record_fields(s, k + l, key, data)
                                } else {
                                    sp_record_fields(s, k + l, key, value)
                                }
                            }
                        },
                    }
                } else if wire == 1 {
                    if j + 8 <= s.len() {
                        sp_record_fields(s, j + 8, key, value)
                    } else {
                        None
                    }
                } else if wire == 5 {
                    if j + 4 <= s.len() {
                        sp_record_fields(s, j + 4, key, value)
                    } else {
                        None
                    }
                } else {
                    None
                }
            },
        }
    }
}

#[via_fn]
proof fn sp_record_fields_decreases(s: Seq<u8>, i: int, key: Seq<u8>, value: Seq<u8>) {
    lemma_sp_varint_bounds(s, i);
    match sp_varint(s, i) {
        Some((tag, j)) => lemma_sp_varint_bounds(s, j),
        None => (),
    }
}

/// Scan the fields of a peer submessage from position `i`: the identity
/// multihash is field 1, each address field 2; the connection type
/// (field 3, varint) and unknown fields are skipped.
pub open spec fn sp_peer_fields(s: Seq<u8>, i: int, id: Seq<u8>, addrs: Seq<Seq<u8>>) -> Option<
    (Seq<u8>, Seq<Seq<u8>>),
>
    decreases s.len() - i,
    via sp_peer_fields_decreases
{
    if i == s.len() {
        Some((id, addrs))
    } else {
        match sp_varint(s, i) {
            None => None,
            Some((tag, j)) => {
                let wire = tag % 8;
                let field = tag / 8;
                if wire == 0 {
                    match sp_varint(s, j) {
                        None => None,
                        Some((_, k)) => sp_peer_fields(s, k, id, addrs),
                    }
                } else if wire == 2 {
                    match sp_varint(s, j) {
                        None => None,
                        Some((l, k)) => {
                            if k + l > s.len() {
                                None
                            } else {
                                let data = s.subrange(k, k + l);
                                if field == 1 {
                                    sp_peer_fields(s, k + l, data, addrs)
                                } else if field == 2 {
                                    sp_peer_fields(s, k + l, id, addrs.push(data))
                                } else {
                                    sp_peer_fields(s, k + l, id, addrs)
                                }
                            }
                        },
                    }
                } else if wire == 1 {
                    if j + 8 <= s.len() {
                        sp_peer_fields(s, j + 8, id, addrs)
                    } else {
                        None
                    }
                } else if wire == 5 {
                    if j + 4 <= s.len() {
                        sp_peer_fields(s, j + 4, id, addrs)
                    } else {
                        None
                    }
                } else {
                    None
                }
            },
        }
    }
}

#[via_fn]
proof fn sp_peer_fields_decreases(s: Seq<u8>, i: int, id: Seq<u8>, addrs: Seq<Seq<u8>>) {
    lemma_sp_varint_bounds(s, i);
    match sp_varint(s, i) {
        Some((tag, j)) => lemma_sp_varint_bounds(s, j),
        None => (),
    }
}

/// Scan the fields of a message from position `i`. The type is field 1,
/// the key field 2, the record field 3, the closer peers field 8; the
/// provider peers (field 9) must parse but are dropped, as are the
/// cluster level (field 10) and unknown fields. A closer peer whose
/// identity is not a valid multihash is dropped silently.
pub open spec fn sp_message_fields(s: Seq<u8>, i: int, acc: RawMessage) -> Option<RawMessage>
    decreases s.len() - i,
    via sp_message_fields_decreases
{
    if i == s.len() {
        Some(acc)
    } else {
        match sp_varint(s, i) {
            None => None,
            Some((tag, j)) => {
                let wire = tag % 8;
                let field = tag / 8;
                if field == 2 || field == 3 || field == 8 || field == 9 {
                    if wire != 2 {
                        None
                    } else {
                        match sp_varint(s, j) {
                            None => None,
                            Some((l, k)) => {
                                if k + l > s.len() {
                                    None
                                } else {
                                    let data = s.subrange(k, k + l);
                                    if field == 2 {
                                        sp_message_fields(
                                            s,
                                            k + l,
                                            RawMessage { key: data, ..acc },
                                        )
                                    } else if field == 3 {
                                        match sp_record_fields(
                                            data,
                                            0,
                                            Seq::empty(),
                                            Seq::empty(),
                                        ) {
                                            None => None,
                                            Some(record) => sp_message_fields(
                                                s,
                                                k + l,
                                                RawMessage { record: Some(record), ..acc },
                                            ),
                                        }
                                    } else {
                                        match sp_peer_fields(data, 0, Seq::empty(), Seq::empty()) {
                                            None => None,
                                            Some((id, addrs)) => {
                                                if field == 8 && PeerId::multihash_valid(id) {
                                                    sp_message_fields(
                                                        s,
                                                        k + l,
                                                        RawMessage {
                                                            peers: acc.peers.push(
                                                                (PeerId::multihash_digest(id), addrs),
                                                            ),
                                                            ..acc
                                                        },
                                                    )
                                                } else {
                                                    sp_message_fields(s, k + l, acc)
                                                }
                                            },
                                        }
                                    }
                                }
                            },
                        }
                    }
                } else if field == 1 {
                    if wire != 0 {
                        None
                    } else {
                        match sp_varint(s, j) {
                            None => None,
                            Some((v, k)) => sp_message_fields(
                                s,
                                k,
                                RawMessage { msg_type: v, ..acc },
                            ),
                        }
                    }
                } else if wire == 0 {
                    match sp_varint(s, j) {
                        None => None,
                        Some((_, k)) => sp_message_fields(s, k, acc),
                    }
                } else if wire == 2 {
                    match sp_varint(s, j) {
                        None => None,
                        Some((l, k)) => {
                            if k + l > s.len() {
                                None
                            } else {
                                sp_message_fields(s, k + l, acc)
                            }
                        },
                    }
                } else if wire == 1 {
                    if j + 8 <= s.len() {
                        sp_message_fields(s, j + 8, acc)
                    } else {
                        None
                    }
                } else if wire == 5 {
                    if j + 4 <= s.len() {
                        sp_message_fields(s, j + 4, acc)
                    } else {
                        None
                    }
                } else {
                    None
                }
            },
        }
    }
}

#[via_fn]
proof fn sp_message_fields_decreases(s: Seq<u8>, i: int, acc: RawMessage) {
    lemma_sp_varint_bounds(s, i);
    match sp_varint(s, i) {
        Some((tag, j)) => lemma_sp_varint_bounds(s, j),
        None => (),
    }
}

/// The raw contents of a byte string: the whole-message field scan
/// starting from an empty accumulator.
pub open spec fn sp_message(s: Seq<u8>) -> Option<RawMessage> {
    sp_message_fields(
        s,
        0,
        RawMessage { msg_type: 0, key: Seq::empty(), record: None, peers: Seq::empty() },
    )
}

/// Decode a varint at position `i`; see [`sp_varint`].
fn decode_varint(s: &Vec<u8>, i: usize) -> (r: Option<(u64, usize)>)
    ensures
        r is None <==> sp_varint(s@, i as int) is None,
        (r matches Some((v, j)) ==> sp_varint(s@, i as int) == Some((v, j as int)) && i < j
            <= s@.len()),
    decreases s@.len() - i,
{
    if i >= s.len() {
        return None;
    }
    let b = s[i];
    if b < 0x80 {
        Some((b as u64, i + 1))
    } else {
        match decode_varint(s, i + 1) {
            None => None,
            Some((v, j)) => {
                if v >= 0x0200000000000000 {
                    None
                } else {
                    Some((((b - 0x80) as u64) + 0x80 * v, j))
                }
            },
        }
    }
}

/// Copy the bytes of `s` from `a` up to `b` into a fresh vector.
fn copy_range(s: &Vec<u8>, a: usize, b: usize) -> (r: Vec<u8>)
    requires
        a <= b <= s@.len(),
    ensures
        r@ == s@.subrange(a as int, b as int),
{
    let mut out: Vec<u8> = Vec::new();
    let mut i = a;
    while i < b
        invariant
            a <= i <= b <= s@.len(),
            out@ == s@.subrange(a as int, i as int),
        decreases b - i,
    {
        out.push(s[i]);
        proof {
            assert(out@ =~= s@.subrange(a as int, i + 1));
        }
        i += 1;
    }
    out
}

/// Decode the fields of a record submessage; see [`sp_record_fields`].
fn decode_record_fields(s: &Vec<u8>, i: usize, key: Vec<u8>, value: Vec<u8>) -> (r: Option<
    (Vec<u8>, Vec<u8>),
>)
    ensures
        r is None <==> sp_record_fields(s@, i as int, key@, value@) is None,
        (r matches Some((k, v)) ==> sp_record_fields(s@, i as int, key@, value@) == Some(
            (k@, v@),
        )),
    decreases s@.len() - i,
{
    if i == s.len() {
        return Some((key, value));
    }
    match decode_varint(s, i) {
        None => None,
        Some((tag, j)) => {
            let wire = tag % 8;
            let field = tag / 8;
            if wire == 0 {
                match decode_varint(s, j) {
                    None => None,
                    Some((_, k)) => decode_record_fields(s, k, key, value),
                }
            } else if wire == 2 {
                match decode_varint(s, j) {
                    None => None,
                    Some((l, k)) => {
                        if l > (s.len() - k) as u64 {
                            None
                        } else {
                            let end = k + (l as usize);
                            let data = copy_range(s, k, end);
                            if field == 1 {
                                decode_record_fields(s, end, data, value)
                            } else if field == 2 {
                                decode_record_fields(s, end, key, data)
                            } else {
                                decode_record_fields(s, end, key, value)
                            }
                        }
                    },
                }
            } else if wire == 1 {
                if s.len() >= 8 && j <= s.len() - 8 {
                    decode_record_fields(s, j + 8, key, value)
                } else {
                    None
                }
            } else if wire == 5 {
                if s.len() >= 4 && j <= s.len() - 4 {
                    decode_record_fields(s, j + 4, key, value)
                } else {
                    None
                }
            } else {
                None
            }
        },
    }
}

/// Decode the fields of a peer submessage; see [`sp_peer_fields`].
fn decode_peer_fields(s: &Vec<u8>, i: usize, id: Vec<u8>, addrs: Vec<Vec<u8>>) -> (r: Option<
    (Vec<u8>, Vec<Vec<u8>>),
>)
    ensures
        r is None <==> sp_peer_fields(s@, i as int, id@, addrs.deep_view()) is None,
        (r matches Some((rid, raddrs)) ==> sp_peer_fields(s@, i as int, id@, addrs.deep_view())
            == Some((rid@, raddrs.deep_view()))),
    decreases s@.len() - i,
{
    if i == s.len() {
        return Some((id, addrs));
    }
    match decode_varint(s, i) {
        None => None,
        Some((tag, j)) => {
            let wire = tag % 8;
            let field = tag / 8;
            if wire == 0 {
                match decode_varint(s, j) {
                    None => None,
                    Some((_, k)) => decode_peer_fields(s, k, id, addrs),
                }
            } else if wire == 2 {
                match decode_varint(s, j) {
                    None => None,
                    Some((l, k)) => {
                        if l > (s.len() - k) as u64 {
                            None
                        } else {
                            let end = k + (l as usize);
                            let data = copy_range(s, k, end);
                            if field == 1 {
                                decode_peer_fields(s, end, data, addrs)
                            } else if field == 2 {
                                let ghost before = addrs.deep_view();
                                let ghost gdata = data@;
                                let mut addrs = addrs;
                                addrs.push(data);
                                proof {
                                    assert(addrs.deep_view() =~~= before.push(gdata));
                                }
                                decode_peer_fields(s, end, id, addrs)
                            } else {
                                decode_peer_fields(s, end, id, addrs)
                            }
                        }
                    },
                }
            } else if wire == 1 {
                if s.len() >= 8 && j <= s.len() - 8 {
                    decode_peer_fields(s, j + 8, id, addrs)
                } else {
                    None
                }
            } else if wire == 5 {
                if s.len() >= 4 && j <= s.len() - 4 {
                    decode_peer_fields(s, j + 4, id, addrs)
                } else {
                    None
                }
            } else {
                None
            }
        },
    }
}

/// The decoded raw contents of a message, before its type picks the shape.
struct Decoded {
    /// The message type (field 1), defaulting to 0.
    msg_type: u64,
    /// The message key (field 2), defaulting to empty.
    key: Vec<u8>,
    /// The record (field 3), if present.
    record: Option<Record>,
    /// The closer peers (field 8) whose identities parsed.
    peers: Vec<KademliaPeer>,
}

/// The raw-message view of a decoded accumulator.
spec fn decoded_view(d: Decoded) -> RawMessage {
    RawMessage {
        msg_type: d.msg_type,
        key: d.key@,
        record: (match d.record {
            None => None,
            Some(record) => Some((record.key@, record.value@)),
        }),
        peers: peers_view(d.peers@),
    }
}

/// Decode the fields of a message; see [`sp_message_fields`].
#[verifier::rlimit(60)]
fn decode_message_fields(s: &Vec<u8>, i: usize, acc: Decoded) -> (r: Option<Decoded>)
    ensures
        r is None <==> sp_message_fields(s@, i as int, decoded_view(acc)) is None,
        (r matches Some(d) ==> sp_message_fields(s@, i as int, decoded_view(acc)) == Some(
            decoded_view(d),
        )),
    decreases s@.len() - i,
{
    let ghost gacc = decoded_view(acc);
    if i == s.len() {
        return Some(acc);
    }
    match decode_varint(s, i) {
        None => None,
        Some((tag, j)) => {
            let wire = tag % 8;
            let field = tag / 8;
            if field == 2 || field == 3 || field == 8 || field == 9 {
                if wire != 2 {
                    proof {
                        assert(sp_message_fields(s@, i as int, gacc) is None);
                    }
                    None
                } else {
                    match decode_varint(s, j) {
                        None => None,
                        Some((l, k)) => {
                            if l > (s.len() - k) as u64 {
                                proof {
                                    assert(sp_message_fields(s@, i as int, gacc) is None);
                                }
                                None
                            } else {
                                let end = k + (l as usize);
                                let data = copy_range(s, k, end);
                                if field == 2 {
                                    let acc2 = Decoded { key: data, ..acc };
                                    proof {
                                        assert(sp_message_fields(s@, i as int, gacc)
                                            == sp_message_fields(
                                            s@,
                                            end as int,
                                            decoded_view(acc2),
                                        ));
                                    }
                                    decode_message_fields(s, end, acc2)
                                } else if field == 3 {
                                    match decode_record_fields(&data, 0, Vec::new(), Vec::new()) {
                                        None => {
                                            proof {
                                                assert(sp_message_fields(s@, i as int, gacc)
                                                    is None);
                                            }
                                            None
                                        },
                                        Some((rkey, rvalue)) => {
                                            let acc2 = Decoded {
                                                record: Some(Record { key: rkey, value: rvalue }),
                                                ..acc
                                            };
                                            proof {
                                                assert(sp_message_fields(s@, i as int, gacc)
                                                    == sp_message_fields(
                                                    s@,
                                                    end as int,
                                                    decoded_view(acc2),
                                                ));
                                            }
                                            decode_message_fields(s, end, acc2)
                                        },
                                    }
                                } else {
                                    let empty_id: Vec<u8> = Vec::new();
                                    let empty_addrs: Vec<Vec<u8>> = Vec::new();
                                    proof {
                                        assert(empty_addrs.deep_view() =~= Seq::<Seq<u8>>::empty());
                                    }
                                    match decode_peer_fields(&data, 0, empty_id, empty_addrs) {
                                        None => {
                                            proof {
                                                assert(sp_message_fields(s@, i as int, gacc)
                                                    is None);
                                            }
                                            None
                                        },
                                        Some((id, addresses)) => {
                                            if field == 8 {
                                                match PeerId::from_multihash(&id) {
                                                    Ok(peer) => {
                                                        let ghost gid = id@;
                                                        let ghost gaddrs =
                                                            addresses.deep_view();
                                                        let mut acc2 = acc;
                                                        acc2.peers.push(
                                                            KademliaPeer { peer, addresses },
                                                        );
                                                        proof {
                                                            assert(peers_view(acc2.peers@)
                                                                =~~= gacc.peers.push(
                                                                (
                                                                    PeerId::multihash_digest(gid),
                                                                    gaddrs,
                                                                ),
                                                            ));
                                                            assert(decoded_view(acc2)
                                                                == (RawMessage {
                                                                peers: gacc.peers.push(
                                                                    (
                                                                        PeerId::multihash_digest(
                                                                            gid,
                                                                        ),
                                                                        gaddrs,
                                                                    ),
                                                                ),
                                                                ..gacc
                                                            }));
                                                            assert(sp_message_fields(
                                                                s@,
                                                                i as int,
                                                                gacc,
                                                            ) == sp_message_fields(
                                                                s@,
                                                                end as int,
                                                                decoded_view(acc2),
                                                            ));
                                                        }
                                                        decode_message_fields(s, end, acc2)
                                                    },
                                                    Err(_) => {
                                                        proof {
                                                            assert(sp_message_fields(
                                                                s@,
                                                                i as int,
                                                                gacc,
                                                            ) == sp_message_fields(
                                                                s@,
                                                                end as int,
                                                                gacc,
                                                            ));
                                                        }
                                                        decode_message_fields(s, end, acc)
                                                    },
                                                }
                                            } else {
                                                proof {
                                                    assert(sp_message_fields(s@, i as int, gacc)
                                                        == sp_message_fields(
                                                        s@,
                                                        end as int,
                                                        gacc,
                                                    ));
                                                }
                                                decode_message_fields(s, end, acc)
                                            }
                                        },
                                    }
                                }
                            }
                        },
                    }
                }
            } else if field == 1 {
                if wire != 0 {
                    None
                } else {
                    match decode_varint(s, j) {
                        None => None,
                        Some((v, k)) => {
                            let acc2 = Decoded { msg_type: v, ..acc };
                            proof {
                                assert(sp_message_fields(s@, i as int, gacc)
                                    == sp_message_fields(s@, k as int, decoded_view(acc2)));
                            }
                            decode_message_fields(s, k, acc2)
                        },
                    }
                }
            } else if wire == 0 {
                match decode_varint(s, j) {
                    None => None,
                    Some((_, k)) => decode_message_fields(s, k, acc),
                }
            } else if wire == 2 {
                match decode_varint(s, j) {
                    None => None,
                    Some((l, k)) => {
                        if l > (s.len() - k) as u64 {
                            None
                        } else {
                            decode_message_fields(s, k + (l as usize), acc)
                        }
                    },
                }
            } else if wire == 1 {
                if s.len() >= 8 && j <= s.len() - 8 {
                    decode_message_fields(s, j + 8, acc)
                } else {
                    None
                }
            } else if wire == 5 {
                if s.len() >= 4 && j <= s.len() - 4 {
                    decode_message_fields(s, j + 4, acc)
                } else {
                    None
                }
            } else {
                None
            }
        },
    }
}

impl KademliaMessage {
    /// Decode a message from bytes: the fields are scanned as
    /// [`sp_message`] says, and the type tag then picks the shape —
    /// `FIND_NODE` responses carry the parsed peers, `PUT_VALUE` needs its
    /// record, `GET_VALUE` responses carry an optional record and the
    /// peers, and anything else is rejected.
    pub fn from_bytes(bytes: &Vec<u8>) -> (r: Option<KademliaMessage>)
        ensures
            (match sp_message(bytes@) {
                None => r is None,
                Some(raw) => {
                    if raw.msg_type == MESSAGE_TYPE_FIND_NODE {
                        (r matches Some(m) && (m matches KademliaMessage::FindNodeResponse {
                            peers,
                        } && peers_view(peers@) == raw.peers))
                    } else if raw.msg_type == MESSAGE_TYPE_PUT_VALUE {
                        match raw.record {
                            None => r is None,
                            Some(record) => (r matches Some(m) && (
                            m matches KademliaMessage::PutValue { record: rec } && rec.key@
                                == record.0 && rec.value@ == record.1)),
                        }
                    } else if raw.msg_type == MESSAGE_TYPE_GET_VALUE {
                        (r matches Some(m) && (m matches KademliaMessage::GetRecordResponse {
                            record,
                            peers,
                        } && peers_view(peers@) == raw.peers && (match (record, raw.record) {
                            (None, None) => true,
                            (Some(rec), Some(rr)) => rec.key@ == rr.0 && rec.value@ == rr.1,
                            _ => false,
                        })))
                    } else {
                        r is None
                    }
                },
            }),
    {
        let empty_acc = Decoded { msg_type: 0, key: Vec::new(), record: None, peers: Vec::new() };
        proof {
            assert(peers_view(Seq::<KademliaPeer>::empty()) =~= Seq::<
                (Seq<u8>, Seq<Seq<u8>>),
            >::empty());
            assert(decoded_view(empty_acc) =~= RawMessage {
                msg_type: 0,
                key: Seq::empty(),
                record: None,
                peers: Seq::empty(),
            });
        }
        let decoded = decode_message_fields(bytes, 0, empty_acc);
        match decoded {
            None => None,
            Some(message) => {
                if message.msg_type == 4 {
                    Some(KademliaMessage::FindNodeResponse { peers: message.peers })
                } else if message.msg_type == 0 {
                    match message.record {
                        Some(record) => Some(KademliaMessage::PutValue { record }),
                        None => None,
                    }
                } else if message.msg_type == 1 {
                    Some(
                        KademliaMessage::GetRecordResponse {
                            record: message.record,
                            peers: message.peers,
                        },
                    )
                } else {
                    None
                }
            },
        }
    }
}

/// A varint encoding embedded in a longer string parses back to its value.
proof fn lemma_sp_varint_at(s: Seq<u8>, i: int, n: u64)
    requires
        0 <= i,
        i + spec_varint(n).len() <= s.len(),
        s.subrange(i, i + spec_varint(n).len()) == spec_varint(n),
    ensures
        sp_varint(s, i) == Some((n, i + spec_varint(n).len())),
    decreases n,
{
    let enc = spec_varint(n);
    assert(s[i] == enc[0]);
    if n < 0x80 {
        assert(enc =~= seq![n as u8]);
        assert(s[i] == n as u8);
    } else {
        let rest = spec_varint(n / 0x80);
        assert(enc == seq![((n % 0x80) + 0x80) as u8] + rest);
        assert(s[i] == ((n % 0x80) + 0x80) as u8);
        assert(s.subrange(i + 1, i + 1 + rest.len()) =~= rest) by {
            assert forall|j: int| 0 <= j < rest.len() implies s.subrange(
                i + 1,
                i + 1 + rest.len(),
            )[j] == rest[j] by {
                assert(s[i + 1 + j] == enc[1 + j]);
                assert(enc[1 + j] == rest[j]);
            }
        }
        lemma_sp_varint_at(s, i + 1, n / 0x80);
        assert(n / 0x80 < 0x0200000000000000);
        assert(((s[i] - 0x80) + 0x80 * (n / 0x80)) as u64 == n) by {
            assert(s[i] - 0x80 == n % 0x80);
            assert(n % 0x80 + 0x80 * (n / 0x80) == n);
        }
    }
}

/// A length-delimited field embedded in a longer string parses back: its
/// tag, its length, and its payload, ending where the field ends.
proof fn lemma_field_step(s: Seq<u8>, i: int, tag: u8, data: Seq<u8>)
    requires
        0 <= i,
        tag < 0x80,
        data.len() <= u64::MAX,
        i + spec_len_delim(tag, data).len() <= s.len(),
        s.subrange(i, i + spec_len_delim(tag, data).len()) == spec_len_delim(tag, data),
    ensures
        sp_varint(s, i) == Some((tag as u64, i + 1)),
        sp_varint(s, i + 1) == Some(
            (data.len() as u64, i + 1 + spec_varint(data.len() as u64).len()),
        ),
        s.subrange(
            i + 1 + spec_varint(data.len() as u64).len(),
            i + spec_len_delim(tag, data).len(),
        ) == data,
        i + 1 + spec_varint(data.len() as u64).len() + data.len() == i + spec_len_delim(
            tag,
            data,
        ).len(),
{
    let enc = spec_len_delim(tag, data);
    let lv = spec_varint(data.len() as u64);
    assert(enc == seq![tag] + lv + data);
    assert(s[i] == enc[0]);
    assert(enc[0] == tag);
    assert(s.subrange(i + 1, i + 1 + lv.len()) =~= lv) by {
        assert forall|j: int| 0 <= j < lv.len() implies s.subrange(i + 1, i + 1 + lv.len())[j]
            == lv[j] by {
            assert(s[i + 1 + j] == enc[1 + j]);
            assert(enc[1 + j] == lv[j]);
        }
    }
    lemma_sp_varint_at(s, i + 1, data.len() as u64);
    assert(s.subrange(i + 1 + lv.len(), i + enc.len()) =~= data) by {
        assert forall|j: int| 0 <= j < data.len() implies s.subrange(
            i + 1 + lv.len(),
            i + enc.len(),
        )[j] == data[j] by {
            assert(s[i + 1 + lv.len() + j] == enc[1 + lv.len() + j]);
            assert(enc[1 + lv.len() + j] == data[j]);
        }
    }
}

/// A tag byte followed by a varint value parses back as that tag and that
/// value.
proof fn lemma_tagged_varint_at(s: Seq<u8>, i: int, tag: u8, v: u64)
    requires
        0 <= i,
        tag < 0x80,
        i + 1 + spec_varint(v).len() <= s.len(),
        s.subrange(i, i + 1 + spec_varint(v).len()) == seq![tag] + spec_varint(v),
    ensures
        sp_varint(s, i) == Some((tag as u64, i + 1)),
        sp_varint(s, i + 1) == Some((v, i + 1 + spec_varint(v).len())),
{
    let enc = seq![tag] + spec_varint(v);
    assert(s[i] == enc[0]);
    assert(enc[0] == tag);
    assert(s.subrange(i + 1, i + 1 + spec_varint(v).len()) =~= spec_varint(v)) by {
        assert forall|j: int| 0 <= j < spec_varint(v).len() implies s.subrange(
            i + 1,
            i + 1 + spec_varint(v).len(),
        )[j] == spec_varint(v)[j] by {
            assert(s[i + 1 + j] == enc[1 + j]);
            assert(enc[1 + j] == spec_varint(v)[j]);
        }
    }
    lemma_sp_varint_at(s, i + 1, v);
}

/// The pieces of a three-part concatenation sit at their offsets.
proof fn lemma_concat3_subranges(a: Seq<u8>, b: Seq<u8>, c: Seq<u8>)
    ensures
        (a + b + c).len() == a.len() + b.len() + c.len(),
        (a + b + c).subrange(0, a.len() as int) == a,
        (a + b + c).subrange(a.len() as int, (a.len() + b.len()) as int) == b,
        (a + b + c).subrange((a.len() + b.len()) as int, (a.len() + b.len() + c.len()) as int) == c,
{
    let s = a + b + c;
    assert(s.subrange(0, a.len() as int) =~= a);
    assert(s.subrange(a.len() as int, (a.len() + b.len()) as int) =~= b);
    assert(s.subrange((a.len() + b.len()) as int, (a.len() + b.len() + c.len()) as int) =~= c);
}

/// A record's encoding parses back to exactly its key and value.
pub proof fn lemma_record_round_trip(key: Seq<u8>, value: Seq<u8>)
    requires
        key.len() <= u64::MAX,
        value.len() <= u64::MAX,
    ensures
        sp_record_fields(spec_record(key, value), 0, Seq::empty(), Seq::empty()) == Some(
            (key, value),
        ),
{
    let s = spec_record(key, value);
    if key.len() == 0 && value.len() == 0 {
        assert(s =~= Seq::<u8>::empty());
        assert(key =~= Seq::<u8>::empty());
        assert(value =~= Seq::<u8>::empty());
    } else if key.len() > 0 && value.len() == 0 {
        let f = spec_len_delim(0x0a, key);
        assert(s =~= f);
        assert(s.subrange(0, f.len() as int) =~= f);
        lemma_field_step(s, 0, 0x0a, key);
        assert(value =~= Seq::<u8>::empty());
        assert(sp_record_fields(s, f.len() as int, key, Seq::empty()) == Some(
            (key, Seq::<u8>::empty()),
        ));
    } else if key.len() == 0 && value.len() > 0 {
        let f = spec_len_delim(0x12, value);
        assert(s =~= f);
        assert(s.subrange(0, f.len() as int) =~= f);
        lemma_field_step(s, 0, 0x12, value);
        assert(key =~= Seq::<u8>::empty());
        assert(sp_record_fields(s, f.len() as int, Seq::empty(), value) == Some(
            (Seq::<u8>::empty(), value),
        ));
    } else {
        let f1 = spec_len_delim(0x0a, key);
        let f2 = spec_len_delim(0x12, value);
        assert(s =~= f1 + f2 + Seq::<u8>::empty());
        lemma_concat3_subranges(f1, f2, Seq::empty());
        assert(s.subrange(0, f1.len() as int) == f1);
        lemma_field_step(s, 0, 0x0a, key);
        assert(s.subrange(f1.len() as int, (f1.len() + f2.len()) as int) == f2);
        assert(s.subrange(f1.len() as int, (f1.len() + f2.len()) as int) == f2);
        lemma_field_step(s, f1.len() as int, 0x12, value);
        assert(sp_record_fields(s, (f1.len() + f2.len()) as int, key, value) == Some(
            (key, value),
        ));
        assert(sp_record_fields(s, f1.len() as int, key, Seq::empty()) == Some((key, value)));
    }
}

/// Round trip for `PUT_VALUE`: the encoding of a record parses back to a
/// raw message with the default type, the record's key as the message key,
/// the record itself, and no peers — exactly what `from_bytes` turns into
/// `PutValue` again.
pub proof fn lemma_put_value_round_trip(key: Seq<u8>, value: Seq<u8>)
    requires
        key.len() <= u64::MAX,
        spec_record(key, value).len() <= u64::MAX,
    ensures
        sp_message(spec_put_value(key, value)) == Some(
            (RawMessage {
                msg_type: MESSAGE_TYPE_PUT_VALUE,
                key,
                record: Some((key, value)),
                peers: Seq::empty(),
            }),
        ),
{
    let body = spec_record(key, value);
    let a = spec_len_delim(0x12, key);
    let b = spec_len_delim(0x1a, body);
    let c = spec_cluster_level();
    let s = spec_put_value(key, value);
    assert(s =~= a + b + c);
    lemma_concat3_subranges(a, b, c);
    assert((a + b + c).subrange(0, a.len() as int) == a);
    assert(s.subrange(0, a.len() as int) == a);
    lemma_field_step(s, 0, 0x12, key);
    assert(s.subrange(a.len() as int, (a.len() + b.len()) as int) == b);
    lemma_field_step(s, a.len() as int, 0x1a, body);
    lemma_record_round_trip(key, value);
    assert(s.subrange((a.len() + b.len()) as int, (a.len() + b.len() + c.len()) as int) == c);
    assert(c =~= seq![0x50u8] + spec_varint(0x0a));
    lemma_tagged_varint_at(s, (a.len() + b.len()) as int, 0x50, 0x0a);
    let acc0 = RawMessage {
        msg_type: 0,
        key: Seq::empty(),
        record: None,
        peers: Seq::empty(),
    };
    let acc1 = RawMessage { key, ..acc0 };
    let acc2 = RawMessage { record: Some((key, value)), ..acc1 };
    assert(sp_message_fields(s, (a.len() + b.len() + c.len()) as int, acc2) == Some(acc2));
    assert(sp_message_fields(s, (a.len() + b.len()) as int, acc2) == Some(acc2));
    assert(sp_message_fields(s, a.len() as int, acc1) == Some(acc2));
    assert(sp_message_fields(s, 0, acc0) == Some(acc2));
}

/// Round trip for `FIND_NODE`: the encoding of a query for `key` parses
/// back to a raw message with type `FIND_NODE`, that key, and no peers.
pub proof fn lemma_find_node_round_trip(key: Seq<u8>)
    requires
        key.len() <= u64::MAX,
    ensures
        sp_message(spec_find_node(key)) == Some(
            (RawMessage {
                msg_type: MESSAGE_TYPE_FIND_NODE,
                key,
                record: None,
                peers: Seq::empty(),
            }),
        ),
{
    lemma_type_key_cluster_round_trip(MESSAGE_TYPE_FIND_NODE, key);
}

/// Round trip for `GET_VALUE`: the encoding of a query for `key` parses
/// back to a raw message with type `GET_VALUE`, that key, and no peers.
pub proof fn lemma_get_record_round_trip(key: Seq<u8>)
    requires
        key.len() <= u64::MAX,
    ensures
        sp_message(spec_get_record(key)) == Some(
            (RawMessage {
                msg_type: MESSAGE_TYPE_GET_VALUE,
                key,
                record: None,
                peers: Seq::empty(),
            }),
        ),
{
    lemma_type_key_cluster_round_trip(MESSAGE_TYPE_GET_VALUE, key);
}

/// Shared shape of the two queries: a type field, the key, and the cluster
/// level parse back to exactly that type and key.
proof fn lemma_type_key_cluster_round_trip(msg_type: u64, key: Seq<u8>)
    requires
        0 < msg_type < 0x80,
        key.len() <= u64::MAX,
    ensures
        sp_message_fields(
            spec_type_field(msg_type) + spec_len_delim(0x12, key) + spec_cluster_level(),
            0,
            (RawMessage { msg_type: 0, key: Seq::empty(), record: None, peers: Seq::empty() }),
        ) == Some(
            (RawMessage { msg_type, key, record: None, peers: Seq::empty() }),
        ),
{
    let a = spec_type_field(msg_type);
    let b = spec_len_delim(0x12, key);
    let c = spec_cluster_level();
    let s = a + b + c;
    lemma_concat3_subranges(a, b, c);
    assert(s.subrange(0, a.len() as int) == a);
    assert(a =~= seq![0x08u8] + spec_varint(msg_type));
    assert(spec_varint(msg_type) =~= seq![msg_type as u8]);
    lemma_tagged_varint_at(s, 0, 0x08, msg_type);
    assert(s.subrange(a.len() as int, (a.len() + b.len()) as int) == b);
    lemma_field_step(s, a.len() as int, 0x12, key);
    assert(s.subrange((a.len() + b.len()) as int, (a.len() + b.len() + c.len()) as int) == c);
    assert(c =~= seq![0x50u8] + spec_varint(0x0a));
    lemma_tagged_varint_at(s, (a.len() + b.len()) as int, 0x50, 0x0a);
    let acc0 = RawMessage {
        msg_type: 0,
        key: Seq::empty(),
        record: None,
        peers: Seq::empty(),
    };
    let acc1 = RawMessage { msg_type, ..acc0 };
    let acc2 = RawMessage { key, ..acc1 };
    assert(sp_message_fields(s, (a.len() + b.len() + c.len()) as int, acc2) == Some(acc2));
    assert(sp_message_fields(s, (a.len() + b.len()) as int, acc2) == Some(acc2));
    assert(sp_message_fields(s, a.len() as int, acc1) == Some(acc2));
    assert(sp_message_fields(s, 0, acc0) == Some(acc2));
}

/// An address list's encoding also decomposes from the front.
proof fn lemma_addresses_unfold_front(addresses: Seq<Seq<u8>>)
    requires
        addresses.len() > 0,
    ensures
        spec_addresses(addresses) == spec_len_delim(0x12, addresses.first()) + spec_addresses(
            addresses.drop_first(),
        ),
    decreases addresses.len(),
{
    if addresses.len() == 1 {
        assert(addresses.drop_last() =~= Seq::<Seq<u8>>::empty());
        assert(addresses.drop_first() =~= Seq::<Seq<u8>>::empty());
        assert(addresses.last() == addresses.first());
        assert(spec_addresses(addresses) =~= spec_len_delim(0x12, addresses.first())
            + spec_addresses(addresses.drop_first()));
    } else {
        let front = addresses.drop_last();
        lemma_addresses_unfold_front(front);
        assert(front.first() == addresses.first());
        assert(front.drop_first() =~= addresses.drop_first().drop_last());
        assert(addresses.drop_first().last() == addresses.last());
        assert(spec_addresses(addresses) =~= spec_len_delim(0x12, addresses.first())
            + spec_addresses(addresses.drop_first()));
    }
}

/// A peer list's encoding also decomposes from the front.
proof fn lemma_closer_peers_unfold_front(peers: Seq<(Seq<u8>, Seq<Seq<u8>>)>)
    requires
        peers.len() > 0,
    ensures
        spec_closer_peers(peers) == spec_len_delim(
            0x42,
            spec_peer(peers.first().0, peers.first().1),
        ) + spec_closer_peers(peers.drop_first()),
    decreases peers.len(),
{
    if peers.len() == 1 {
        assert(peers.drop_last() =~= Seq::<(Seq<u8>, Seq<Seq<u8>>)>::empty());
        assert(peers.drop_first() =~= Seq::<(Seq<u8>, Seq<Seq<u8>>)>::empty());
        assert(peers.last() == peers.first());
        assert(spec_closer_peers(peers) =~= spec_len_delim(
            0x42,
            spec_peer(peers.first().0, peers.first().1),
        ) + spec_closer_peers(peers.drop_first()));
    } else {
        let front = peers.drop_last();
        lemma_closer_peers_unfold_front(front);
        assert(front.first() == peers.first());
        assert(front.drop_first() =~= peers.drop_first().drop_last());
        assert(peers.drop_first().last() == peers.last());
        assert(spec_closer_peers(peers) =~= spec_len_delim(
            0x42,
            spec_peer(peers.first().0, peers.first().1),
        ) + spec_closer_peers(peers.drop_first()));
    }
}

/// A suffix of a string that is an encoded address list scans into the
/// address accumulator, leaving the identity alone.
proof fn lemma_addresses_scan(
    s: Seq<u8>,
    i: int,
    addresses: Seq<Seq<u8>>,
    id_acc: Seq<u8>,
    addr_acc: Seq<Seq<u8>>,
)
    requires
        0 <= i,
        i + spec_addresses(addresses).len() == s.len(),
        s.subrange(i, s.len() as int) == spec_addresses(addresses),
        forall|j: int| 0 <= j < addresses.len() ==> (#[trigger] addresses[j]).len() <= u64::MAX,
    ensures
        sp_peer_fields(s, i, id_acc, addr_acc) == Some((id_acc, addr_acc + addresses)),
    decreases addresses.len(),
{
    if addresses.len() == 0 {
        assert(i == s.len());
        assert(addr_acc + addresses =~= addr_acc);
    } else {
        lemma_addresses_unfold_front(addresses);
        let f = spec_len_delim(0x12, addresses.first());
        let rest = spec_addresses(addresses.drop_first());
        assert(s.subrange(i, i + f.len()) =~= f) by {
            assert forall|j: int| 0 <= j < f.len() implies s.subrange(i, i + f.len())[j]
                == f[j] by {
                assert(s[i + j] == s.subrange(i, s.len() as int)[j]);
                assert(s.subrange(i, s.len() as int)[j] == (f + rest)[j]);
            }
        }
        lemma_field_step(s, i, 0x12, addresses.first());
        let next = i + f.len();
        assert(s.subrange(next, s.len() as int) =~= rest) by {
            assert forall|j: int| 0 <= j < rest.len() implies s.subrange(next, s.len() as int)[j]
                == rest[j] by {
                assert(s[next + j] == s.subrange(i, s.len() as int)[f.len() + j]);
                assert(s.subrange(i, s.len() as int)[f.len() + j] == (f + rest)[f.len() + j]);
            }
        }
        assert forall|j: int| 0 <= j < addresses.drop_first().len() implies (
        #[trigger] addresses.drop_first()[j]).len() <= u64::MAX by {
            assert(addresses.drop_first()[j] == addresses[j + 1]);
        }
        lemma_addresses_scan(s, next, addresses.drop_first(), id_acc, addr_acc.push(
            addresses.first(),
        ));
        assert(addr_acc.push(addresses.first()) + addresses.drop_first() =~= addr_acc
            + addresses);
    }
}

/// A peer submessage's encoding parses back to its multihash identity and
/// its addresses.
proof fn lemma_peer_round_trip(id: Seq<u8>, addresses: Seq<Seq<u8>>)
    requires
        id.len() == 32,
        forall|j: int| 0 <= j < addresses.len() ==> (#[trigger] addresses[j]).len() <= u64::MAX,
    ensures
        sp_peer_fields(spec_peer(id, addresses), 0, Seq::empty(), Seq::empty()) == Some(
            (seq![0x12u8, 0x20u8] + id, addresses),
        ),
{
    let multihash = seq![0x12u8, 0x20u8] + id;
    let f = spec_len_delim(0x0a, multihash);
    let rest = spec_addresses(addresses);
    let s = spec_peer(id, addresses);
    assert(s == f + rest);
    assert(s.subrange(0, f.len() as int) =~= f) by {
        assert forall|j: int| 0 <= j < f.len() implies s.subrange(0, f.len() as int)[j]
            == f[j] by {
            assert(s[j] == (f + rest)[j]);
        }
    }
    lemma_field_step(s, 0, 0x0a, multihash);
    assert(s.subrange(f.len() as int, s.len() as int) =~= rest) by {
        assert forall|j: int| 0 <= j < rest.len() implies s.subrange(
            f.len() as int,
            s.len() as int,
        )[j] == rest[j] by {
            assert(s[f.len() + j] == (f + rest)[f.len() + j]);
        }
    }
    lemma_addresses_scan(s, f.len() as int, addresses, multihash, Seq::empty());
    assert(Seq::<Seq<u8>>::empty() + addresses =~= addresses);
}

/// Scanning an encoded peer list appends exactly those peers, each by its
/// 32-byte identity and addresses, and continues behind the list.
proof fn lemma_closer_peers_scan(
    s: Seq<u8>,
    i: int,
    peers: Seq<(Seq<u8>, Seq<Seq<u8>>)>,
    acc: RawMessage,
)
    requires
        0 <= i,
        i + spec_closer_peers(peers).len() <= s.len(),
        s.subrange(i, i + spec_closer_peers(peers).len()) == spec_closer_peers(peers),
        forall|j: int| 0 <= j < peers.len() ==> (#[trigger] peers[j]).0.len() == 32,
        forall|j: int|
            0 <= j < peers.len() ==> spec_peer((#[trigger] peers[j]).0, peers[j].1).len()
                <= u64::MAX,
        forall|j: int, k: int|
            0 <= j < peers.len() && 0 <= k < peers[j].1.len() ==> ((#[trigger] peers[j].1[k]).len()
                <= u64::MAX),
    ensures
        sp_message_fields(s, i, acc) == sp_message_fields(
            s,
            i + spec_closer_peers(peers).len(),
            (RawMessage { peers: acc.peers + peers, ..acc }),
        ),
    decreases peers.len(),
{
    if peers.len() == 0 {
        assert(acc.peers + peers =~= acc.peers);
        assert((RawMessage { peers: acc.peers + peers, ..acc }) == acc);
    } else {
        lemma_closer_peers_unfold_front(peers);
        let first = peers.first();
        let body = spec_peer(first.0, first.1);
        let f = spec_len_delim(0x42, body);
        let rest = spec_closer_peers(peers.drop_first());
        let whole = spec_closer_peers(peers);
        assert(whole == f + rest);
        assert(s.subrange(i, i + f.len()) =~= f) by {
            assert forall|j: int| 0 <= j < f.len() implies s.subrange(i, i + f.len())[j]
                == f[j] by {
                assert(s[i + j] == s.subrange(i, i + whole.len())[j]);
                assert(s.subrange(i, i + whole.len())[j] == (f + rest)[j]);
            }
        }
        lemma_field_step(s, i, 0x42, body);
        assert forall|k: int| 0 <= k < first.1.len() implies ((#[trigger] first.1[k]).len()
            <= u64::MAX) by {
            assert(peers[0].1[k] == first.1[k]);
        }
        lemma_peer_round_trip(first.0, first.1);
        assert(PeerId::multihash_valid(seq![0x12u8, 0x20u8] + first.0));
        assert(PeerId::multihash_digest(seq![0x12u8, 0x20u8] + first.0) =~= first.0);
        let next = i + f.len();
        assert(s.subrange(next, next + rest.len()) =~= rest) by {
            assert forall|j: int| 0 <= j < rest.len() implies s.subrange(
                next,
                next + rest.len(),
            )[j] == rest[j] by {
                assert(s[next + j] == s.subrange(i, i + whole.len())[f.len() + j]);
                assert(s.subrange(i, i + whole.len())[f.len() + j] == (f + rest)[f.len() + j]);
            }
        }
        assert forall|j: int| 0 <= j < peers.drop_first().len() implies (
        #[trigger] peers.drop_first()[j]).0.len() == 32 by {
            assert(peers.drop_first()[j] == peers[j + 1]);
        }
        assert forall|j: int|
            0 <= j < peers.drop_first().len() implies spec_peer(
            (#[trigger] peers.drop_first()[j]).0,
            peers.drop_first()[j].1,
        ).len() <= u64::MAX by {
            assert(peers.drop_first()[j] == peers[j + 1]);
        }
        assert forall|j: int, k: int|
            0 <= j < peers.drop_first().len() && 0 <= k < peers.drop_first()[j].1.len() implies ((
        #[trigger] peers.drop_first()[j].1[k]).len() <= u64::MAX) by {
            assert(peers.drop_first()[j] == peers[j + 1]);
            assert(peers.drop_first()[j].1[k] == peers[j + 1].1[k]);
        }
        let acc1 = RawMessage { peers: acc.peers.push((first.0, first.1)), ..acc };
        lemma_closer_peers_scan(s, next, peers.drop_first(), acc1);
        assert(acc.peers.push((first.0, first.1)) =~= acc.peers.push(first));
        assert(acc1.peers + peers.drop_first() =~= acc.peers + peers);
        assert(sp_message_fields(s, i, acc) == sp_message_fields(s, next, acc1));
    }
}

/// Round trip for `FIND_NODE` responses: the encoding of a peer list
/// parses back to a raw message with type `FIND_NODE` and exactly those
/// peers, each by its 32-byte identity and its addresses.
pub proof fn lemma_find_node_response_round_trip(peers: Seq<(Seq<u8>, Seq<Seq<u8>>)>)
    requires
        forall|j: int| 0 <= j < peers.len() ==> (#[trigger] peers[j]).0.len() == 32,
        forall|j: int|
            0 <= j < peers.len() ==> spec_peer((#[trigger] peers[j]).0, peers[j].1).len()
                <= u64::MAX,
        forall|j: int, k: int|
            0 <= j < peers.len() && 0 <= k < peers[j].1.len() ==> ((#[trigger] peers[j].1[k]).len()
                <= u64::MAX),
    ensures
        sp_message(spec_find_node_response(peers)) == Some(
            (RawMessage {
                msg_type: MESSAGE_TYPE_FIND_NODE,
                key: Seq::empty(),
                record: None,
                peers,
            }),
        ),
{
    let a = spec_type_field(MESSAGE_TYPE_FIND_NODE);
    let b = spec_closer_peers(peers);
    let c = spec_cluster_level();
    let s = spec_find_node_response(peers);
    assert(s =~= a + b + c);
    lemma_concat3_subranges(a, b, c);
    assert(s.subrange(0, a.len() as int) == a);
    assert(a =~= seq![0x08u8] + spec_varint(MESSAGE_TYPE_FIND_NODE));
    lemma_tagged_varint_at(s, 0, 0x08, MESSAGE_TYPE_FIND_NODE);
    let acc0 = RawMessage {
        msg_type: 0,
        key: Seq::empty(),
        record: None,
        peers: Seq::empty(),
    };
    let acc1 = RawMessage { msg_type: MESSAGE_TYPE_FIND_NODE, ..acc0 };
    assert(s.subrange(a.len() as int, (a.len() + b.len()) as int) == b);
    lemma_closer_peers_scan(s, a.len() as int, peers, acc1);
    let acc2 = RawMessage { peers: Seq::empty() + peers, ..acc1 };
    assert(Seq::<(Seq<u8>, Seq<Seq<u8>>)>::empty() + peers =~= peers);
    assert(s.subrange((a.len() + b.len()) as int, (a.len() + b.len() + c.len()) as int) == c);
    assert(c =~= seq![0x50u8] + spec_varint(0x0a));
    lemma_tagged_varint_at(s, (a.len() + b.len()) as int, 0x50, 0x0a);
    assert(sp_message_fields(s, (a.len() + b.len() + c.len()) as int, acc2) == Some(acc2));
    assert(sp_message_fields(s, (a.len() + b.len()) as int, acc2) == Some(acc2));
    assert(sp_message_fields(s, a.len() as int, acc1) == Some(acc2));
    assert(sp_message_fields(s, 0, acc0) == Some(acc2));
}

/// Encode one peer submessage.
fn encode_peer(peer: &KademliaPeer) -> (r: Vec<u8>)
    ensures
        r@ == spec_peer(peer.peer@, peer.addresses.deep_view()),
{
    let mut out: Vec<u8> = Vec::new();
    let multihash = peer.peer.to_multihash();
    encode_len_delim(0x0a, &multihash, &mut out);
    let n = peer.addresses.len();
    let mut i: usize = 0;
    while i < n
        invariant
            i <= n,
            n == peer.addresses@.len(),
            out@ == spec_len_delim(0x0a, seq![0x12u8, 0x20u8] + peer.peer@) + spec_addresses(
                peer.addresses.deep_view().take(i as int),
            ),
        decreases n - i,
    {
        encode_len_delim(0x12, &peer.addresses[i], &mut out);
        proof {
            let taken = peer.addresses.deep_view().take(i + 1);
            assert(taken.drop_last() =~= peer.addresses.deep_view().take(i as int));
            assert(taken.last() == peer.addresses@[i as int]@);
            assert(out@ =~= spec_len_delim(0x0a, seq![0x12u8, 0x20u8] + peer.peer@)
                + spec_addresses(taken));
        }
        i += 1;
    }
    proof {
        assert(peer.addresses.deep_view().take(n as int) =~= peer.addresses.deep_view());
        assert(out@ =~= spec_peer(peer.peer@, peer.addresses.deep_view()));
    }
    out
}

} // verus!
