//! Common identifier and protocol-name types.

use vstd::prelude::*;

verus! {

/// Identifier for a request, drawn from a monotonically increasing counter;
/// unique within the lifetime of a process.
pub type RequestId = u64;

/// Identifier the transport assigns to a substream-open operation, used to
/// correlate the operation with the eventual substream-opened event.
pub type SubstreamId = u64;

/// Identifier the transport assigns to a transport-level connection.
pub type ConnectionId = u64;

/// Opaque 32-byte peer identifier derived from a public key, totally ordered
/// by byte comparison.
#[derive(Clone, Copy, Debug)]
pub struct PeerId {
    pub bytes: [u8; 32],
}

impl View for PeerId {
    type V = Seq<u8>;

    open spec fn view(&self) -> Seq<u8> {
        self.bytes@
    }
}

impl PeerId {
    /// Build a peer id from its 32 raw bytes.
    pub fn from_bytes(bytes: [u8; 32]) -> (r: Self)
        ensures
            r@ == bytes@,
    {
        PeerId { bytes }
    }

    /// The raw bytes of the identifier.
    pub fn as_bytes(&self) -> (r: &[u8; 32])
        ensures
            r@ == self@,
    {
        &self.bytes
    }

    /// A valid peer multihash: the SHA-256 code, the length 32, then the
    /// 32-byte digest that is the peer id.
    pub open spec fn multihash_valid(mh: Seq<u8>) -> bool {
        mh.len() == 34 && mh[0] == 0x12 && mh[1] == 0x20
    }

    /// The digest a multihash carries.
    pub open spec fn multihash_digest(mh: Seq<u8>) -> Seq<u8> {
        mh.subrange(2, mh.len() as int)
    }

    /// Parse a peer id out of its multihash: accepted exactly when the
    /// bytes are the SHA-256 code, the length 32, and 32 digest bytes.
    pub fn from_multihash(bytes: &Vec<u8>) -> (r: Result<PeerId, ()>)
        ensures
            r is Ok <==> Self::multihash_valid(bytes@),
            (r matches Ok(peer) ==> peer@ == Self::multihash_digest(bytes@)),
    {
        if bytes.len() != 34 {
            return Err(());
        }
        if bytes[0] != 0x12 || bytes[1] != 0x20 {
            return Err(());
        }
        let mut digest: [u8; 32] = [0u8; 32];
        let mut i: usize = 0;
        while i < 32
            invariant
                i <= 32,
                bytes@.len() == 34,
                forall|j: int| 0 <= j < i ==> digest@[j] == bytes@[j + 2],
            decreases 32 - i,
        {
            digest[i] = bytes[i + 2];
            i += 1;
        }
        proof {
            assert(digest@ =~= Self::multihash_digest(bytes@));
        }
        Ok(PeerId { bytes: digest })
    }

    /// The multihash form of this peer id: the SHA-256 code, the length
    /// 32, then the id's bytes.
    pub fn to_multihash(&self) -> (r: Vec<u8>)
        ensures
            r@ == seq![0x12u8, 0x20u8] + self@,
            Self::multihash_valid(r@),
            Self::multihash_digest(r@) == self@,
    {
        let mut out: Vec<u8> = Vec::new();
        out.push(0x12);
        out.push(0x20);
        let mut i: usize = 0;
        while i < 32
            invariant
                i <= 32,
                out@.len() == i + 2,
                out@[0] == 0x12,
                out@[1] == 0x20,
                forall|j: int| 0 <= j < i ==> out@[j + 2] == self@[j],
            decreases 32 - i,
        {
            out.push(self.bytes[i]);
            i += 1;
        }
        proof {
            assert(out@ =~= seq![0x12u8, 0x20u8] + self@);
            assert(Self::multihash_digest(out@) =~= self@);
        }
        out
    }

    /// Byte-wise equality of two peer ids.
    pub fn same(&self, other: &PeerId) -> (r: bool)
        ensures
            r == (self@ == other@),
    {
        let mut i: usize = 0;
        while i < 32
            invariant
                i <= 32,
                forall|j: int| 0 <= j < i ==> self@[j] == other@[j],
            decreases 32 - i,
        {
            if self.bytes[i] != other.bytes[i] {
                assert(self@[i as int] != other@[i as int]);
                return false;
            }
            i += 1;
        }
        proof {
            assert(self@ =~= other@);
        }
        true
    }
}

/// Label identifying an application protocol; equality is by string contents
/// whether the backing storage is static or allocated.
#[derive(Clone, Debug)]
pub enum ProtocolName {
    Static(&'static str),
    Allocated(String),
}

impl View for ProtocolName {
    type V = Seq<char>;

    open spec fn view(&self) -> Seq<char> {
        match self {
            ProtocolName::Static(s) => s@,
            ProtocolName::Allocated(s) => s@,
        }
    }
}

impl ProtocolName {
    /// Wrap a static string as a protocol name.
    pub fn from_static_str(name: &'static str) -> (r: Self)
        ensures
            r@ == name@,
    {
        ProtocolName::Static(name)
    }

    /// Wrap an owned string as a protocol name.
    pub fn from_string(name: String) -> (r: Self)
        ensures
            r@ == name@,
    {
        ProtocolName::Allocated(name)
    }

    /// The name as a string slice.
    pub fn as_str(&self) -> (r: &str)
        ensures
            r@ == self@,
    {
        match self {
            ProtocolName::Static(s) => s,
            ProtocolName::Allocated(s) => s.as_str(),
        }
    }
}

} // verus!
