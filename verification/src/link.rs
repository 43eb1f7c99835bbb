//! Link addressing: the upstream hop of a packet and the two ends of a link.

use crate::wire::lemma_le_unique_u16;
use crate::wire::lemma_u32_le_inverse;
use crate::wire::put_bytes;
use crate::wire::put_u16;
use crate::wire::put_u32;
use crate::wire::take_u16;
use crate::wire::take_u32;
use crate::wire::u16_le;
use crate::wire::u32_le;
use crate::wire::DecodeError;
use vstd::prelude::*;

verus! {

/// An IPv4 or IPv6 socket address, held as address bytes and port.
#[derive(Clone, Copy, Debug, PartialEq, Eq, Hash)]
#[allow(inconsistent_fields)]
pub enum SocketAddress {
    /// Four address bytes in network order, and the port.
    V4 { ip: [u8; 4], port: u16 },
    /// Sixteen address bytes in network order, and the port.
    V6 { ip: [u8; 16], port: u16 },
}

/// The hop that a response has to be sent back to.
#[derive(Clone, Copy, Debug, PartialEq, Eq, Hash)]
pub enum ReplyTo {
    /// A channel inside this process, named by an opaque handle.
    Mpsc(u32),
    /// A UDP endpoint.
    UdpIp(SocketAddress),
}

/// The two ends of a link. A link that only listens has no remote end yet.
#[derive(Clone, Copy, Debug, PartialEq, Eq, Hash)]
pub struct LinkId {
    /// This node's end.
    pub local: ReplyTo,
    /// The peer's end, once it is known.
    pub remote: Option<ReplyTo>,
}

/// Largest encoding of a `ReplyTo`: the tag, the address family, an IPv6
/// address and the port.
pub const REPLY_TO_MAX_SIZE: usize = 20;

impl SocketAddress {
    /// The encoding: the family byte, the address bytes, the port.
    pub open spec fn wire(self) -> Seq<u8> {
        match self {
            SocketAddress::V4 { ip, port } => seq![0u8] + ip@ + u16_le(port),
            SocketAddress::V6 { ip, port } => seq![1u8] + ip@ + u16_le(port),
        }
    }

    /// An IPv4 socket address.
    pub fn v4(ip: [u8; 4], port: u16) -> (a: SocketAddress)
        ensures
            a == (SocketAddress::V4 { ip, port }),
    {
        SocketAddress::V4 { ip, port }
    }

    /// An IPv6 socket address.
    pub fn v6(ip: [u8; 16], port: u16) -> (a: SocketAddress)
        ensures
            a == (SocketAddress::V6 { ip, port }),
    {
        SocketAddress::V6 { ip, port }
    }

    /// Structural equality.
    pub fn equals(&self, other: &SocketAddress) -> (same: bool)
        ensures
            same == (*self == *other),
    {
        match (self, other) {
            (SocketAddress::V4 { ip: a, port: p }, SocketAddress::V4 { ip: b, port: q }) => {
                let same = *p == *q && same_bytes(a.as_slice(), b.as_slice());
                assert(same ==> *a =~= *b);
                same
            },
            (SocketAddress::V6 { ip: a, port: p }, SocketAddress::V6 { ip: b, port: q }) => {
                let same = *p == *q && same_bytes(a.as_slice(), b.as_slice());
                assert(same ==> *a =~= *b);
                same
            },
            _ => false,
        }
    }

    /// Appends the encoding.
    pub fn encode_into(&self, out: &mut Vec<u8>)
        ensures
            final(out)@ == old(out)@ + self.wire(),
    {
        match self {
            SocketAddress::V4 { ip, port } => {
                out.push(0);
                put_bytes(out, ip.as_slice());
                put_u16(out, *port);
            },
            SocketAddress::V6 { ip, port } => {
                out.push(1);
                put_bytes(out, ip.as_slice());
                put_u16(out, *port);
            },
        }
        assert(out@ =~= old(out)@ + self.wire());
    }
}

/// Whether two byte strings hold the same bytes.
pub fn same_bytes(a: &[u8], b: &[u8]) -> (same: bool)
    ensures
        same == (a@ == b@),
{
    if a.len() != b.len() {
        return false;
    }
    let mut i: usize = 0;
    while i < a.len()
        invariant
            0 <= i <= a@.len(),
            a@.len() == b@.len(),
            a@.take(i as int) == b@.take(i as int),
        decreases a@.len() - i,
    {
        if a[i] != b[i] {
            return false;
        }
        assert(a@.take(i + 1) =~= a@.take(i as int).push(a@[i as int]));
        assert(b@.take(i + 1) =~= b@.take(i as int).push(b@[i as int]));
        i = i + 1;
    }
    assert(a@.take(i as int) =~= a@);
    assert(b@.take(i as int) =~= b@);
    true
}

/// The length of the `ReplyTo` encoding that `b` starts with, or why `b`
/// starts with none.
pub open spec fn reply_to_span(b: Seq<u8>) -> Result<nat, DecodeError> {
    if b.len() < 1 {
        Err(DecodeError::Truncated)
    } else if b[0] == 0 {
        if b.len() < 5 {
            Err(DecodeError::Truncated)
        } else {
            Ok(5)
        }
    } else if b[0] == 1 {
        if b.len() < 2 {
            Err(DecodeError::Truncated)
        } else if b[1] == 0 {
            if b.len() < 8 {
                Err(DecodeError::Truncated)
            } else {
                Ok(8)
            }
        } else if b[1] == 1 {
            if b.len() < 20 {
                Err(DecodeError::Truncated)
            } else {
                Ok(20)
            }
        } else {
            Err(DecodeError::UnknownDiscriminant)
        }
    } else {
        Err(DecodeError::UnknownDiscriminant)
    }
}

impl ReplyTo {
    /// The encoding: one tag byte, then the handle or the socket address.
    pub open spec fn wire(self) -> Seq<u8> {
        match self {
            ReplyTo::Mpsc(handle) => seq![0u8] + u32_le(handle),
            ReplyTo::UdpIp(address) => seq![1u8] + address.wire(),
        }
    }

    /// Structural equality.
    pub fn equals(&self, other: &ReplyTo) -> (same: bool)
        ensures
            same == (*self == *other),
    {
        match (self, other) {
            (ReplyTo::Mpsc(a), ReplyTo::Mpsc(b)) => *a == *b,
            (ReplyTo::UdpIp(a), ReplyTo::UdpIp(b)) => a.equals(b),
            _ => false,
        }
    }

    /// Appends the encoding.
    pub fn encode_into(&self, out: &mut Vec<u8>)
        ensures
            final(out)@ == old(out)@ + self.wire(),
    {
        match self {
            ReplyTo::Mpsc(handle) => {
                out.push(0);
                put_u32(out, *handle);
            },
            ReplyTo::UdpIp(address) => {
                out.push(1);
                address.encode_into(out);
            },
        }
        assert(out@ =~= old(out)@ + self.wire());
    }

    /// Reads the value that `bytes` starts with, and says how many bytes it
    /// took.
    pub fn decode_front(bytes: &[u8]) -> (r: Result<(ReplyTo, usize), DecodeError>)
        ensures
            match r {
                Ok((value, used)) => reply_to_span(bytes@) == Ok::<nat, DecodeError>(used as nat)
                    && value.wire() == bytes@.take(used as int),
                Err(e) => reply_to_span(bytes@) == Err::<nat, DecodeError>(e),
            },
    {
        let len: usize = bytes.len();
        if len < 1 {
            return Err(DecodeError::Truncated);
        }
        let tag: u8 = bytes[0];
        if tag == 0 {
            if len < 5 {
                return Err(DecodeError::Truncated);
            }
            let handle = take_u32(bytes, 1);
            let value = ReplyTo::Mpsc(handle);
            assert(value.wire() =~= bytes@.take(5));
            Ok((value, 5))
        } else if tag == 1 {
            if len < 2 {
                return Err(DecodeError::Truncated);
            }
            let family: u8 = bytes[1];
            if family == 0 {
                if len < 8 {
                    return Err(DecodeError::Truncated);
                }
                let ip: [u8; 4] = [bytes[2], bytes[3], bytes[4], bytes[5]];
                let port = take_u16(bytes, 6);
                let value = ReplyTo::UdpIp(SocketAddress::V4 { ip, port });
                assert(value.wire() =~= bytes@.take(8));
                Ok((value, 8))
            } else if family == 1 {
                if len < 20 {
                    return Err(DecodeError::Truncated);
                }
                let mut ip: [u8; 16] = [0; 16];
                let mut i: usize = 0;
                while i < 16
                    invariant
                        0 <= i <= 16,
                        bytes@.len() >= 20,
                        forall|j: int| 0 <= j < i ==> ip@[j] == bytes@[2 + j],
                    decreases 16 - i,
                {
                    ip[i] = bytes[2 + i];
                    i = i + 1;
                }
                let port = take_u16(bytes, 18);
                let value = ReplyTo::UdpIp(SocketAddress::V6 { ip, port });
                assert(value.wire() =~= bytes@.take(20));
                Ok((value, 20))
            } else {
                Err(DecodeError::UnknownDiscriminant)
            }
        } else {
            Err(DecodeError::UnknownDiscriminant)
        }
    }
}

/// An encoded `ReplyTo` is found again at the front of whatever follows it.
pub proof fn lemma_reply_to_span(value: ReplyTo, rest: Seq<u8>)
    ensures
        reply_to_span(value.wire() + rest) == Ok::<nat, DecodeError>(value.wire().len()),
        1 <= value.wire().len() <= REPLY_TO_MAX_SIZE,
{
    let b = value.wire() + rest;
    match value {
        ReplyTo::Mpsc(handle) => {
            assert(b[0] == 0);
        },
        ReplyTo::UdpIp(address) => {
            assert(b[0] == 1);
            match address {
                SocketAddress::V4 { ip, port } => {
                    assert(b[1] == 0);
                },
                SocketAddress::V6 { ip, port } => {
                    assert(b[1] == 1);
                },
            }
        },
    }
}

/// Two values with the same encoding are the same value.
pub proof fn lemma_reply_to_unique(a: ReplyTo, b: ReplyTo)
    requires
        a.wire() == b.wire(),
    ensures
        a == b,
{
    let wa = a.wire();
    let wb = b.wire();
    assert(wa[0] == wb[0]);
    match (a, b) {
        (ReplyTo::Mpsc(x), ReplyTo::Mpsc(y)) => {
            assert(u32_le(x) =~= wa.subrange(1, 5));
            assert(u32_le(y) =~= wb.subrange(1, 5));
            lemma_u32_le_inverse(x, seq![]);
            lemma_u32_le_inverse(y, seq![]);
        },
        (ReplyTo::UdpIp(x), ReplyTo::UdpIp(y)) => {
            assert(wa[1] == wb[1]);
            match (x, y) {
                (SocketAddress::V4 { ip: i, port: p }, SocketAddress::V4 { ip: j, port: q }) => {
                    assert(i@ =~= wa.subrange(2, 6));
                    assert(j@ =~= wb.subrange(2, 6));
                    assert(i =~= j);
                    assert(u16_le(p) =~= wa.subrange(6, 8));
                    assert(u16_le(q) =~= wb.subrange(6, 8));
                    lemma_le_unique_u16(p, q);
                },
                (SocketAddress::V6 { ip: i, port: p }, SocketAddress::V6 { ip: j, port: q }) => {
                    assert(i@ =~= wa.subrange(2, 18));
                    assert(j@ =~= wb.subrange(2, 18));
                    assert(i =~= j);
                    assert(u16_le(p) =~= wa.subrange(18, 20));
                    assert(u16_le(q) =~= wb.subrange(18, 20));
                    lemma_le_unique_u16(p, q);
                },
                _ => {},
            }
        },
        _ => {},
    }
}

impl LinkId {
    /// The identity of a link that listens on `local` and has met no peer.
    pub fn listen(local: ReplyTo) -> (id: LinkId)
        ensures
            id == (LinkId { local, remote: None }),
    {
        LinkId { local, remote: None }
    }

    /// The same link once the peer `remote` is known.
    pub fn remote(self, remote: ReplyTo) -> (id: LinkId)
        ensures
            id == (LinkId { local: self.local, remote: Some(remote) }),
    {
        LinkId { local: self.local, remote: Some(remote) }
    }

    /// Whether the link has met no peer yet.
    pub fn is_listening(&self) -> (listening: bool)
        ensures
            listening == (self.remote is None),
    {
        self.remote.is_none()
    }

    /// Whether both ends match.
    pub fn equals(&self, other: &LinkId) -> (same: bool)
        ensures
            same == (*self == *other),
    {
        if !self.local.equals(&other.local) {
            return false;
        }
        match (&self.remote, &other.remote) {
            (None, None) => true,
            (Some(a), Some(b)) => a.equals(b),
            _ => false,
        }
    }
}

} // verus!
