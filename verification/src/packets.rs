//! The narrow waist: the request and response that every node understands,
//! the link packet that carries one of them hop by hop, and their encoding.

use crate::constants::FRAGMENT_SIZE;
use crate::constants::MTU;
use crate::hbfi::lemma_hbfi_unique;
use crate::hbfi::HBFI;
use crate::hbfi::HBFI_SIZE;
use crate::link::lemma_reply_to_span;
use crate::link::lemma_reply_to_unique;
use crate::link::reply_to_span;
use crate::link::ReplyTo;
use crate::wire::lemma_le_unique_u16;
use crate::wire::lemma_le_unique_u64;
use crate::wire::lemma_u16_le_inverse;
use crate::wire::put_bytes;
use crate::wire::put_u16;
use crate::wire::put_u64;
use crate::wire::take_u16;
use crate::wire::take_u64;
use crate::wire::u16_le;
use crate::wire::u16_of_le;
use crate::wire::u64_le;
use crate::wire::DecodeError;
use vstd::prelude::*;

verus! {

/// Length in bytes of an encoded request.
pub const REQUEST_SIZE: usize = 25;

/// Length in bytes of an encoded response.
pub const RESPONSE_SIZE: usize = 1067;

/// One fragment of an object: a buffer of fixed capacity of which the first
/// `len` bytes are the payload.
#[derive(Clone, Copy, Debug, PartialEq, Eq)]
pub struct Data {
    /// Number of meaningful bytes at the front of `data`.
    pub len: u16,
    /// The buffer. All of it travels on the wire.
    pub data: [u8; 1024],
}

/// The packet of the narrow waist.
#[derive(Clone, Copy, Debug, PartialEq, Eq)]
pub enum NarrowWaistPacket {
    /// A query for the chunk that `hbfi` names.
    Request { hbfi: HBFI },
    /// Chunk `offset` of the `total` chunks of the object that `hbfi` names.
    Response { hbfi: HBFI, data: Data, offset: u64, total: u64 },
}

/// What a link carries: a narrow-waist packet and the hop to answer to.
#[derive(Clone, Copy, Debug, PartialEq, Eq)]
pub struct LinkPacket {
    /// The immediate upstream hop, rewritten at every hop.
    pub reply_to: ReplyTo,
    /// The packet carried.
    pub nw: NarrowWaistPacket,
}

impl Data {
    /// Whether the announced length fits the buffer.
    pub open spec fn wf(self) -> bool {
        self.len <= FRAGMENT_SIZE
    }

    /// The meaningful bytes.
    pub open spec fn payload(self) -> Seq<u8> {
        self.data@.take(self.len as int)
    }

    /// The encoding: the length in two bytes, then the whole buffer.
    pub open spec fn wire(self) -> Seq<u8> {
        u16_le(self.len) + self.data@
    }

    /// A fragment that carries `payload`, the rest of the buffer zeroed;
    /// `None` when the payload exceeds the capacity of a fragment.
    pub fn new(payload: &[u8]) -> (r: Option<Data>)
        ensures
            r is Some <==> payload@.len() <= FRAGMENT_SIZE,
            r matches Some(d) ==> d.wf() && d.payload() == payload@ && forall|i: int|
                payload@.len() <= i < 1024 ==> d.data@[i] == 0,
    {
        if payload.len() > 1024 {
            return None;
        }
        let mut data: [u8; 1024] = [0; 1024];
        let mut i: usize = 0;
        while i < payload.len()
            invariant
                0 <= i <= payload@.len() <= 1024,
                forall|j: int| 0 <= j < i ==> data@[j] == payload@[j],
                forall|j: int| i <= j < 1024 ==> data@[j] == 0,
            decreases payload@.len() - i,
        {
            data[i] = payload[i];
            i = i + 1;
        }
        let d = Data { len: payload.len() as u16, data };
        assert(d.payload() =~= payload@);
        Some(d)
    }

    /// The meaningful bytes of a well-formed fragment.
    pub fn to_vec(&self) -> (bytes: Vec<u8>)
        requires
            self.wf(),
        ensures
            bytes@ == self.payload(),
    {
        let mut bytes: Vec<u8> = Vec::new();
        let mut i: usize = 0;
        while i < self.len as usize
            invariant
                0 <= i <= self.len <= 1024,
                bytes@ == self.data@.take(i as int),
            decreases self.len - i,
        {
            bytes.push(self.data[i]);
            assert(bytes@ =~= self.data@.take(i + 1));
            i = i + 1;
        }
        bytes
    }

    /// Structural equality.
    pub fn equals(&self, other: &Data) -> (same: bool)
        ensures
            same == (*self == *other),
    {
        let same = self.len == other.len && crate::link::same_bytes(
            self.data.as_slice(),
            other.data.as_slice(),
        );
        assert(same ==> self.data =~= other.data);
        same
    }
}

/// The length of the narrow-waist encoding that `b` starts with, or why `b`
/// starts with none.
pub open spec fn narrow_waist_span(b: Seq<u8>) -> Result<nat, DecodeError> {
    if b.len() < 1 {
        Err(DecodeError::Truncated)
    } else if b[0] == 0 {
        if b.len() < REQUEST_SIZE {
            Err(DecodeError::Truncated)
        } else {
            Ok(REQUEST_SIZE as nat)
        }
    } else if b[0] == 1 {
        if b.len() < 27 {
            Err(DecodeError::Truncated)
        } else if u16_of_le(b.subrange(25, 27)) > FRAGMENT_SIZE {
            Err(DecodeError::FragmentTooLong)
        } else if b.len() < RESPONSE_SIZE {
            Err(DecodeError::Truncated)
        } else {
            Ok(RESPONSE_SIZE as nat)
        }
    } else {
        Err(DecodeError::UnknownDiscriminant)
    }
}

/// Why `b` is not the encoding of a narrow-waist packet, if it is not.
pub open spec fn narrow_waist_fault(b: Seq<u8>) -> Option<DecodeError> {
    match narrow_waist_span(b) {
        Err(e) => Some(e),
        Ok(n) => if b.len() > n {
            Some(DecodeError::TrailingBytes)
        } else {
            None
        },
    }
}

/// Why `b` is not the encoding of a link packet, if it is not: the first
/// fault met when reading the hop, then the packet, then looking for the
/// end of the input.
pub open spec fn link_packet_fault(b: Seq<u8>) -> Option<DecodeError> {
    match reply_to_span(b) {
        Err(e) => Some(e),
        Ok(n) => narrow_waist_fault(b.skip(n as int)),
    }
}

impl NarrowWaistPacket {
    /// Whether the packet can be encoded and read back: a response's
    /// payload length fits its buffer.
    pub open spec fn wf(self) -> bool {
        match self {
            NarrowWaistPacket::Request { .. } => true,
            NarrowWaistPacket::Response { data, .. } => data.wf(),
        }
    }

    /// The identifier that the packet asks for or answers.
    pub open spec fn spec_hbfi(&self) -> HBFI {
        match *self {
            NarrowWaistPacket::Request { hbfi } => hbfi,
            NarrowWaistPacket::Response { hbfi, .. } => hbfi,
        }
    }

    /// The encoding: one tag byte, then the fields in the order of their
    /// declaration.
    pub open spec fn wire(self) -> Seq<u8> {
        match self {
            NarrowWaistPacket::Request { hbfi } => seq![0u8] + hbfi.wire(),
            NarrowWaistPacket::Response { hbfi, data, offset, total } => seq![1u8] + hbfi.wire()
                + data.wire() + u64_le(offset) + u64_le(total),
        }
    }

    /// The identifier that the packet asks for or answers.
    #[verifier::when_used_as_spec(spec_hbfi)]
    pub fn hbfi(&self) -> (hbfi: HBFI)
        ensures
            hbfi == self.spec_hbfi(),
    {
        match self {
            NarrowWaistPacket::Request { hbfi } => *hbfi,
            NarrowWaistPacket::Response { hbfi, .. } => *hbfi,
        }
    }

    /// Structural equality.
    pub fn equals(&self, other: &NarrowWaistPacket) -> (same: bool)
        ensures
            same == (*self == *other),
    {
        match (self, other) {
            (NarrowWaistPacket::Request { hbfi: a }, NarrowWaistPacket::Request { hbfi: b }) => {
                a.equals(b)
            },
            (
                NarrowWaistPacket::Response { hbfi: a, data: d, offset: o, total: t },
                NarrowWaistPacket::Response { hbfi: b, data: e, offset: p, total: u },
            ) => a.equals(b) && *o == *p && *t == *u && d.equals(e),
            _ => false,
        }
    }

    /// Appends the encoding.
    pub fn encode_into(&self, out: &mut Vec<u8>)
        ensures
            final(out)@ == old(out)@ + self.wire(),
    {
        match self {
            NarrowWaistPacket::Request { hbfi } => {
                out.push(0);
                hbfi.encode_into(out);
            },
            NarrowWaistPacket::Response { hbfi, data, offset, total } => {
                out.push(1);
                hbfi.encode_into(out);
                put_u16(out, data.len);
                put_bytes(out, data.data.as_slice());
                put_u64(out, *offset);
                put_u64(out, *total);
            },
        }
        assert(out@ =~= old(out)@ + self.wire());
    }

    /// The encoding: 25 bytes for a request, 1067 for a response.
    pub fn encode(&self) -> (bytes: Vec<u8>)
        ensures
            bytes@ == self.wire(),
            bytes@.len() == if self is Request {
                REQUEST_SIZE
            } else {
                RESPONSE_SIZE
            },
    {
        let mut bytes: Vec<u8> = Vec::new();
        self.encode_into(&mut bytes);
        assert(bytes@ =~= self.wire());
        bytes
    }

    /// Reads the packet that `bytes` starts with, and says how many bytes it
    /// took.
    pub fn decode_front(bytes: &[u8]) -> (r: Result<(NarrowWaistPacket, usize), DecodeError>)
        ensures
            match r {
                Ok((packet, used)) => narrow_waist_span(bytes@) == Ok::<nat, DecodeError>(
                    used as nat,
                ) && packet.wf() && packet.wire() == bytes@.take(used as int),
                Err(e) => narrow_waist_span(bytes@) == Err::<nat, DecodeError>(e),
            },
    {
        let len: usize = bytes.len();
        if len < 1 {
            return Err(DecodeError::Truncated);
        }
        let tag: u8 = bytes[0];
        if tag == 0 {
            if len < REQUEST_SIZE {
                return Err(DecodeError::Truncated);
            }
            let hbfi = HBFI::decode_at(bytes, 1);
            let packet = NarrowWaistPacket::Request { hbfi };
            assert(packet.wire() =~= bytes@.take(25));
            Ok((packet, REQUEST_SIZE))
        } else if tag == 1 {
            if len < 27 {
                return Err(DecodeError::Truncated);
            }
            let hbfi = HBFI::decode_at(bytes, 1);
            let announced = take_u16(bytes, 25);
            if announced > FRAGMENT_SIZE {
                return Err(DecodeError::FragmentTooLong);
            }
            if len < RESPONSE_SIZE {
                return Err(DecodeError::Truncated);
            }
            let mut buffer: [u8; 1024] = [0; 1024];
            let mut i: usize = 0;
            while i < 1024
                invariant
                    0 <= i <= 1024,
                    bytes@.len() >= RESPONSE_SIZE,
                    forall|j: int| 0 <= j < i ==> buffer@[j] == bytes@[27 + j],
                decreases 1024 - i,
            {
                buffer[i] = bytes[27 + i];
                i = i + 1;
            }
            let offset = take_u64(bytes, 1051);
            let total = take_u64(bytes, 1059);
            let data = Data { len: announced, data: buffer };
            let packet = NarrowWaistPacket::Response { hbfi, data, offset, total };
            proof {
                assert(buffer@ =~= bytes@.subrange(27, 1051));
                assert(data.wire() =~= bytes@.subrange(25, 1051));
                assert(packet.wire() =~= seq![1u8] + bytes@.subrange(1, 25) + bytes@.subrange(
                    25,
                    1051,
                ) + bytes@.subrange(1051, 1059) + bytes@.subrange(1059, 1067));
                assert(packet.wire() =~= bytes@.take(1067));
            }
            Ok((packet, RESPONSE_SIZE))
        } else {
            Err(DecodeError::UnknownDiscriminant)
        }
    }

    /// Reads a packet from exactly its encoding.
    ///
    /// Succeeds on the encodings of the well-formed packets and on nothing
    /// else; a failure names the first fault met.
    pub fn decode(bytes: &[u8]) -> (r: Result<NarrowWaistPacket, DecodeError>)
        ensures
            match r {
                Ok(packet) => packet.wf() && packet.wire() == bytes@,
                Err(e) => narrow_waist_fault(bytes@) == Some(e),
            },
            forall|p: NarrowWaistPacket|
                p.wf() && p.wire() == bytes@ ==> r == Ok::<NarrowWaistPacket, DecodeError>(p),
    {
        match NarrowWaistPacket::decode_front(bytes) {
            Err(e) => {
                assert forall|p: NarrowWaistPacket| p.wf() && p.wire() == bytes@ implies false by {
                    lemma_narrow_waist_span(p, seq![]);
                    assert(p.wire() + Seq::<u8>::empty() =~= p.wire());
                }
                Err(e)
            },
            Ok((packet, used)) => {
                if bytes.len() > used {
                    assert forall|p: NarrowWaistPacket|
                        p.wf() && p.wire() == bytes@ implies false by {
                        lemma_narrow_waist_span(p, seq![]);
                        assert(p.wire() + Seq::<u8>::empty() =~= p.wire());
                    }
                    Err(DecodeError::TrailingBytes)
                } else {
                    assert(bytes@.take(used as int) =~= bytes@);
                    assert forall|p: NarrowWaistPacket|
                        p.wf() && p.wire() == bytes@ implies p == packet by {
                        lemma_narrow_waist_unique(p, packet);
                    }
                    Ok(packet)
                }
            },
        }
    }
}

/// An encoded packet is found again at the front of whatever follows it.
pub proof fn lemma_narrow_waist_span(packet: NarrowWaistPacket, rest: Seq<u8>)
    requires
        packet.wf(),
    ensures
        narrow_waist_span(packet.wire() + rest) == Ok::<nat, DecodeError>(packet.wire().len()),
        packet.wire().len() == if packet is Request {
            REQUEST_SIZE
        } else {
            RESPONSE_SIZE
        },
{
    let b = packet.wire() + rest;
    match packet {
        NarrowWaistPacket::Request { hbfi } => {
            assert(b[0] == 0);
        },
        NarrowWaistPacket::Response { hbfi, data, offset, total } => {
            assert(b[0] == 1);
            assert(b.subrange(25, 27) =~= u16_le(data.len));
            lemma_u16_le_inverse(data.len, seq![]);
        },
    }
}

/// Where the fields of a response lie in its encoding.
proof fn lemma_response_layout(hbfi: HBFI, data: Data, offset: u64, total: u64)
    ensures
        ({
            let w = (NarrowWaistPacket::Response { hbfi, data, offset, total }).wire();
            &&& w.len() == RESPONSE_SIZE
            &&& w[0] == 1
            &&& w.subrange(1, 25) == hbfi.wire()
            &&& w.subrange(25, 27) == u16_le(data.len)
            &&& w.subrange(27, 1051) == data.data@
            &&& w.subrange(1051, 1059) == u64_le(offset)
            &&& w.subrange(1059, 1067) == u64_le(total)
        }),
{
    let w = (NarrowWaistPacket::Response { hbfi, data, offset, total }).wire();
    let front = seq![1u8] + hbfi.wire();
    let middle = front + data.wire();
    assert(front.len() == 25);
    assert(middle.len() == 1051);
    assert(w == middle + u64_le(offset) + u64_le(total));
    assert(w.subrange(1, 25) =~= hbfi.wire());
    assert(w.subrange(25, 27) =~= u16_le(data.len));
    assert(w.subrange(27, 1051) =~= data.data@);
    assert(w.subrange(1051, 1059) =~= u64_le(offset));
    assert(w.subrange(1059, 1067) =~= u64_le(total));
}

/// Two packets with the same encoding are the same packet.
pub proof fn lemma_narrow_waist_unique(a: NarrowWaistPacket, b: NarrowWaistPacket)
    requires
        a.wire() == b.wire(),
    ensures
        a == b,
{
    let wa = a.wire();
    let wb = b.wire();
    assert(wa[0] == wb[0]);
    match (a, b) {
        (NarrowWaistPacket::Request { hbfi: x }, NarrowWaistPacket::Request { hbfi: y }) => {
            assert(x.wire() =~= wa.subrange(1, 25));
            assert(y.wire() =~= wb.subrange(1, 25));
            lemma_hbfi_unique(x, y);
        },
        (
            NarrowWaistPacket::Response { hbfi: x, data: d, offset: o, total: t },
            NarrowWaistPacket::Response { hbfi: y, data: e, offset: p, total: u },
        ) => {
            lemma_response_layout(x, d, o, t);
            lemma_response_layout(y, e, p, u);
            lemma_hbfi_unique(x, y);
            lemma_le_unique_u16(d.len, e.len);
            assert(d.data =~= e.data);
            lemma_le_unique_u64(o, p);
            lemma_le_unique_u64(t, u);
            assert(d == e);
        },
        (
            NarrowWaistPacket::Request { hbfi: x },
            NarrowWaistPacket::Response { hbfi: y, data: e, offset: p, total: u },
        ) => {
            lemma_response_layout(y, e, p, u);
            assert(wa[0] == 0);
        },
        (
            NarrowWaistPacket::Response { hbfi: x, data: d, offset: o, total: t },
            NarrowWaistPacket::Request { hbfi: y },
        ) => {
            lemma_response_layout(x, d, o, t);
            assert(wb[0] == 0);
        },
    }
}

impl LinkPacket {
    /// Whether the packet can be encoded and read back.
    pub open spec fn wf(self) -> bool {
        self.nw.wf()
    }

    /// The encoding: the hop, then the narrow-waist packet.
    pub open spec fn wire(self) -> Seq<u8> {
        self.reply_to.wire() + self.nw.wire()
    }

    /// A link packet made of its parts.
    pub fn new(reply_to: ReplyTo, nw: NarrowWaistPacket) -> (packet: LinkPacket)
        ensures
            packet == (LinkPacket { reply_to, nw }),
    {
        LinkPacket { reply_to, nw }
    }

    /// Structural equality.
    pub fn equals(&self, other: &LinkPacket) -> (same: bool)
        ensures
            same == (*self == *other),
    {
        self.reply_to.equals(&other.reply_to) && self.nw.equals(&other.nw)
    }

    /// The encoding. Whatever the packet holds, it fits one datagram.
    pub fn encode(&self) -> (bytes: Vec<u8>)
        ensures
            bytes@ == self.wire(),
            bytes@.len() <= MTU,
    {
        let mut bytes: Vec<u8> = Vec::new();
        self.reply_to.encode_into(&mut bytes);
        self.nw.encode_into(&mut bytes);
        proof {
            assert(bytes@ =~= self.wire());
            lemma_link_packet_fits_mtu(*self);
        }
        bytes
    }

    /// Reads a link packet from exactly its encoding.
    ///
    /// Succeeds on the encodings of the well-formed packets and on nothing
    /// else; a failure names the first fault met.
    pub fn decode(bytes: &[u8]) -> (r: Result<LinkPacket, DecodeError>)
        ensures
            match r {
                Ok(packet) => packet.wf() && packet.wire() == bytes@,
                Err(e) => link_packet_fault(bytes@) == Some(e),
            },
            forall|p: LinkPacket|
                p.wf() && p.wire() == bytes@ ==> r == Ok::<LinkPacket, DecodeError>(p),
    {
        match ReplyTo::decode_front(bytes) {
            Err(e) => {
                assert forall|p: LinkPacket| p.wf() && p.wire() == bytes@ implies false by {
                    lemma_link_packet_round_trip(p);
                }
                Err(e)
            },
            Ok((reply_to, used)) => {
                let rest = vstd::slice::slice_subrange(bytes, used, bytes.len());
                assert(rest@ =~= bytes@.skip(used as int));
                match NarrowWaistPacket::decode(rest) {
                    Err(e) => {
                        assert forall|p: LinkPacket|
                            p.wf() && p.wire() == bytes@ implies false by {
                            lemma_link_packet_round_trip(p);
                        }
                        Err(e)
                    },
                    Ok(nw) => {
                        let packet = LinkPacket { reply_to, nw };
                        assert(packet.wire() =~= bytes@);
                        assert forall|p: LinkPacket|
                            p.wf() && p.wire() == bytes@ implies p == packet by {
                            lemma_link_packet_unique(p, packet);
                        }
                        Ok(packet)
                    },
                }
            },
        }
    }
}

/// Reading back what was written finds no fault: the encoding of a
/// well-formed link packet is accepted.
pub proof fn lemma_link_packet_round_trip(packet: LinkPacket)
    requires
        packet.wf(),
    ensures
        link_packet_fault(packet.wire()) is None,
{
    let b = packet.wire();
    lemma_reply_to_span(packet.reply_to, packet.nw.wire());
    let n = packet.reply_to.wire().len();
    assert(b.skip(n as int) =~= packet.nw.wire());
    lemma_narrow_waist_span(packet.nw, seq![]);
    assert(packet.nw.wire() + Seq::<u8>::empty() =~= packet.nw.wire());
}

/// Two link packets with the same encoding are the same packet.
pub proof fn lemma_link_packet_unique(a: LinkPacket, b: LinkPacket)
    requires
        a.wire() == b.wire(),
    ensures
        a == b,
{
    lemma_reply_to_span(a.reply_to, a.nw.wire());
    lemma_reply_to_span(b.reply_to, b.nw.wire());
    let n = a.reply_to.wire().len();
    assert(a.reply_to.wire() =~= a.wire().take(n as int));
    assert(b.reply_to.wire() =~= b.wire().take(n as int));
    lemma_reply_to_unique(a.reply_to, b.reply_to);
    assert(a.nw.wire() =~= a.wire().skip(n as int));
    assert(b.nw.wire() =~= b.wire().skip(n as int));
    lemma_narrow_waist_unique(a.nw, b.nw);
}

/// Every link packet, whatever its hop, identifier, payload, offset and
/// total, encodes to at most `MTU` bytes.
pub proof fn lemma_link_packet_fits_mtu(packet: LinkPacket)
    ensures
        packet.wire().len() <= 1087,
        packet.wire().len() <= MTU,
{
    lemma_reply_to_span(packet.reply_to, seq![]);
}

/// A datagram that was cut off is `Truncated`: that is the fault of every
/// proper front of the encoding of a well-formed link packet.
pub proof fn lemma_cut_off_is_truncated(packet: LinkPacket, n: int)
    requires
        packet.wf(),
        0 <= n < packet.wire().len(),
    ensures
        link_packet_fault(packet.wire().take(n)) == Some(DecodeError::Truncated),
{
    let w = packet.wire();
    let b = w.take(n);
    let hop = packet.reply_to.wire();
    let nw = packet.nw.wire();
    lemma_reply_to_span(packet.reply_to, nw);
    lemma_narrow_waist_span(packet.nw, seq![]);
    assert(nw + Seq::<u8>::empty() =~= nw);
    let r = hop.len() as int;
    assert(forall|i: int| 0 <= i < n ==> b[i] == w[i]);
    if n >= 1 {
        assert(b[0] == w[0]);
    }
    if n >= 2 {
        assert(b[1] == w[1]);
    }
    if n >= r {
        assert(reply_to_span(b) == Ok::<nat, DecodeError>(r as nat));
        let rest = b.skip(r);
        assert(rest =~= nw.take(n - r));
        if rest.len() >= 1 {
            assert(rest[0] == nw[0]);
        }
        match packet.nw {
            NarrowWaistPacket::Request { hbfi } => {},
            NarrowWaistPacket::Response { hbfi, data, offset, total } => {
                lemma_response_layout(hbfi, data, offset, total);
                if rest.len() >= 27 {
                    assert(rest.subrange(25, 27) =~= nw.subrange(25, 27));
                    lemma_u16_le_inverse(data.len, seq![]);
                }
            },
        }
    }
}

/// A datagram with something after the packet has `TrailingBytes`: that is
/// the fault of the encoding of a well-formed link packet followed by
/// anything at all.
pub proof fn lemma_extended_has_trailing_bytes(packet: LinkPacket, extra: Seq<u8>)
    requires
        packet.wf(),
        extra.len() > 0,
    ensures
        link_packet_fault(packet.wire() + extra) == Some(DecodeError::TrailingBytes),
{
    let b = packet.wire() + extra;
    let hop = packet.reply_to.wire();
    let nw = packet.nw.wire();
    assert(b =~= hop + (nw + extra));
    lemma_reply_to_span(packet.reply_to, nw + extra);
    assert(b.skip(hop.len() as int) =~= nw + extra);
    lemma_narrow_waist_span(packet.nw, extra);
}

} // verus!
