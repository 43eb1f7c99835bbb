//! Links: what a transport puts on the wire for a packet, and what it makes
//! of the bytes that arrive. Moving the bytes belongs to the caller.

use crate::constants::MTU;
use crate::link::LinkId;
use crate::link::ReplyTo;
use crate::packets::link_packet_fault;
use crate::packets::LinkPacket;
use std::collections::VecDeque;
use vstd::prelude::*;

verus! {

/// The transports that a link can run over.
#[derive(Clone, Copy, Debug, PartialEq, Eq, Structural)]
pub enum LinkKind {
    /// A channel inside the process: nothing is lost, order is kept.
    MpscChannel,
    /// The same, with bytes damaged on the way, for testing.
    MpscCorruptor,
    /// UDP datagrams: may be lost, may change order.
    UdpIp,
}

/// One end of a link over a given transport.
#[derive(Clone, Copy, Debug, PartialEq, Eq)]
pub struct Link {
    id: LinkId,
    kind: LinkKind,
}

/// Whether `hop` is an address of the transport `kind`: a socket address
/// for UDP, a handle for the channels inside the process.
pub open spec fn addresses(kind: LinkKind, hop: ReplyTo) -> bool {
    (kind is UdpIp) == (hop is UdpIp)
}

/// Whether a link of the two ends `id` can run over `kind`: both ends are
/// addresses of that transport.
pub open spec fn fits(id: LinkId, kind: LinkKind) -> bool {
    &&& addresses(kind, id.local)
    &&& id.remote matches Some(remote) ==> addresses(kind, remote)
}

/// `bytes` with the bits of `mask` flipped in the byte at `at`, if there is
/// one.
pub open spec fn corrupted(bytes: Seq<u8>, at: int, mask: u8) -> Seq<u8> {
    if 0 <= at < bytes.len() {
        bytes.update(at, bytes[at] ^ mask)
    } else {
        bytes
    }
}

/// Flips the bits of `mask` in the byte at `at`, if there is one.
pub fn corrupt(bytes: &mut Vec<u8>, at: usize, mask: u8)
    ensures
        final(bytes)@ == corrupted(old(bytes)@, at as int, mask),
{
    if at < bytes.len() {
        let damaged: u8 = bytes[at] ^ mask;
        bytes.set(at, damaged);
    }
}

fn is_address(kind: LinkKind, hop: &ReplyTo) -> (r: bool)
    ensures
        r == addresses(kind, *hop),
{
    match (kind, hop) {
        (LinkKind::UdpIp, ReplyTo::UdpIp(_)) => true,
        (LinkKind::UdpIp, ReplyTo::Mpsc(_)) => false,
        (_, ReplyTo::UdpIp(_)) => false,
        (_, ReplyTo::Mpsc(_)) => true,
    }
}

impl Link {
    /// The two ends.
    pub closed spec fn id(&self) -> LinkId {
        self.id
    }

    /// The transport.
    pub closed spec fn kind(&self) -> LinkKind {
        self.kind
    }

    /// The ends are addresses of the transport.
    pub closed spec fn wf(&self) -> bool {
        fits(self.id, self.kind)
    }

    /// Whether the link carries `packet`: the hop to answer to is an
    /// address of the transport.
    pub open spec fn carries(&self, packet: LinkPacket) -> bool {
        addresses(self.kind(), packet.reply_to)
    }

    /// A link of the ends `id` over `kind`; `None` when an end is not an
    /// address of that transport.
    pub fn new(id: LinkId, kind: LinkKind) -> (r: Option<Link>)
        ensures
            r is Some <==> fits(id, kind),
            r matches Some(link) ==> link.wf() && link.id() == id && link.kind() == kind,
    {
        let remote_fits = match &id.remote {
            Some(remote) => is_address(kind, remote),
            None => true,
        };
        if is_address(kind, &id.local) && remote_fits {
            Some(Link { id, kind })
        } else {
            None
        }
    }

    /// The two ends.
    pub fn link_id(&self) -> (id: LinkId)
        ensures
            id == self.id(),
    {
        self.id
    }

    /// The datagram to send for `packet`: its encoding, which fits the
    /// `MTU`. `None`, and the packet is dropped, when the link has met no
    /// peer or does not carry the packet. Nothing in the packet is
    /// rewritten.
    pub fn transmit(&self, packet: &LinkPacket) -> (r: Option<Vec<u8>>)
        ensures
            r is Some <==> self.id().remote is Some && self.carries(*packet),
            r matches Some(bytes) ==> bytes@ == packet.wire() && bytes@.len() <= MTU,
    {
        if self.id.remote.is_some() && is_address(self.kind, &packet.reply_to) {
            Some(packet.encode())
        } else {
            None
        }
    }

    /// The packet that arrived as `bytes`. `None`, and the datagram is
    /// dropped, when the bytes encode no packet or one that the link does
    /// not carry.
    pub fn deliver(&self, bytes: &[u8]) -> (r: Option<LinkPacket>)
        ensures
            match r {
                Some(packet) => packet.wf() && packet.wire() == bytes@ && self.carries(packet),
                None => forall|p: LinkPacket| p.wf() && p.wire() == bytes@ ==> !self.carries(p),
            },
            link_packet_fault(bytes@) is Some ==> r is None,
    {
        match LinkPacket::decode(bytes) {
            Ok(packet) => {
                if is_address(self.kind, &packet.reply_to) {
                    Some(packet)
                } else {
                    None
                }
            },
            Err(_) => None,
        }
    }
}

/// What an inbound queue holds.
pub struct InboxState {
    /// The packets waiting, the oldest first.
    pub waiting: Seq<LinkPacket>,
    /// How many packets may wait.
    pub capacity: nat,
    /// How many packets found the queue full and were dropped. The count
    /// stops at the largest value that 64 bits hold.
    pub dropped: u64,
}

/// The queue after `packet` was offered: it waits behind the others when
/// there is room, and is dropped and counted when there is none.
pub open spec fn offered(s: InboxState, packet: LinkPacket) -> InboxState {
    if s.waiting.len() < s.capacity {
        InboxState { waiting: s.waiting.push(packet), ..s }
    } else if s.dropped < u64::MAX {
        InboxState { dropped: (s.dropped + 1) as u64, ..s }
    } else {
        s
    }
}

/// The queue after its oldest packet was taken.
pub open spec fn taken(s: InboxState) -> InboxState {
    if s.waiting.len() > 0 {
        InboxState { waiting: s.waiting.drop_first(), ..s }
    } else {
        s
    }
}

/// The bounded queue between a link and the owner of the link. When it is
/// full the newest packet is the one that is lost.
pub struct Inbox {
    waiting: VecDeque<LinkPacket>,
    capacity: usize,
    dropped: u64,
}

impl Inbox {
    /// What the queue holds.
    pub closed spec fn view(&self) -> InboxState {
        InboxState { waiting: self.waiting@, capacity: self.capacity as nat, dropped: self.dropped }
    }

    /// No more packets wait than may.
    pub closed spec fn wf(&self) -> bool {
        self.waiting@.len() <= self.capacity
    }

    /// An empty queue in which `capacity` packets may wait.
    pub fn new(capacity: usize) -> (inbox: Inbox)
        ensures
            inbox.wf(),
            inbox@ == (InboxState { waiting: Seq::empty(), capacity: capacity as nat, dropped: 0 }),
    {
        Inbox { waiting: VecDeque::new(), capacity, dropped: 0 }
    }

    /// Offers a packet to the queue. Says whether it was taken in.
    pub fn offer(&mut self, packet: LinkPacket) -> (accepted: bool)
        requires
            old(self).wf(),
        ensures
            final(self).wf(),
            accepted == (old(self)@.waiting.len() < old(self)@.capacity),
            final(self)@ == offered(old(self)@, packet),
    {
        if self.waiting.len() < self.capacity {
            self.waiting.push_back(packet);
            true
        } else {
            if self.dropped < u64::MAX {
                self.dropped = self.dropped + 1;
            }
            false
        }
    }

    /// Takes the oldest packet out of the queue, if one waits.
    pub fn take(&mut self) -> (r: Option<LinkPacket>)
        requires
            old(self).wf(),
        ensures
            final(self).wf(),
            final(self)@ == taken(old(self)@),
            r == if old(self)@.waiting.len() > 0 {
                Some(old(self)@.waiting[0])
            } else {
                None
            },
    {
        let r = self.waiting.pop_front();
        proof {
            if old(self)@.waiting.len() > 0 {
                assert(self@.waiting =~= old(self)@.waiting.drop_first());
            }
        }
        r
    }

    /// How many packets were dropped because the queue was full.
    pub fn dropped(&self) -> (n: u64)
        ensures
            n == self@.dropped,
    {
        self.dropped
    }

    /// How many packets wait.
    pub fn len(&self) -> (n: usize)
        ensures
            n == self@.waiting.len(),
    {
        self.waiting.len()
    }
}

/// Packets leave a queue in the order in which they were taken in: of two
/// packets offered to a queue with room for both, the first offered is the
/// first taken.
pub proof fn lemma_inbox_keeps_order(s: InboxState, first: LinkPacket, second: LinkPacket)
    requires
        s.waiting.len() + 2 <= s.capacity,
    ensures
        offered(offered(s, first), second).waiting == s.waiting.push(first).push(second),
        s.waiting.len() == 0 ==> offered(offered(s, first), second).waiting[0] == first && taken(
            offered(offered(s, first), second),
        ).waiting == seq![second],
{
    if s.waiting.len() == 0 {
        assert(taken(offered(offered(s, first), second)).waiting =~= seq![second]);
    }
}

/// A full queue loses the packet that is offered and none of those that
/// wait.
pub proof fn lemma_inbox_drops_newest(s: InboxState, packet: LinkPacket)
    requires
        s.waiting.len() >= s.capacity,
    ensures
        offered(s, packet).waiting == s.waiting,
        s.dropped < u64::MAX ==> offered(s, packet).dropped == s.dropped + 1,
{
}

} // verus!
