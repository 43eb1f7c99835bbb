//! The broker: what a node does with each packet that a link hands it.
//!
//! The broker is a state machine. `step` says, for a state and an arriving
//! packet, what the next state is and what is sent on which link; `Broker`
//! runs it on a content store and a pending interest table.

use crate::constants::FRAGMENT_SIZE;
use crate::content_store::Fs;
use crate::hbfi::HBFI;
use crate::link::LinkId;
use crate::link::ReplyTo;
use crate::packets::link_packet_fault;
use crate::packets::LinkPacket;
use crate::packets::NarrowWaistPacket;
use crate::pit::has_link;
use crate::pit::lemma_recorded;
use crate::pit::recorded;
use crate::pit::sound;
use crate::pit::unexpired;
use crate::pit::Interest;
use crate::pit::PendingInterestTable;
use crate::pit::PitOutcome;
use vstd::prelude::*;

verus! {

/// A packet to send, and the link to send it on.
#[derive(Clone, Copy, Debug, PartialEq, Eq)]
pub struct Outbound {
    /// The link that carries the packet to its peer.
    pub link: LinkId,
    /// The packet, with this node's end of the link as the hop to answer to.
    pub packet: LinkPacket,
}

/// What a broker knows.
pub struct BrokerState {
    /// The responses seen so far.
    pub store: Map<HBFI, NarrowWaistPacket>,
    /// The requests in flight.
    pub pit: Map<HBFI, Interest>,
    /// The links to the neighbours.
    pub links: Seq<LinkId>,
    /// How old a pending request may get.
    pub ttl: u64,
}

/// `nw` as sent on `link`: the hop to answer to is this node's end of it.
pub open spec fn sent_on(link: LinkId, nw: NarrowWaistPacket) -> Outbound {
    Outbound { link, packet: LinkPacket { reply_to: link.local, nw } }
}

/// The request for `hbfi` as sent on each of `links` except `from`.
pub open spec fn request_forwards(links: Seq<LinkId>, from: LinkId, hbfi: HBFI) -> Seq<Outbound>
    decreases links.len(),
{
    if links.len() == 0 {
        Seq::empty()
    } else if links.last() == from {
        request_forwards(links.drop_last(), from, hbfi)
    } else {
        request_forwards(links.drop_last(), from, hbfi).push(
            sent_on(links.last(), NarrowWaistPacket::Request { hbfi }),
        )
    }
}

/// The response `nw` as sent on each of `links`.
pub open spec fn response_forwards(links: Seq<LinkId>, nw: NarrowWaistPacket) -> Seq<Outbound> {
    Seq::new(links.len(), |i: int| sent_on(links[i], nw))
}

/// Whether a response may enter the store: its payload fits a fragment and
/// its offset lies within its total.
pub open spec fn acceptable(nw: NarrowWaistPacket) -> bool {
    nw matches NarrowWaistPacket::Response { data, offset, total, .. } && data.len <= FRAGMENT_SIZE
        && offset < total
}

/// The state after `packet` arrived on the link `from` at `now`.
///
/// A request that the store can answer changes nothing. Any other request
/// is recorded as pending. An acceptable response enters the store and ends
/// the pending request, if there is one. Any other response changes
/// nothing.
pub open spec fn next_state(
    s: BrokerState,
    from: LinkId,
    packet: LinkPacket,
    now: u64,
) -> BrokerState {
    match packet.nw {
        NarrowWaistPacket::Request { hbfi } => {
            if s.store.contains_key(hbfi) {
                s
            } else {
                BrokerState { pit: recorded(s.pit, hbfi, from, now), ..s }
            }
        },
        NarrowWaistPacket::Response { hbfi, .. } => {
            if acceptable(packet.nw) {
                BrokerState { store: s.store.insert(hbfi, packet.nw), pit: s.pit.remove(hbfi), ..s }
            } else {
                s
            }
        },
    }
}

/// What is sent when `packet` arrives on the link `from`.
///
/// A request that the store can answer is answered on `from`. A request
/// that nobody has pending goes out on every other link. A request that is
/// pending already sends nothing. An acceptable response goes to every link
/// that has it pending, and to nobody when none has. Any other response
/// sends nothing.
pub open spec fn sent(s: BrokerState, from: LinkId, packet: LinkPacket) -> Seq<Outbound> {
    match packet.nw {
        NarrowWaistPacket::Request { hbfi } => {
            if s.store.contains_key(hbfi) {
                seq![sent_on(from, s.store[hbfi])]
            } else if s.pit.contains_key(hbfi) {
                Seq::empty()
            } else {
                request_forwards(s.links, from, hbfi)
            }
        },
        NarrowWaistPacket::Response { hbfi, .. } => {
            if acceptable(packet.nw) && s.pit.contains_key(hbfi) {
                response_forwards(s.pit[hbfi].links, packet.nw)
            } else {
                Seq::empty()
            }
        },
    }
}

/// The first of `links` whose far end is `hop`, if there is one.
pub open spec fn link_of(links: Seq<LinkId>, hop: ReplyTo) -> Option<LinkId>
    decreases links.len(),
{
    if links.len() == 0 {
        None
    } else if links.first().remote == Some(hop) {
        Some(links.first())
    } else {
        link_of(links.drop_first(), hop)
    }
}

/// The link found for a hop is one of the links and ends at the hop; none
/// is found only when no link ends there.
pub proof fn lemma_link_of(links: Seq<LinkId>, hop: ReplyTo)
    ensures
        match link_of(links, hop) {
            Some(link) => links.contains(link) && link.remote == Some(hop),
            None => forall|i: int| 0 <= i < links.len() ==> (#[trigger] links[i]).remote != Some(hop),
        },
    decreases links.len(),
{
    if links.len() > 0 {
        let rest = links.drop_first();
        lemma_link_of(rest, hop);
        if links.first().remote == Some(hop) {
            assert(links[0] == links.first());
        } else {
            match link_of(rest, hop) {
                Some(link) => {
                    let i = rest.index_of(link);
                    assert(links[i + 1] == link);
                },
                None => {
                    assert forall|i: int| 0 <= i < links.len() implies (#[trigger] links[i]).remote
                        != Some(hop) by {
                        if i > 0 {
                            assert(links[i] == rest[i - 1]);
                        }
                    }
                },
            }
        }
    }
}

/// The packet that `bytes` encode, when they encode one.
pub open spec fn decoded(bytes: Seq<u8>) -> LinkPacket {
    choose|p: LinkPacket| p.wf() && p.wire() == bytes
}

/// A broker.
pub struct Broker {
    store: Fs,
    pit: PendingInterestTable,
    links: Vec<LinkId>,
}

impl Broker {
    /// What the broker knows.
    pub closed spec fn view(&self) -> BrokerState {
        BrokerState {
            store: self.store@,
            pit: self.pit@,
            links: self.links@,
            ttl: self.pit.ttl(),
        }
    }

    /// The parts are well-formed, no link is listed twice, and every
    /// response held is acceptable.
    pub closed spec fn wf(&self) -> bool {
        &&& self.store.wf()
        &&& self.pit.wf()
        &&& self.links@.no_duplicates()
        &&& forall|k: HBFI| #[trigger] self.store@.contains_key(k) ==> acceptable(self.store@[k])
    }

    /// The state of a well-formed broker is consistent.
    pub proof fn lemma_wf(&self)
        requires
            self.wf(),
        ensures
            consistent(self@),
    {
        self.store.lemma_wf();
        self.pit.lemma_wf();
    }

    /// A broker with no link, an empty store and nothing pending, whose
    /// pending requests may get `ttl` old.
    pub fn new(ttl: u64) -> (broker: Broker)
        ensures
            broker.wf(),
            broker@ == (BrokerState {
                store: Map::empty(),
                pit: Map::empty(),
                links: Seq::empty(),
                ttl,
            }),
    {
        let store = Fs::new();
        let broker = Broker { store: *store, pit: PendingInterestTable::new(ttl), links: Vec::new() };
        assert(broker@.links =~= Seq::empty());
        broker
    }

    /// Attaches the link `link`. Says whether it was new; a link that is
    /// attached already is not attached again.
    pub fn peer(&mut self, link: LinkId) -> (added: bool)
        requires
            old(self).wf(),
        ensures
            final(self).wf(),
            added == !old(self)@.links.contains(link),
            final(self)@ == (BrokerState {
                links: if added {
                    old(self)@.links.push(link)
                } else {
                    old(self)@.links
                },
                ..old(self)@
            }),
    {
        if has_link(&self.links, &link) {
            false
        } else {
            self.links.push(link);
            assert forall|i: int, j: int|
                0 <= i < self.links@.len() && 0 <= j < self.links@.len() && i != j implies self.links@[i]
                != self.links@[j] by {
                if i < old(self).links@.len() {
                    assert(old(self).links@[i] == self.links@[i]);
                }
                if j < old(self).links@.len() {
                    assert(old(self).links@[j] == self.links@[j]);
                }
            }
            true
        }
    }

    /// Files a response in the store, as a producer attached to this node
    /// does. A response that is not `acceptable`, or a request, is not kept.
    /// Says whether the packet was kept.
    pub fn insert_into_cs(&mut self, response: NarrowWaistPacket) -> (kept: bool)
        requires
            old(self).wf(),
        ensures
            final(self).wf(),
            kept == acceptable(response),
            final(self)@ == (BrokerState {
                store: if kept {
                    old(self)@.store.insert(response.spec_hbfi(), response)
                } else {
                    old(self)@.store
                },
                ..old(self)@
            }),
    {
        if is_acceptable(&response) {
            self.store.put_data(response);
            true
        } else {
            false
        }
    }

    /// The response held for `hbfi`, if there is one.
    pub fn cached(&self, hbfi: &HBFI) -> (r: Option<NarrowWaistPacket>)
        requires
            self.wf(),
        ensures
            r == if self@.store.contains_key(*hbfi) {
                Some(self@.store[*hbfi])
            } else {
                None
            },
    {
        self.store.has_data(hbfi)
    }

    /// Whether a request for `hbfi` is in flight.
    pub fn is_pending(&self, hbfi: &HBFI) -> (pending: bool)
        requires
            self.wf(),
        ensures
            pending == self@.pit.contains_key(*hbfi),
    {
        self.pit.is_pending(hbfi)
    }

    /// The attached link whose far end is `reply_to`: the link that a
    /// packet with that hop came in on.
    pub fn link_id_of(&self, reply_to: &ReplyTo) -> (r: Option<LinkId>)
        requires
            self.wf(),
        ensures
            r == link_of(self@.links, *reply_to),
    {
        let mut i: usize = 0;
        assert(self.links@.skip(0) =~= self.links@);
        while i < self.links.len()
            invariant
                0 <= i <= self.links@.len(),
                link_of(self.links@, *reply_to) == link_of(self.links@.skip(i as int), *reply_to),
            decreases self.links@.len() - i,
        {
            let link = self.links[i];
            let ghost rest = self.links@.skip(i as int);
            assert(rest.first() == link);
            assert(rest.drop_first() =~= self.links@.skip(i + 1));
            let ends_there = match &link.remote {
                Some(remote) => remote.equals(reply_to),
                None => false,
            };
            if ends_there {
                return Some(link);
            }
            i = i + 1;
        }
        None
    }

    /// Takes a packet at `now` and finds the link that it came in on by
    /// its hop. A packet from a hop that no attached link ends at is
    /// dropped: nothing changes and nothing is sent.
    pub fn receive(&mut self, packet: &LinkPacket, now: u64) -> (out: Vec<Outbound>)
        requires
            old(self).wf(),
        ensures
            final(self).wf(),
            match link_of(old(self)@.links, packet.reply_to) {
                Some(from) => final(self)@ == next_state(old(self)@, from, *packet, now) && out@
                    == sent(old(self)@, from, *packet),
                None => final(self)@ == old(self)@ && out@.len() == 0,
            },
    {
        match self.link_id_of(&packet.reply_to) {
            Some(from) => self.handle(&from, packet, now),
            None => Vec::new(),
        }
    }

    /// Takes the packet that arrived on the link `from` at `now`, and hands
    /// back what is to be sent, in the order in which to send it.
    pub fn handle(&mut self, from: &LinkId, packet: &LinkPacket, now: u64) -> (out: Vec<Outbound>)
        requires
            old(self).wf(),
        ensures
            final(self).wf(),
            final(self)@ == next_state(old(self)@, *from, *packet, now),
            out@ == sent(old(self)@, *from, *packet),
    {
        let mut out: Vec<Outbound> = Vec::new();
        match packet.nw {
            NarrowWaistPacket::Request { hbfi } => {
                match self.store.has_data(&hbfi) {
                    Some(response) => {
                        out.push(Outbound { link: *from, packet: LinkPacket { reply_to: from.local, nw: response } });
                        assert(out@ =~= sent(old(self)@, *from, *packet));
                    },
                    None => {
                        match self.pit.record(hbfi, *from, now) {
                            PitOutcome::FirstHop => {
                                out = forward_request(&self.links, from, hbfi);
                            },
                            PitOutcome::Duplicate => {
                                assert(out@ =~= sent(old(self)@, *from, *packet));
                            },
                        }
                    },
                }
            },
            NarrowWaistPacket::Response { hbfi, .. } => {
                if is_acceptable(&packet.nw) {
                    self.store.put_data(packet.nw);
                    match self.pit.resolve(&hbfi) {
                        Some(links) => {
                            out = forward_response(&links, packet.nw);
                        },
                        None => {
                            assert(out@ =~= sent(old(self)@, *from, *packet));
                        },
                    }
                } else {
                    assert(out@ =~= sent(old(self)@, *from, *packet));
                }
            },
        }
        out
    }

    /// Takes the bytes that arrived on the link `from` at `now`. Bytes that
    /// do not encode a packet are dropped: nothing changes and nothing is
    /// sent. Otherwise the packet is handled.
    pub fn handle_bytes(&mut self, from: &LinkId, bytes: &[u8], now: u64) -> (out: Vec<Outbound>)
        requires
            old(self).wf(),
        ensures
            final(self).wf(),
            link_packet_fault(bytes@) is Some ==> final(self)@ == old(self)@ && out@.len() == 0,
            link_packet_fault(bytes@) is None ==> decoded(bytes@).wf() && decoded(bytes@).wire()
                == bytes@ && final(self)@ == next_state(old(self)@, *from, decoded(bytes@), now)
                && out@ == sent(old(self)@, *from, decoded(bytes@)),
    {
        match LinkPacket::decode(bytes) {
            Ok(packet) => {
                proof {
                    crate::packets::lemma_link_packet_round_trip(packet);
                    let d = decoded(bytes@);
                    assert(d.wf() && d.wire() == bytes@);
                    crate::packets::lemma_link_packet_unique(d, packet);
                }
                self.handle(from, &packet, now)
            },
            Err(_) => Vec::new(),
        }
    }

    /// Forgets the requests that have been pending for longer than the
    /// time to live.
    pub fn expire(&mut self, now: u64)
        requires
            old(self).wf(),
        ensures
            final(self).wf(),
            final(self)@ == (BrokerState {
                pit: unexpired(old(self)@.pit, old(self)@.ttl, now),
                ..old(self)@
            }),
    {
        self.pit.expire(now);
    }
}

/// Whether a response may enter the store.
pub fn is_acceptable(nw: &NarrowWaistPacket) -> (ok: bool)
    ensures
        ok == acceptable(*nw),
{
    match nw {
        NarrowWaistPacket::Response { data, offset, total, .. } => data.len <= FRAGMENT_SIZE
            && *offset < *total,
        NarrowWaistPacket::Request { .. } => false,
    }
}

/// The request for `hbfi` for each of `links` except `from`.
pub fn forward_request(links: &Vec<LinkId>, from: &LinkId, hbfi: HBFI) -> (out: Vec<Outbound>)
    ensures
        out@ == request_forwards(links@, *from, hbfi),
{
    let mut out: Vec<Outbound> = Vec::new();
    let mut i: usize = 0;
    while i < links.len()
        invariant
            0 <= i <= links@.len(),
            out@ == request_forwards(links@.take(i as int), *from, hbfi),
        decreases links@.len() - i,
    {
        let link = links[i];
        proof {
            let longer = links@.take(i + 1);
            assert(longer.drop_last() =~= links@.take(i as int));
            assert(longer.last() == link);
        }
        if !link.equals(from) {
            out.push(
                Outbound {
                    link,
                    packet: LinkPacket { reply_to: link.local, nw: NarrowWaistPacket::Request { hbfi } },
                },
            );
        }
        i = i + 1;
    }
    assert(links@.take(i as int) =~= links@);
    out
}

/// The response `nw` for each of `links`.
pub fn forward_response(links: &Vec<LinkId>, nw: NarrowWaistPacket) -> (out: Vec<Outbound>)
    ensures
        out@ == response_forwards(links@, nw),
{
    let mut out: Vec<Outbound> = Vec::new();
    let mut i: usize = 0;
    while i < links.len()
        invariant
            0 <= i <= links@.len(),
            out@ == response_forwards(links@.take(i as int), nw),
        decreases links@.len() - i,
    {
        let link = links[i];
        out.push(Outbound { link, packet: LinkPacket { reply_to: link.local, nw } });
        assert(out@ =~= response_forwards(links@.take(i + 1), nw));
        i = i + 1;
    }
    assert(links@.take(i as int) =~= links@);
    out
}

/// One packet arriving at a broker.
pub struct Arrival {
    /// The link that it arrived on.
    pub from: LinkId,
    /// The packet.
    pub packet: LinkPacket,
    /// When it arrived.
    pub now: u64,
}

/// The state after the packets of `arrivals` arrived one after the other.
pub open spec fn state_after(s: BrokerState, arrivals: Seq<Arrival>) -> BrokerState
    decreases arrivals.len(),
{
    if arrivals.len() == 0 {
        s
    } else {
        let first = arrivals.first();
        state_after(next_state(s, first.from, first.packet, first.now), arrivals.drop_first())
    }
}

/// All that is sent while the packets of `arrivals` arrive one after the
/// other.
pub open spec fn all_sent(s: BrokerState, arrivals: Seq<Arrival>) -> Seq<Outbound>
    decreases arrivals.len(),
{
    if arrivals.len() == 0 {
        Seq::empty()
    } else {
        let first = arrivals.first();
        sent(s, first.from, first.packet) + all_sent(
            next_state(s, first.from, first.packet, first.now),
            arrivals.drop_first(),
        )
    }
}

/// Whether every packet of `arrivals` is a request for `hbfi`.
pub open spec fn all_request(arrivals: Seq<Arrival>, hbfi: HBFI) -> bool {
    forall|i: int|
        0 <= i < arrivals.len() ==> (#[trigger] arrivals[i]).packet.nw
            == (NarrowWaistPacket::Request { hbfi })
}

/// What holds of every state that a broker reaches: pending entries are
/// sound, links are distinct, and the store holds acceptable responses, each
/// under its own identifier.
pub open spec fn consistent(s: BrokerState) -> bool {
    &&& sound(s.pit)
    &&& s.links.no_duplicates()
    &&& forall|k: HBFI| #[trigger]
        s.store.contains_key(k) ==> acceptable(s.store[k]) && s.store[k].spec_hbfi() == k
}

/// A forwarded request goes out once on each link other than the one it
/// came in on, and on no other link.
pub proof fn lemma_request_forwards(links: Seq<LinkId>, from: LinkId, hbfi: HBFI)
    requires
        links.no_duplicates(),
    ensures
        forall|i: int|
            0 <= i < request_forwards(links, from, hbfi).len() ==> {
                let o = #[trigger] request_forwards(links, from, hbfi)[i];
                &&& o == sent_on(o.link, NarrowWaistPacket::Request { hbfi })
                &&& o.link != from
                &&& links.contains(o.link)
            },
        forall|l: LinkId|
            links.contains(l) && l != from ==> request_forwards(links, from, hbfi).contains(
                sent_on(l, NarrowWaistPacket::Request { hbfi }),
            ),
        forall|i: int, j: int|
            0 <= i < j < request_forwards(links, from, hbfi).len() ==> request_forwards(
                links,
                from,
                hbfi,
            )[i].link != request_forwards(links, from, hbfi)[j].link,
        request_forwards(links, from, hbfi).len() == if links.contains(from) {
            links.len() - 1
        } else {
            links.len() as int
        },
    decreases links.len(),
{
    let out = request_forwards(links, from, hbfi);
    let request = NarrowWaistPacket::Request { hbfi };
    if links.len() > 0 {
        let front = links.drop_last();
        let last = links.last();
        let before = request_forwards(front, from, hbfi);
        assert forall|a: int, b: int|
            0 <= a < front.len() && 0 <= b < front.len() && a != b implies front[a] != front[b] by {
            assert(front[a] == links[a] && front[b] == links[b]);
        }
        lemma_request_forwards(front, from, hbfi);
        assert(!front.contains(last)) by {
            if front.contains(last) {
                let a = front.index_of(last);
                assert(links[a] == links[links.len() - 1]);
            }
        }
        assert forall|l: LinkId| links.contains(l) == (l == last || front.contains(l)) by {
            if links.contains(l) {
                let a = links.index_of(l);
                if a < front.len() {
                    assert(front[a] == l);
                }
            }
            if front.contains(l) {
                let a = front.index_of(l);
                assert(links[a] == l);
            }
            if l == last {
                assert(links[links.len() - 1] == l);
            }
        }
        assert forall|i: int| 0 <= i < out.len() implies ({
            let o = #[trigger] out[i];
            &&& o == sent_on(o.link, request)
            &&& o.link != from
            &&& links.contains(o.link)
        }) by {
            if i < before.len() {
                assert(out[i] == before[i]);
            }
        }
        assert forall|l: LinkId| links.contains(l) && l != from implies out.contains(
            sent_on(l, request),
        ) by {
            if l == last {
                assert(out[out.len() - 1] == sent_on(l, request));
            } else {
                assert(before.contains(sent_on(l, request)));
                let a = before.index_of(sent_on(l, request));
                assert(out[a] == sent_on(l, request));
            }
        }
        assert forall|i: int, j: int| 0 <= i < j < out.len() implies out[i].link
            != out[j].link by {
            if j < before.len() {
                assert(out[i] == before[i] && out[j] == before[j]);
            } else {
                assert(out[i] == before[i]);
                assert(front.contains(before[i].link));
            }
        }
    }
}

/// A step keeps a consistent state consistent.
pub proof fn lemma_step_consistent(s: BrokerState, from: LinkId, packet: LinkPacket, now: u64)
    requires
        consistent(s),
    ensures
        consistent(next_state(s, from, packet, now)),
{
    let t = next_state(s, from, packet, now);
    match packet.nw {
        NarrowWaistPacket::Request { hbfi } => {
            lemma_recorded(s.pit, hbfi, from, now);
        },
        NarrowWaistPacket::Response { hbfi, .. } => {
            if acceptable(packet.nw) {
                assert forall|k: HBFI| #[trigger] t.pit.contains_key(k) implies t.pit[k].links.len()
                    > 0 && t.pit[k].links.no_duplicates() by {
                    assert(s.pit.contains_key(k));
                }
                assert forall|k: HBFI| #[trigger] t.store.contains_key(k) implies acceptable(
                    t.store[k],
                ) && t.store[k].spec_hbfi() == k by {
                    if k != hbfi {
                        assert(s.store.contains_key(k));
                    }
                }
            }
        },
    }
}

/// While a request is pending, further requests for the same identifier
/// send nothing, whoever asks and however many ask.
pub proof fn lemma_pending_requests_send_nothing(
    s: BrokerState,
    hbfi: HBFI,
    arrivals: Seq<Arrival>,
)
    requires
        all_request(arrivals, hbfi),
        !s.store.contains_key(hbfi),
        s.pit.contains_key(hbfi),
    ensures
        all_sent(s, arrivals).len() == 0,
        state_after(s, arrivals).pit.contains_key(hbfi),
        state_after(s, arrivals).store == s.store,
        state_after(s, arrivals).links == s.links,
    decreases arrivals.len(),
{
    if arrivals.len() > 0 {
        let first = arrivals.first();
        assert(arrivals[0].packet.nw == (NarrowWaistPacket::Request { hbfi }));
        let t = next_state(s, first.from, first.packet, first.now);
        let rest = arrivals.drop_first();
        assert forall|i: int| 0 <= i < rest.len() implies (#[trigger] rest[i]).packet.nw
            == (NarrowWaistPacket::Request { hbfi }) by {
            assert(rest[i] == arrivals[i + 1]);
        }
        lemma_pending_requests_send_nothing(t, hbfi, rest);
    }
}

/// However many requests for one identifier arrive before the response, on
/// whatever links, the request is forwarded once: when the first of them
/// arrives, on every link but the one it came in on. Nothing else is sent.
pub proof fn lemma_request_forwarded_once(s: BrokerState, hbfi: HBFI, arrivals: Seq<Arrival>)
    requires
        all_request(arrivals, hbfi),
        arrivals.len() > 0,
        !s.store.contains_key(hbfi),
        !s.pit.contains_key(hbfi),
    ensures
        all_sent(s, arrivals) == request_forwards(s.links, arrivals[0].from, hbfi),
        state_after(s, arrivals).pit.contains_key(hbfi),
{
    let first = arrivals.first();
    assert(arrivals[0].packet.nw == (NarrowWaistPacket::Request { hbfi }));
    let t = next_state(s, first.from, first.packet, first.now);
    let rest = arrivals.drop_first();
    assert forall|i: int| 0 <= i < rest.len() implies (#[trigger] rest[i]).packet.nw
        == (NarrowWaistPacket::Request { hbfi }) by {
        assert(rest[i] == arrivals[i + 1]);
    }
    lemma_pending_requests_send_nothing(t, hbfi, rest);
    assert(all_sent(s, arrivals) =~= request_forwards(s.links, first.from, hbfi));
}

/// A response that nobody has pending is never forwarded: it is cached when
/// it is acceptable and dropped when it is not, and the pending requests
/// stay as they are.
pub proof fn lemma_unsolicited_response(s: BrokerState, from: LinkId, packet: LinkPacket, now: u64)
    requires
        packet.nw is Response,
        !s.pit.contains_key(packet.nw.spec_hbfi()),
    ensures
        sent(s, from, packet).len() == 0,
        next_state(s, from, packet, now).pit == s.pit,
        next_state(s, from, packet, now).links == s.links,
        acceptable(packet.nw) ==> next_state(s, from, packet, now).store == s.store.insert(
            packet.nw.spec_hbfi(),
            packet.nw,
        ),
        !acceptable(packet.nw) ==> next_state(s, from, packet, now) == s,
{
    assert(s.pit.remove(packet.nw.spec_hbfi()) =~= s.pit);
}

/// An acceptable response goes once to each link that asked for it and to
/// no other; the request is pending no longer, and from then on a request
/// for the same identifier is answered from the store, on the link it came
/// in on, without being recorded or forwarded.
pub proof fn lemma_response_answers_and_is_cached(
    s: BrokerState,
    from: LinkId,
    packet: LinkPacket,
    now: u64,
    later_from: LinkId,
    later: LinkPacket,
    later_now: u64,
)
    requires
        consistent(s),
        acceptable(packet.nw),
        s.pit.contains_key(packet.nw.spec_hbfi()),
        later.nw == (NarrowWaistPacket::Request { hbfi: packet.nw.spec_hbfi() }),
    ensures
        sent(s, from, packet) == response_forwards(s.pit[packet.nw.spec_hbfi()].links, packet.nw),
        sent(s, from, packet).len() == s.pit[packet.nw.spec_hbfi()].links.len(),
        forall|i: int, j: int|
            0 <= i < j < sent(s, from, packet).len() ==> sent(s, from, packet)[i].link != sent(
                s,
                from,
                packet,
            )[j].link,
        !next_state(s, from, packet, now).pit.contains_key(packet.nw.spec_hbfi()),
        sent(next_state(s, from, packet, now), later_from, later) == seq![
            sent_on(later_from, packet.nw),
        ],
        next_state(next_state(s, from, packet, now), later_from, later, later_now) == next_state(
            s,
            from,
            packet,
            now,
        ),
{
}

} // verus!
