//! The requestor: a client that asks for content by name, remembers every
//! response it has seen, and asks the network only for what it lacks.
//!
//! A call runs in three phases. `begin` says which requests go out,
//! `receive` takes each packet that comes in, and `finish` gives the answers
//! when everything has arrived or the time is up. Sending, receiving and
//! the clock belong to the caller.

use crate::broker::acceptable;
use crate::broker::is_acceptable;
use crate::hbfi::lemma_key_unique;
use crate::hbfi::HBFI;
use crate::link::LinkId;
use crate::packet_map::packet_map_contents;
use crate::packet_map::packet_map_get;
use crate::packet_map::packet_map_insert;
use crate::packet_map::packet_map_is_empty;
use crate::packet_map::packet_map_new;
use crate::packet_map::packet_map_remove;
use crate::packet_map::PacketKey;
use crate::packets::LinkPacket;
use crate::packets::NarrowWaistPacket;
use vstd::prelude::*;

verus! {

/// Where one identifier stands with a requestor.
#[derive(Clone, Copy, Debug, PartialEq, Eq, Structural)]
pub enum RequestStatus {
    /// Not asked for and not known.
    Idle,
    /// Asked for; the response has not arrived.
    Sent,
    /// The response is in the cache.
    Cached,
}

/// What a requestor knows.
pub struct RequestorState {
    /// The responses seen so far, by identifier.
    pub cache: Map<HBFI, NarrowWaistPacket>,
    /// The identifiers asked for and not answered yet.
    pub awaiting: Set<HBFI>,
}

/// Where `hbfi` stands in the state `s`.
pub open spec fn status(s: RequestorState, hbfi: HBFI) -> RequestStatus {
    if s.cache.contains_key(hbfi) {
        RequestStatus::Cached
    } else if s.awaiting.contains(hbfi) {
        RequestStatus::Sent
    } else {
        RequestStatus::Idle
    }
}

/// The identifiers among `hbfis` that a request goes out for, in order:
/// those that are neither cached nor awaited, each once.
pub open spec fn asked(s: RequestorState, hbfis: Seq<HBFI>) -> Seq<HBFI>
    decreases hbfis.len(),
{
    if hbfis.len() == 0 {
        Seq::empty()
    } else {
        let before = asked(s, hbfis.drop_last());
        let hbfi = hbfis.last();
        if s.cache.contains_key(hbfi) || s.awaiting.contains(hbfi) || before.contains(hbfi) {
            before
        } else {
            before.push(hbfi)
        }
    }
}

/// The requests for `hbfis` as sent on `link`.
pub open spec fn requests(link: LinkId, hbfis: Seq<HBFI>) -> Seq<LinkPacket> {
    Seq::new(
        hbfis.len(),
        |i: int|
            LinkPacket { reply_to: link.local, nw: NarrowWaistPacket::Request { hbfi: hbfis[i] } },
    )
}

/// The state after a call for `hbfis` began: what was asked for is awaited.
pub open spec fn begun(s: RequestorState, hbfis: Seq<HBFI>) -> RequestorState {
    RequestorState { awaiting: s.awaiting.union(asked(s, hbfis).to_set()), ..s }
}

/// The state after `nw` came in: an acceptable response enters the cache,
/// awaited or not, and its identifier is awaited no longer. Anything else
/// changes nothing.
pub open spec fn received(s: RequestorState, nw: NarrowWaistPacket) -> RequestorState {
    if acceptable(nw) {
        RequestorState {
            cache: s.cache.insert(nw.spec_hbfi(), nw),
            awaiting: s.awaiting.remove(nw.spec_hbfi()),
        }
    } else {
        s
    }
}

/// The answer for each of `hbfis`: the cached response, or `None`.
pub open spec fn answers(s: RequestorState, hbfis: Seq<HBFI>) -> Seq<Option<NarrowWaistPacket>> {
    Seq::new(
        hbfis.len(),
        |i: int|
            if s.cache.contains_key(hbfis[i]) {
                Some(s.cache[hbfis[i]])
            } else {
                None
            },
    )
}

/// The state after a call ended: nothing is awaited, the cache stays.
pub open spec fn finished(s: RequestorState) -> RequestorState {
    RequestorState { awaiting: Set::empty(), ..s }
}

/// The identifiers of `names` under `publisher`.
pub open spec fn spec_identifiers(publisher: Seq<char>, names: Seq<String>) -> Seq<HBFI> {
    Seq::new(names.len(), |i: int| HBFI::spec_new(names[i]@, publisher))
}

/// A requestor attached to one link and bound to one publisher.
pub struct CopernicaRequestor {
    link: LinkId,
    publisher: String,
    cache: im::HashMap<PacketKey, NarrowWaistPacket>,
    awaiting: im::HashMap<PacketKey, NarrowWaistPacket>,
}

impl CopernicaRequestor {
    /// What the requestor knows.
    pub closed spec fn view(&self) -> RequestorState {
        RequestorState {
            cache: Map::new(
                |h: HBFI| packet_map_contents(self.cache).contains_key(h.spec_key()),
                |h: HBFI| packet_map_contents(self.cache)[h.spec_key()],
            ),
            awaiting: Set::new(
                |h: HBFI| packet_map_contents(self.awaiting).contains_key(h.spec_key()),
            ),
        }
    }

    /// The link that requests go out on.
    pub closed spec fn link(&self) -> LinkId {
        self.link
    }

    /// The publisher whose names are asked for.
    pub closed spec fn publisher(&self) -> Seq<char> {
        self.publisher@
    }

    /// Every packet kept is kept under the words of its own identifier; the
    /// cache keeps acceptable responses and the awaited ones are requests.
    pub closed spec fn wf(&self) -> bool {
        &&& forall|k: PacketKey| #[trigger]
            packet_map_contents(self.cache).contains_key(k) ==> acceptable(
                packet_map_contents(self.cache)[k],
            ) && packet_map_contents(self.cache)[k].spec_hbfi().spec_key() == k
        &&& forall|k: PacketKey| #[trigger]
            packet_map_contents(self.awaiting).contains_key(k) ==> packet_map_contents(
                self.awaiting,
            )[k].spec_hbfi().spec_key() == k
    }

    /// In a well-formed requestor every cached packet is an acceptable
    /// response to the identifier it is cached for.
    pub proof fn lemma_wf(&self)
        requires
            self.wf(),
        ensures
            forall|h: HBFI| #[trigger]
                self@.cache.contains_key(h) ==> acceptable(self@.cache[h])
                    && self@.cache[h].spec_hbfi() == h,
    {
        assert forall|h: HBFI| #[trigger] self@.cache.contains_key(h) implies acceptable(
            self@.cache[h],
        ) && self@.cache[h].spec_hbfi() == h by {
            assert(packet_map_contents(self.cache).contains_key(h.spec_key()));
            lemma_key_unique(self@.cache[h].spec_hbfi(), h);
        }
    }

    /// A requestor on `link` for the names of `publisher`, with an empty
    /// cache.
    pub fn new(link: LinkId, publisher: String) -> (requestor: CopernicaRequestor)
        ensures
            requestor.wf(),
            requestor.link() == link,
            requestor.publisher() == publisher@,
            requestor@.cache == Map::<HBFI, NarrowWaistPacket>::empty(),
            requestor@.awaiting == Set::<HBFI>::empty(),
    {
        let requestor = CopernicaRequestor {
            link,
            publisher,
            cache: packet_map_new(),
            awaiting: packet_map_new(),
        };
        assert(requestor@.cache =~= Map::<HBFI, NarrowWaistPacket>::empty());
        assert(requestor@.awaiting =~= Set::<HBFI>::empty());
        requestor
    }

    /// The identifier of the first chunk of each of `names`.
    pub fn identifiers(&self, names: &Vec<String>) -> (hbfis: Vec<HBFI>)
        ensures
            hbfis@ == spec_identifiers(self.publisher(), names@),
    {
        let mut hbfis: Vec<HBFI> = Vec::new();
        let mut i: usize = 0;
        while i < names.len()
            invariant
                0 <= i <= names@.len(),
                hbfis@ == spec_identifiers(self.publisher(), names@.take(i as int)),
            decreases names@.len() - i,
        {
            let hbfi = HBFI::new(names[i].as_str(), self.publisher.as_str());
            hbfis.push(hbfi);
            assert(hbfis@ =~= spec_identifiers(self.publisher(), names@.take(i + 1)));
            i = i + 1;
        }
        assert(names@.take(i as int) =~= names@);
        hbfis
    }

    /// Where `hbfi` stands.
    pub fn status(&self, hbfi: &HBFI) -> (r: RequestStatus)
        requires
            self.wf(),
        ensures
            r == status(self@, *hbfi),
    {
        let key = hbfi.key();
        if packet_map_get(&self.cache, &key).is_some() {
            RequestStatus::Cached
        } else if packet_map_get(&self.awaiting, &key).is_some() {
            RequestStatus::Sent
        } else {
            RequestStatus::Idle
        }
    }

    /// The cached response to `hbfi`, if there is one.
    pub fn cached(&self, hbfi: &HBFI) -> (r: Option<NarrowWaistPacket>)
        requires
            self.wf(),
        ensures
            r == if self@.cache.contains_key(*hbfi) {
                Some(self@.cache[*hbfi])
            } else {
                None
            },
    {
        packet_map_get(&self.cache, &hbfi.key())
    }

    /// Begins a call for `hbfis`: hands back the requests to send, one for
    /// each identifier that is neither cached nor awaited, and awaits them.
    pub fn begin(&mut self, hbfis: &Vec<HBFI>) -> (out: Vec<LinkPacket>)
        requires
            old(self).wf(),
        ensures
            final(self).wf(),
            final(self).link() == old(self).link(),
            final(self).publisher() == old(self).publisher(),
            final(self)@ == begun(old(self)@, hbfis@),
            out@ == requests(old(self).link(), asked(old(self)@, hbfis@)),
    {
        let mut out: Vec<LinkPacket> = Vec::new();
        let mut i: usize = 0;
        assert(self@.awaiting =~= old(self)@.awaiting.union(
            asked(old(self)@, hbfis@.take(0)).to_set(),
        ));
        while i < hbfis.len()
            invariant
                0 <= i <= hbfis@.len(),
                self.wf(),
                self.link == old(self).link,
                self.publisher == old(self).publisher,
                self.cache == old(self).cache,
                self@.awaiting == old(self)@.awaiting.union(
                    asked(old(self)@, hbfis@.take(i as int)).to_set(),
                ),
                out@ == requests(self.link, asked(old(self)@, hbfis@.take(i as int))),
            decreases hbfis@.len() - i,
        {
            let hbfi = hbfis[i];
            let key = hbfi.key();
            let ghost before = asked(old(self)@, hbfis@.take(i as int));
            let ghost longer = hbfis@.take(i + 1);
            proof {
                assert(longer.drop_last() =~= hbfis@.take(i as int));
                assert(longer.last() == hbfi);
                assert(self@.awaiting.contains(hbfi) == (old(self)@.awaiting.contains(hbfi)
                    || before.contains(hbfi)));
            }
            let known = packet_map_get(&self.cache, &key).is_some() || packet_map_get(
                &self.awaiting,
                &key,
            ).is_some();
            if !known {
                let ghost awaited = self@.awaiting;
                packet_map_insert(&mut self.awaiting, key, NarrowWaistPacket::Request { hbfi });
                out.push(
                    LinkPacket { reply_to: self.link.local, nw: NarrowWaistPacket::Request { hbfi } },
                );
                proof {
                    let after = asked(old(self)@, longer);
                    assert(after == before.push(hbfi));
                    let target = old(self)@.awaiting.union(after.to_set());
                    assert forall|h: HBFI| #[trigger] self@.awaiting.contains(h) == target.contains(
                        h,
                    ) by {
                        if h.spec_key() == key {
                            lemma_key_unique(h, hbfi);
                        }
                        assert(self@.awaiting.contains(h) == (awaited.contains(h) || h == hbfi));
                        assert(awaited.contains(h) == (old(self)@.awaiting.contains(h)
                            || before.contains(h)));
                        if before.contains(h) {
                            let j = before.index_of(h);
                            assert(after[j] == h);
                        }
                        if h == hbfi {
                            assert(after[before.len() as int] == h);
                        }
                        if after.contains(h) {
                            let j = after.index_of(h);
                            if j < before.len() {
                                assert(before[j] == h);
                            }
                        }
                        assert(after.contains(h) == (before.contains(h) || h == hbfi));
                    }
                    assert(self@.awaiting =~= old(self)@.awaiting.union(after.to_set()));
                    assert(out@ =~= requests(self.link, after));
                }
            }
            i = i + 1;
        }
        assert(hbfis@.take(i as int) =~= hbfis@);
        out
    }

    /// Takes a packet that came in. An acceptable response enters the
    /// cache whether or not it was awaited; any other packet is ignored.
    /// Says whether nothing is awaited any more.
    pub fn receive(&mut self, packet: &LinkPacket) -> (done: bool)
        requires
            old(self).wf(),
        ensures
            final(self).wf(),
            final(self).link() == old(self).link(),
            final(self).publisher() == old(self).publisher(),
            final(self)@ == received(old(self)@, packet.nw),
            done == (final(self)@.awaiting == Set::<HBFI>::empty()),
    {
        if is_acceptable(&packet.nw) {
            let hbfi = packet.nw.hbfi();
            let key = hbfi.key();
            packet_map_insert(&mut self.cache, key, packet.nw);
            packet_map_remove(&mut self.awaiting, &key);
            proof {
                let target = received(old(self)@, packet.nw);
                assert forall|h: HBFI| h.spec_key() == key implies h == hbfi by {
                    lemma_key_unique(h, hbfi);
                }
                assert(self@.cache =~= target.cache);
                assert(self@.awaiting =~= target.awaiting);
            }
        }
        let done = packet_map_is_empty(&self.awaiting);
        proof {
            if done {
                assert(self@.awaiting =~= Set::<HBFI>::empty());
            } else {
                let k = choose|k: PacketKey| packet_map_contents(self.awaiting).contains_key(k);
                let h = packet_map_contents(self.awaiting)[k].spec_hbfi();
                assert(packet_map_contents(self.awaiting).contains_key(k));
                assert(h.spec_key() == k);
                assert(self@.awaiting.contains(h));
            }
        }
        done
    }

    /// Ends a call for `hbfis`, when everything has arrived or the time is
    /// up: hands back the cached response for each identifier, or `None`,
    /// and awaits nothing any more.
    pub fn finish(&mut self, hbfis: &Vec<HBFI>) -> (results: Vec<Option<NarrowWaistPacket>>)
        requires
            old(self).wf(),
        ensures
            final(self).wf(),
            final(self).link() == old(self).link(),
            final(self).publisher() == old(self).publisher(),
            final(self)@ == finished(old(self)@),
            results@ == answers(old(self)@, hbfis@),
    {
        let mut results: Vec<Option<NarrowWaistPacket>> = Vec::new();
        let mut i: usize = 0;
        while i < hbfis.len()
            invariant
                0 <= i <= hbfis@.len(),
                self == old(self),
                results@ == answers(self@, hbfis@.take(i as int)),
            decreases hbfis@.len() - i,
        {
            let answer = packet_map_get(&self.cache, &hbfis[i].key());
            results.push(answer);
            assert(results@ =~= answers(self@, hbfis@.take(i + 1)));
            i = i + 1;
        }
        assert(hbfis@.take(i as int) =~= hbfis@);
        self.awaiting = packet_map_new();
        assert(self@.awaiting =~= Set::<HBFI>::empty());
        assert(self@.cache =~= old(self)@.cache);
        results
    }
}

/// What is asked for is asked for once, was among the identifiers of the
/// call, and was neither cached nor awaited.
pub proof fn lemma_asked(s: RequestorState, hbfis: Seq<HBFI>)
    ensures
        asked(s, hbfis).no_duplicates(),
        forall|h: HBFI|
            asked(s, hbfis).contains(h) <==> hbfis.contains(h) && status(s, h)
                == RequestStatus::Idle,
    decreases hbfis.len(),
{
    let out = asked(s, hbfis);
    if hbfis.len() > 0 {
        let front = hbfis.drop_last();
        let last = hbfis.last();
        let before = asked(s, front);
        lemma_asked(s, front);
        assert forall|h: HBFI| hbfis.contains(h) == (front.contains(h) || h == last) by {
            if hbfis.contains(h) {
                let j = hbfis.index_of(h);
                if j < front.len() {
                    assert(front[j] == h);
                }
            }
            if front.contains(h) {
                let j = front.index_of(h);
                assert(hbfis[j] == h);
            }
            if h == last {
                assert(hbfis[hbfis.len() - 1] == h);
            }
        }
        assert forall|h: HBFI| out.contains(h) <==> hbfis.contains(h) && status(s, h)
            == RequestStatus::Idle by {
            if out.contains(h) {
                let j = out.index_of(h);
                if j < before.len() {
                    assert(before[j] == h);
                    assert(before.contains(h));
                }
            }
            if before.contains(h) {
                let j = before.index_of(h);
                assert(out[j] == h);
            }
            if h == last && out.len() > before.len() {
                assert(out[before.len() as int] == h);
            }
        }
    }
}

/// Once the response to an identifier has come in, a later call finds it
/// in the cache: no request goes out for it, and its answer is the
/// response, whatever else was asked for, came in or timed out in between.
pub proof fn lemma_answered_from_cache(
    s: RequestorState,
    response: NarrowWaistPacket,
    hbfis: Seq<HBFI>,
)
    requires
        acceptable(response),
    ensures
        status(received(s, response), response.spec_hbfi()) == RequestStatus::Cached,
        !asked(received(s, response), hbfis).contains(response.spec_hbfi()),
        forall|i: int|
            0 <= i < hbfis.len() && hbfis[i] == response.spec_hbfi() ==> answers(
                received(s, response),
                hbfis,
            )[i] == Some(response),
        begun(received(s, response), hbfis).cache == received(s, response).cache,
        finished(received(s, response)).cache == received(s, response).cache,
{
    lemma_asked(received(s, response), hbfis);
}

/// The cache only grows: what is cached stays cached through the
/// beginning of a call, the arrival of any packet, and the end of a call.
pub proof fn lemma_cache_grows(
    s: RequestorState,
    hbfi: HBFI,
    hbfis: Seq<HBFI>,
    nw: NarrowWaistPacket,
)
    requires
        s.cache.contains_key(hbfi),
    ensures
        begun(s, hbfis).cache.contains_key(hbfi),
        received(s, nw).cache.contains_key(hbfi),
        finished(s).cache.contains_key(hbfi),
{
}

} // verus!
