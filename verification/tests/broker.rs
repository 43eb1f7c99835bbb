use copernica::broker::Broker;
use copernica::broker::Outbound;
use copernica::hbfi::HBFI;
use copernica::link::LinkId;
use copernica::link::ReplyTo;
use copernica::packets::Data;
use copernica::packets::LinkPacket;
use copernica::packets::NarrowWaistPacket;

fn hbfi(n: u16) -> HBFI {
    HBFI::new_test([n, 2, 3, 4], [5, 6, 7, 8], 0)
}

fn link(n: u32) -> LinkId {
    LinkId::listen(ReplyTo::Mpsc(n)).remote(ReplyTo::Mpsc(n + 100))
}

fn request(n: u16, from: u32) -> LinkPacket {
    LinkPacket { reply_to: ReplyTo::Mpsc(from + 100), nw: NarrowWaistPacket::Request { hbfi: hbfi(n) } }
}

fn response_nw(n: u16, len: u16, offset: u64, total: u64) -> NarrowWaistPacket {
    NarrowWaistPacket::Response { hbfi: hbfi(n), data: Data { len, data: [7; 1024] }, offset, total }
}

fn response(n: u16, from: u32) -> LinkPacket {
    LinkPacket { reply_to: ReplyTo::Mpsc(from + 100), nw: response_nw(n, 3, 0, 1) }
}

fn on(l: LinkId, nw: NarrowWaistPacket) -> Outbound {
    Outbound { link: l, packet: LinkPacket { reply_to: l.local, nw } }
}

fn broker_with_links(n: u32) -> Broker {
    let mut broker = Broker::new(10);
    for i in 1..=n {
        assert!(broker.peer(link(i)));
    }
    broker
}

#[test]
fn peer_attaches_a_link_once() {
    let mut broker = Broker::new(10);
    assert!(broker.peer(link(1)));
    assert!(!broker.peer(link(1)));
    assert!(broker.peer(link(2)));
    let out = broker.handle(&link(1), &request(1, 1), 0);
    assert_eq!(out, vec![on(link(2), NarrowWaistPacket::Request { hbfi: hbfi(1) })]);
}

#[test]
fn request_is_forwarded_once_on_every_other_link() {
    let mut broker = broker_with_links(4);
    let out = broker.handle(&link(2), &request(1, 2), 0);
    let forwarded = NarrowWaistPacket::Request { hbfi: hbfi(1) };
    assert_eq!(out, vec![on(link(1), forwarded), on(link(3), forwarded), on(link(4), forwarded)]);
    assert!(broker.is_pending(&hbfi(1)));
    for from in [2, 3, 2, 1, 4, 4] {
        assert_eq!(broker.handle(&link(from), &request(1, from), 1), vec![]);
    }
    let other = broker.handle(&link(3), &request(2, 3), 2);
    assert_eq!(other.len(), 3);
}

#[test]
fn response_goes_to_everyone_who_asked_and_is_cached() {
    let mut broker = broker_with_links(4);
    broker.handle(&link(2), &request(1, 2), 0);
    broker.handle(&link(3), &request(1, 3), 1);
    broker.handle(&link(2), &request(1, 2), 2);
    let answer = response(1, 1);
    let out = broker.handle(&link(1), &answer, 3);
    assert_eq!(out, vec![on(link(2), answer.nw), on(link(3), answer.nw)]);
    assert!(!broker.is_pending(&hbfi(1)));
    assert_eq!(broker.cached(&hbfi(1)), Some(answer.nw));

    let again = broker.handle(&link(4), &request(1, 4), 4);
    assert_eq!(again, vec![on(link(4), answer.nw)]);
    assert!(!broker.is_pending(&hbfi(1)));
}

#[test]
fn unsolicited_response_is_cached_and_not_forwarded() {
    let mut broker = broker_with_links(3);
    let answer = response(1, 1);
    assert_eq!(broker.handle(&link(1), &answer, 0), vec![]);
    assert_eq!(broker.cached(&hbfi(1)), Some(answer.nw));
    assert!(!broker.is_pending(&hbfi(1)));
}

#[test]
fn response_that_fails_validation_is_dropped() {
    let mut broker = broker_with_links(3);
    broker.handle(&link(2), &request(1, 2), 0);
    for nw in [response_nw(1, 1025, 0, 1), response_nw(1, 3, 1, 1), response_nw(1, 3, 5, 0)] {
        let packet = LinkPacket { reply_to: ReplyTo::Mpsc(101), nw };
        assert_eq!(broker.handle(&link(1), &packet, 1), vec![]);
        assert_eq!(broker.cached(&hbfi(1)), None);
        assert!(broker.is_pending(&hbfi(1)));
        assert!(!broker.insert_into_cs(nw));
    }
    let good = LinkPacket { reply_to: ReplyTo::Mpsc(101), nw: response_nw(1, 1024, 0, 1) };
    assert_eq!(broker.handle(&link(1), &good, 1), vec![on(link(2), good.nw)]);
}

#[test]
fn expired_request_leaves_the_response_cached_but_unrouted() {
    let mut broker = broker_with_links(3);
    broker.handle(&link(2), &request(1, 2), 100);
    broker.expire(110);
    assert!(broker.is_pending(&hbfi(1)));
    broker.expire(111);
    assert!(!broker.is_pending(&hbfi(1)));
    let answer = response(1, 1);
    assert_eq!(broker.handle(&link(1), &answer, 112), vec![]);
    assert_eq!(broker.cached(&hbfi(1)), Some(answer.nw));
}

#[test]
fn after_expiry_a_request_is_forwarded_again() {
    let mut broker = broker_with_links(2);
    assert_eq!(broker.handle(&link(1), &request(1, 1), 0).len(), 1);
    assert_eq!(broker.handle(&link(1), &request(1, 1), 5).len(), 0);
    broker.expire(11);
    assert_eq!(broker.handle(&link(1), &request(1, 1), 12).len(), 1);
}

#[test]
fn malformed_bytes_change_nothing() {
    let mut broker = broker_with_links(3);
    broker.handle(&link(2), &request(1, 2), 0);
    let good = response(1, 1).encode();
    let mut inputs: Vec<Vec<u8>> = vec![vec![], vec![0xff; 2000], good[..100].to_vec()];
    let mut flipped = good.clone();
    flipped[0] ^= 0x80;
    inputs.push(flipped);
    let mut long = good.clone();
    long.push(0);
    inputs.push(long);
    for bytes in inputs {
        assert_eq!(broker.handle_bytes(&link(1), &bytes, 1), vec![]);
        assert!(broker.is_pending(&hbfi(1)));
        assert_eq!(broker.cached(&hbfi(1)), None);
    }
    let out = broker.handle_bytes(&link(1), &good, 2);
    assert_eq!(out, vec![on(link(2), response(1, 1).nw)]);
}

#[test]
fn a_producer_files_responses_in_the_store() {
    let mut broker = broker_with_links(2);
    let nw = response_nw(1, 3, 0, 1);
    assert!(broker.insert_into_cs(nw));
    assert!(!broker.insert_into_cs(NarrowWaistPacket::Request { hbfi: hbfi(2) }));
    assert_eq!(broker.handle(&link(1), &request(1, 1), 0), vec![on(link(1), nw)]);
    assert!(!broker.is_pending(&hbfi(1)));
}

#[test]
fn the_link_of_a_packet_is_found_by_its_hop() {
    let mut broker = broker_with_links(3);
    broker.peer(LinkId::listen(ReplyTo::Mpsc(9)));
    assert_eq!(broker.link_id_of(&ReplyTo::Mpsc(102)), Some(link(2)));
    assert_eq!(broker.link_id_of(&ReplyTo::Mpsc(2)), None);
    assert_eq!(broker.link_id_of(&ReplyTo::Mpsc(9)), None);

    let forwarded = NarrowWaistPacket::Request { hbfi: hbfi(1) };
    assert_eq!(
        broker.receive(&request(1, 2), 0),
        vec![on(link(1), forwarded), on(link(3), forwarded), on(LinkId::listen(ReplyTo::Mpsc(9)), forwarded)]
    );
    let stranger = LinkPacket { reply_to: ReplyTo::Mpsc(55), nw: NarrowWaistPacket::Request { hbfi: hbfi(2) } };
    assert_eq!(broker.receive(&stranger, 0), vec![]);
    assert!(!broker.is_pending(&hbfi(2)));
    assert_eq!(broker.receive(&response(1, 1), 1), vec![on(link(2), response(1, 1).nw)]);
}
