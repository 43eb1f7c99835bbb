use copernica::hbfi::HBFI;
use copernica::link::LinkId;
use copernica::link::ReplyTo;
use copernica::link::SocketAddress;
use copernica::links::corrupt;
use copernica::links::Link;
use copernica::links::LinkKind;
use copernica::packets::LinkPacket;
use copernica::packets::NarrowWaistPacket;

fn udp(port: u16) -> ReplyTo {
    ReplyTo::UdpIp(SocketAddress::v4([127, 0, 0, 1], port))
}

fn request(reply_to: ReplyTo) -> LinkPacket {
    let hbfi = HBFI::new_test([1, 2, 3, 4], [5, 6, 7, 8], 0);
    LinkPacket { reply_to, nw: NarrowWaistPacket::Request { hbfi } }
}

#[test]
fn a_link_needs_ends_of_its_transport() {
    let channel = LinkId::listen(ReplyTo::Mpsc(1)).remote(ReplyTo::Mpsc(2));
    let socket = LinkId::listen(udp(50000)).remote(udp(50001));
    let mixed = LinkId::listen(udp(50000)).remote(ReplyTo::Mpsc(2));
    assert!(Link::new(channel, LinkKind::MpscChannel).is_some());
    assert!(Link::new(channel, LinkKind::MpscCorruptor).is_some());
    assert!(Link::new(channel, LinkKind::UdpIp).is_none());
    assert!(Link::new(socket, LinkKind::UdpIp).is_some());
    assert!(Link::new(socket, LinkKind::MpscChannel).is_none());
    assert!(Link::new(mixed, LinkKind::UdpIp).is_none());
    assert!(Link::new(mixed, LinkKind::MpscChannel).is_none());
    assert!(Link::new(LinkId::listen(udp(50000)), LinkKind::UdpIp).is_some());
    assert_eq!(Link::new(socket, LinkKind::UdpIp).unwrap().link_id(), socket);
}

#[test]
fn transmit_encodes_and_rewrites_nothing() {
    let socket = LinkId::listen(udp(50000)).remote(udp(50001));
    let link = Link::new(socket, LinkKind::UdpIp).unwrap();
    let packet = request(udp(50000));
    assert_eq!(link.transmit(&packet), Some(packet.encode()));
    assert_eq!(link.transmit(&request(ReplyTo::Mpsc(1))), None);
    let listening = Link::new(LinkId::listen(udp(50000)), LinkKind::UdpIp).unwrap();
    assert_eq!(listening.transmit(&packet), None);
}

#[test]
fn deliver_drops_what_it_cannot_read() {
    let channel = LinkId::listen(ReplyTo::Mpsc(1)).remote(ReplyTo::Mpsc(2));
    let link = Link::new(channel, LinkKind::MpscCorruptor).unwrap();
    let packet = request(ReplyTo::Mpsc(2));
    let mut bytes = packet.encode();
    assert_eq!(link.deliver(&bytes), Some(packet));
    assert_eq!(link.deliver(&request(udp(50000)).encode()), None);
    corrupt(&mut bytes, 0, 0x80);
    assert_eq!(link.deliver(&bytes), None);
    corrupt(&mut bytes, 0, 0x80);
    assert_eq!(link.deliver(&bytes), Some(packet));
    assert_eq!(link.deliver(&[]), None);
}

#[test]
fn corrupt_flips_the_bits_of_one_byte() {
    let mut bytes = vec![0b1010_1010, 0xff, 0];
    corrupt(&mut bytes, 0, 0b0000_1111);
    corrupt(&mut bytes, 2, 0xff);
    corrupt(&mut bytes, 3, 0xff);
    assert_eq!(bytes, vec![0b1010_0101, 0xff, 0xff]);
}

#[test]
fn a_full_inbox_drops_the_newest_packet() {
    let mut inbox = copernica::links::Inbox::new(2);
    let a = request(ReplyTo::Mpsc(1));
    let b = request(ReplyTo::Mpsc(2));
    let c = request(ReplyTo::Mpsc(3));
    assert_eq!(inbox.take(), None);
    assert!(inbox.offer(a));
    assert!(inbox.offer(b));
    assert!(!inbox.offer(c));
    assert!(!inbox.offer(c));
    assert_eq!(inbox.dropped(), 2);
    assert_eq!(inbox.len(), 2);
    assert_eq!(inbox.take(), Some(a));
    assert!(inbox.offer(c));
    assert_eq!(inbox.take(), Some(b));
    assert_eq!(inbox.take(), Some(c));
    assert_eq!(inbox.take(), None);
    assert_eq!(inbox.dropped(), 2);
}

#[test]
fn an_inbox_without_room_takes_nothing() {
    let mut inbox = copernica::links::Inbox::new(0);
    assert!(!inbox.offer(request(ReplyTo::Mpsc(1))));
    assert_eq!(inbox.dropped(), 1);
    assert_eq!(inbox.len(), 0);
}
