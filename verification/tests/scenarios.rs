use copernica::broker::Broker;
use copernica::broker::Outbound;
use copernica::constants::FRAGMENT_SIZE;
use copernica::hbfi::HBFI;
use copernica::link::LinkId;
use copernica::link::ReplyTo;
use copernica::link::SocketAddress;
use copernica::packets::Data;
use copernica::packets::LinkPacket;
use copernica::packets::NarrowWaistPacket;
use copernica::requestor::CopernicaRequestor;

/// Brokers joined by links, and the datagrams in flight between them.
struct Net {
    brokers: Vec<Broker>,
    /// For a broker and its end of a link: the broker at the other end, and that broker's end.
    wires: Vec<((usize, LinkId), (usize, LinkId))>,
    in_flight: Vec<(usize, LinkId, Vec<u8>)>,
    /// How many datagrams in every hundred are damaged on the way.
    damage: u64,
    seed: u64,
    sent: usize,
    now: u64,
}

const CLIENT: usize = usize::MAX;

impl Net {
    fn new(brokers: usize, ttl: u64) -> Net {
        Net {
            brokers: (0..brokers).map(|_| Broker::new(ttl)).collect(),
            wires: Vec::new(),
            in_flight: Vec::new(),
            damage: 0,
            seed: 1,
            sent: 0,
            now: 0,
        }
    }

    fn join(&mut self, a: usize, a_end: ReplyTo, b: usize, b_end: ReplyTo) -> (LinkId, LinkId) {
        let a_link = LinkId::listen(a_end).remote(b_end);
        let b_link = LinkId::listen(b_end).remote(a_end);
        if a != CLIENT {
            assert!(self.brokers[a].peer(a_link));
        }
        if b != CLIENT {
            assert!(self.brokers[b].peer(b_link));
        }
        self.wires.push(((a, a_link), (b, b_link)));
        self.wires.push(((b, b_link), (a, a_link)));
        (a_link, b_link)
    }

    fn next_random(&mut self) -> u64 {
        self.seed = self.seed.wrapping_mul(6364136223846793005).wrapping_add(1442695040888963407);
        self.seed >> 33
    }

    fn send(&mut self, from: usize, link: LinkId, packet: LinkPacket) {
        let (to, to_link) = self.wires.iter().find(|w| w.0 == (from, link)).unwrap().1;
        let mut bytes = packet.encode();
        assert!(bytes.len() <= 1472);
        if self.next_random() % 100 < self.damage {
            let at = (self.next_random() as usize) % bytes.len();
            bytes[at] ^= 1 << (self.next_random() % 8);
        }
        self.sent += 1;
        self.in_flight.push((to, to_link, bytes));
    }

    /// Delivers datagrams until none is in flight; hands back what reached the client.
    fn run(&mut self) -> Vec<Vec<u8>> {
        let mut for_client = Vec::new();
        while !self.in_flight.is_empty() {
            let (to, link, bytes) = self.in_flight.remove(0);
            if to == CLIENT {
                for_client.push(bytes);
                continue;
            }
            let out: Vec<Outbound> = self.brokers[to].handle_bytes(&link, &bytes, self.now);
            for o in out {
                self.send(to, o.link, o.packet);
            }
        }
        for_client
    }
}

fn mpsc(n: u32) -> ReplyTo {
    ReplyTo::Mpsc(n)
}

fn udp(port: u16) -> ReplyTo {
    ReplyTo::UdpIp(SocketAddress::v4([127, 0, 0, 1], port))
}

fn file(len: usize) -> Vec<u8> {
    (0..len).map(|i| (i * 7 + 3) as u8).collect()
}

/// Files the chunks of `content` in the store of `broker`; hands back their identifiers.
fn publish(broker: &mut Broker, name: &str, id: &str, content: &[u8]) -> Vec<HBFI> {
    let chunks: Vec<&[u8]> = content.chunks(FRAGMENT_SIZE as usize).collect();
    let mut hbfis = Vec::new();
    for (i, chunk) in chunks.iter().enumerate() {
        let hbfi = HBFI::new(name, id).offset(i as u64);
        let data = Data::new(chunk).unwrap();
        let nw = NarrowWaistPacket::Response { hbfi, data, offset: i as u64, total: chunks.len() as u64 };
        assert!(broker.insert_into_cs(nw));
        hbfis.push(hbfi);
    }
    hbfis
}

/// One call of the requestor through the network; `None` for what did not arrive.
fn call(
    net: &mut Net,
    requestor: &mut CopernicaRequestor,
    link: LinkId,
    hbfis: &Vec<HBFI>,
) -> Vec<Option<NarrowWaistPacket>> {
    for packet in requestor.begin(hbfis) {
        net.send(CLIENT, link, packet);
    }
    for bytes in net.run() {
        if let Ok(packet) = LinkPacket::decode(&bytes) {
            requestor.receive(&packet);
        }
    }
    requestor.finish(hbfis)
}

fn reassemble(chunks: &Vec<Option<NarrowWaistPacket>>) -> Vec<u8> {
    let mut bytes = Vec::new();
    for (i, chunk) in chunks.iter().enumerate() {
        match chunk {
            Some(NarrowWaistPacket::Response { data, offset, total, .. }) => {
                assert_eq!(*offset, i as u64);
                assert_eq!(*total, chunks.len() as u64);
                bytes.extend(data.to_vec());
            }
            _ => panic!("chunk {} is missing", i),
        }
    }
    bytes
}

#[test]
fn sharing_test_smoke_test() {
    // Two brokers joined by one in-process link; the file lies at the first,
    // the requestor is attached to the second.
    let mut net = Net::new(2, 10);
    net.join(0, mpsc(1), 1, mpsc(2));
    let (client_link, _) = net.join(CLIENT, mpsc(3), 1, mpsc(4));
    let content = file(1025);
    let hbfis = publish(&mut net.brokers[0], "namable0", "namable_id0", &content);
    assert_eq!(hbfis.len(), 2);

    let mut requestor = CopernicaRequestor::new(client_link, "namable_id0".to_string());
    let chunks = call(&mut net, &mut requestor, client_link, &hbfis);
    assert_eq!(reassemble(&chunks), content);
    // The second broker learned the chunks on the way back.
    assert!(net.brokers[1].cached(&hbfis[0]).is_some());
    assert!(net.brokers[1].cached(&hbfis[1]).is_some());
    assert!(!net.brokers[1].is_pending(&hbfis[0]));
}

#[test]
fn corrupting_link_is_survived_by_retrying() {
    let mut net = Net::new(2, 10);
    net.join(0, mpsc(1), 1, mpsc(2));
    let (client_link, _) = net.join(CLIENT, mpsc(3), 1, mpsc(4));
    net.damage = 50;
    let content = file(5 * 1024 + 1);
    let hbfis = publish(&mut net.brokers[0], "namable0", "namable_id0", &content);
    let mut requestor = CopernicaRequestor::new(client_link, "namable_id0".to_string());

    let mut chunks = Vec::new();
    for round in 0..1000 {
        chunks = call(&mut net, &mut requestor, client_link, &hbfis);
        if chunks.iter().all(|c| c.is_some()) {
            break;
        }
        // What was lost stays pending at the brokers until it expires.
        net.now = (round + 1) * 11;
        for broker in net.brokers.iter_mut() {
            broker.expire(net.now);
        }
    }
    // Every chunk arrived. A flipped bit that leaves the encoding valid is
    // not seen by anyone, so the payload itself is not compared.
    assert_eq!(chunks.len(), 6);
    for (chunk, hbfi) in chunks.iter().zip(hbfis.iter()) {
        match chunk {
            Some(NarrowWaistPacket::Response { hbfi: answered, data, offset, total }) => {
                assert_eq!(answered, hbfi);
                assert!(data.len <= FRAGMENT_SIZE);
                assert!(offset < total);
            }
            _ => panic!("a chunk is missing"),
        }
    }
}

#[test]
fn ftp_test_smoke_test() {
    // F0 - B0 - B1 - F1, the hop in the middle over UDP.
    let mut net = Net::new(3, 10);
    net.join(0, mpsc(1), 1, mpsc(2));
    net.join(1, udp(50000), 2, udp(50001));
    let (client_link, _) = net.join(CLIENT, mpsc(3), 2, mpsc(4));
    let content = file(2024);
    let hbfis = publish(&mut net.brokers[0], "namable0", "namable_id0", &content);

    let mut requestor = CopernicaRequestor::new(client_link, "namable_id0".to_string());
    let chunks = call(&mut net, &mut requestor, client_link, &hbfis);
    assert_eq!(reassemble(&chunks), content);
    for broker in net.brokers.iter() {
        for hbfi in hbfis.iter() {
            assert!(!broker.is_pending(hbfi));
        }
    }
}

#[test]
fn second_call_is_answered_from_the_cache() {
    let mut net = Net::new(1, 10);
    let (client_link, _) = net.join(CLIENT, mpsc(3), 0, mpsc(4));
    let content = file(10);
    let hbfis = publish(&mut net.brokers[0], "namable0", "namable_id0", &content);
    let mut requestor = CopernicaRequestor::new(client_link, "namable_id0".to_string());
    let first = call(&mut net, &mut requestor, client_link, &hbfis);
    assert_eq!(reassemble(&first), content);

    // The link is cut: nothing can be sent, and nothing is.
    let sent_before = net.sent;
    assert_eq!(requestor.begin(&hbfis), vec![]);
    assert_eq!(requestor.finish(&hbfis), first);
    assert_eq!(net.sent, sent_before);
}

#[test]
fn unanswered_request_times_out_and_leaves_no_state() {
    let mut net = Net::new(2, 10);
    net.join(0, mpsc(1), 1, mpsc(2));
    let (client_link, _) = net.join(CLIENT, mpsc(3), 1, mpsc(4));
    let mut requestor = CopernicaRequestor::new(client_link, "namable_id0".to_string());
    let names = vec!["nobody has this".to_string()];
    let hbfis = requestor.identifiers(&names);
    assert_eq!(call(&mut net, &mut requestor, client_link, &hbfis), vec![None]);
    assert!(net.brokers[0].is_pending(&hbfis[0]));
    assert!(net.brokers[1].is_pending(&hbfis[0]));
    for broker in net.brokers.iter_mut() {
        broker.expire(11);
        assert!(!broker.is_pending(&hbfis[0]));
    }
}

#[test]
fn largest_packet_fits_one_datagram() {
    let hbfi = HBFI::new_test([u16::MAX; 4], [u16::MAX; 4], u64::MAX);
    let data = Data { len: FRAGMENT_SIZE, data: [0xff; 1024] };
    let nw = NarrowWaistPacket::Response { hbfi, data, offset: u64::MAX, total: u64::MAX };
    let v4 = LinkPacket { reply_to: udp(50000), nw };
    assert_eq!(v4.encode().len(), 1075);
    let v6 = LinkPacket { reply_to: ReplyTo::UdpIp(SocketAddress::v6([0xff; 16], u16::MAX)), nw };
    assert_eq!(v6.encode().len(), 1087);
    assert!(v6.encode().len() <= 1472);
}

#[test]
fn request_in_a_ring_is_forwarded_once_by_each_broker() {
    // Three brokers in a ring: the flood meets itself and stops.
    let mut net = Net::new(3, 10);
    net.join(0, mpsc(1), 1, mpsc(2));
    net.join(1, mpsc(3), 2, mpsc(4));
    net.join(2, mpsc(5), 0, mpsc(6));
    let (client_link, _) = net.join(CLIENT, mpsc(7), 0, mpsc(8));
    let mut requestor = CopernicaRequestor::new(client_link, "namable_id0".to_string());
    let hbfis = vec![HBFI::new("namable0", "namable_id0")];
    assert_eq!(call(&mut net, &mut requestor, client_link, &hbfis), vec![None]);
    // One datagram from the client, two from the broker it is attached to,
    // and one from each of the others: no broker sends back where the
    // request came from, and none forwards it twice.
    assert_eq!(net.sent, 1 + 2 + 1 + 1);
}
