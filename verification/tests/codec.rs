use copernica::constants::FRAGMENT_SIZE;
use copernica::hbfi::BFI;
use copernica::hbfi::HBFI;
use copernica::link::ReplyTo;
use copernica::link::SocketAddress;
use copernica::packets::Data;
use copernica::packets::LinkPacket;
use copernica::packets::NarrowWaistPacket;
use copernica::wire::DecodeError;

fn udp(text: &str) -> ReplyTo {
    ReplyTo::UdpIp(SocketAddress::parse_v4(text).unwrap())
}

#[test]
fn less_than_1472_bytes() {
    let h1: BFI = [u16::MAX; 4];
    let id: BFI = [u16::MAX; 4];
    let hbfi = HBFI::new_test(h1, id, u64::MAX);
    let data = [0; FRAGMENT_SIZE as usize];
    let data: Data = Data { len: FRAGMENT_SIZE, data };
    let nw: NarrowWaistPacket =
        NarrowWaistPacket::Response { hbfi, data, offset: u64::MAX, total: u64::MAX };
    let reply_to: ReplyTo = udp("127.0.0.1:50000");
    let wp: LinkPacket = LinkPacket { reply_to, nw };
    let wp_ser = wp.encode();
    let lt1472 = if wp_ser.len() <= 1472 { true } else { false };
    assert_eq!(true, lt1472);
}

#[test]
fn response_over_ipv4_is_1075_bytes() {
    let hbfi = HBFI::new_test([1, 2, 3, 4], [5, 6, 7, 8], 9);
    let data = Data::new(&[1, 2, 3]).unwrap();
    let nw = NarrowWaistPacket::Response { hbfi, data, offset: 0, total: 1 };
    let wp = LinkPacket { reply_to: udp("127.0.0.1:50000"), nw };
    assert_eq!(wp.encode().len(), 8 + 1067);
}

#[test]
fn request_encoding_is_byte_exact() {
    let hbfi = HBFI::new_test([0x0102, 2, 3, 4], [5, 6, 7, 0xfffe], 0x0807060504030201);
    let wp = LinkPacket { reply_to: udp("127.0.0.1:50000"), nw: NarrowWaistPacket::Request { hbfi } };
    let expected: Vec<u8> = vec![
        1, 0, 127, 0, 0, 1, 0x50, 0xc3, // hop: UDP, IPv4, address, port 50000
        0, // request
        2, 1, 2, 0, 3, 0, 4, 0, // h1
        5, 0, 6, 0, 7, 0, 0xfe, 0xff, // id
        1, 2, 3, 4, 5, 6, 7, 8, // offset
    ];
    assert_eq!(wp.encode(), expected);
    assert_eq!(LinkPacket::decode(&expected), Ok(wp));
}

#[test]
fn round_trip_of_every_variant() {
    let hbfi = HBFI::new_test([0, u16::MAX, 1, 256], [255, 257, 0, 65534], u64::MAX - 1);
    let hops = vec![
        ReplyTo::Mpsc(0),
        ReplyTo::Mpsc(u32::MAX),
        udp("127.0.0.1:50000"),
        udp("255.255.255.255:65535"),
        ReplyTo::UdpIp(SocketAddress::v6([0, 0, 0, 0, 0, 0, 0, 0, 0, 0, 0, 0, 0, 0, 0, 1], 50001)),
        ReplyTo::UdpIp(SocketAddress::v6([255; 16], 0)),
    ];
    let payloads: Vec<Vec<u8>> = vec![vec![], vec![7], vec![0xff; 1024]];
    for hop in hops {
        let request = LinkPacket { reply_to: hop, nw: NarrowWaistPacket::Request { hbfi } };
        assert_eq!(LinkPacket::decode(&request.encode()), Ok(request));
        for payload in &payloads {
            for (offset, total) in [(0, 0), (0, 1), (u64::MAX, u64::MAX)] {
                let data = Data::new(payload).unwrap();
                let nw = NarrowWaistPacket::Response { hbfi, data, offset, total };
                let packet = LinkPacket { reply_to: hop, nw };
                let bytes = packet.encode();
                assert!(bytes.len() <= 1472);
                assert_eq!(LinkPacket::decode(&bytes), Ok(packet));
                assert_eq!(NarrowWaistPacket::decode(&nw.encode()), Ok(nw));
            }
        }
    }
}

#[test]
fn decode_names_the_first_fault() {
    let hbfi = HBFI::new_test([1, 2, 3, 4], [5, 6, 7, 8], 9);
    let data = Data::new(&[1, 2, 3]).unwrap();
    let nw = NarrowWaistPacket::Response { hbfi, data, offset: 0, total: 1 };
    let good = LinkPacket { reply_to: ReplyTo::Mpsc(3), nw }.encode();

    assert_eq!(LinkPacket::decode(&[]), Err(DecodeError::Truncated));
    assert_eq!(LinkPacket::decode(&good[..good.len() - 1]), Err(DecodeError::Truncated));
    assert_eq!(LinkPacket::decode(&good[..5]), Err(DecodeError::Truncated));

    let mut tag = good.clone();
    tag[0] = 2;
    assert_eq!(LinkPacket::decode(&tag), Err(DecodeError::UnknownDiscriminant));
    let mut inner = good.clone();
    inner[5] = 9;
    assert_eq!(LinkPacket::decode(&inner), Err(DecodeError::UnknownDiscriminant));
    assert_eq!(LinkPacket::decode(&[1, 2, 0, 0]), Err(DecodeError::UnknownDiscriminant));

    let mut long = good.clone();
    long[5 + 25] = 1;
    long[5 + 26] = 4; // announces 1025 bytes
    assert_eq!(LinkPacket::decode(&long), Err(DecodeError::FragmentTooLong));
    long[5 + 25] = 0; // announces 1024 bytes
    assert!(LinkPacket::decode(&long).is_ok());

    let mut trailing = good.clone();
    trailing.push(0);
    assert_eq!(LinkPacket::decode(&trailing), Err(DecodeError::TrailingBytes));
}

#[test]
fn fragment_holds_at_most_its_capacity() {
    assert!(Data::new(&[0; 1025]).is_none());
    let full = Data::new(&[9; 1024]).unwrap();
    assert_eq!(full.len, 1024);
    assert_eq!(full.to_vec(), vec![9; 1024]);
    let short = Data::new(&[1, 2]).unwrap();
    assert_eq!(short.len, 2);
    assert_eq!(short.to_vec(), vec![1, 2]);
    assert_eq!(short.data[2..], [0; 1022]);
}

#[test]
fn hbfi_encoding_round_trips() {
    let hbfi = HBFI::new_test([1, 2, 3, 4], [5, 6, 7, 8], 0x0102030405060708);
    let bytes = hbfi.encode();
    assert_eq!(bytes.len(), 24);
    assert_eq!(HBFI::decode(&bytes), Ok(hbfi));
    assert_eq!(HBFI::decode(&bytes[..23]), Err(DecodeError::Truncated));
    let mut longer = bytes.clone();
    longer.push(1);
    assert_eq!(HBFI::decode(&longer), Err(DecodeError::TrailingBytes));
}

#[test]
fn encoding_agrees_with_borsh() {
    let hbfi = HBFI::new_test([1, 2, 3, 4], [5, 6, 7, 8], 0x0102030405060708);
    assert_eq!(hbfi.encode(), borsh::to_vec(&(hbfi.h1, hbfi.id, hbfi.os)).unwrap());

    let data = Data::new(&[1, 2, 3]).unwrap();
    let nw = NarrowWaistPacket::Response { hbfi, data, offset: 7, total: u64::MAX };
    let packet = LinkPacket { reply_to: udp("127.0.0.1:50000"), nw };
    let mut expected: Vec<u8> = vec![1];
    expected.extend(borsh::to_vec(&(0u8, [127u8, 0, 0, 1], 50000u16)).unwrap());
    expected.push(1);
    expected.extend(borsh::to_vec(&(hbfi.h1, hbfi.id, hbfi.os)).unwrap());
    expected.extend(borsh::to_vec(&(data.len, data.data, 7u64, u64::MAX)).unwrap());
    assert_eq!(packet.encode(), expected);
}
