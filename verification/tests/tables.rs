use copernica::content_store::store_key;
use copernica::content_store::store_prefix;
use copernica::content_store::Fs;
use copernica::hbfi::HBFI;
use copernica::link::LinkId;
use copernica::link::ReplyTo;
use copernica::link::SocketAddress;
use copernica::packets::Data;
use copernica::packets::NarrowWaistPacket;
use copernica::pit::PendingInterestTable;
use copernica::pit::PitOutcome;
use copernica::table::Table;

fn hbfi(n: u16, os: u64) -> HBFI {
    HBFI::new_test([n, 2, 3, 4], [5, 6, 7, 8], os)
}

fn link(n: u32) -> LinkId {
    LinkId::listen(ReplyTo::Mpsc(n)).remote(ReplyTo::Mpsc(n + 100))
}

fn response(h: HBFI, byte: u8) -> NarrowWaistPacket {
    NarrowWaistPacket::Response { hbfi: h, data: Data::new(&[byte]).unwrap(), offset: 0, total: 1 }
}

#[test]
fn table_keeps_one_value_for_each_key() {
    let mut table: Table<u32> = Table::new();
    assert_eq!(table.len(), 0);
    assert_eq!(table.get(&hbfi(1, 0)), None);
    table.insert(hbfi(1, 0), 10);
    table.insert(hbfi(2, 0), 20);
    table.insert(hbfi(1, 1), 30);
    table.insert(hbfi(1, 0), 11);
    assert_eq!(table.len(), 3);
    assert_eq!(table.get(&hbfi(1, 0)), Some(&11));
    assert_eq!(table.get(&hbfi(2, 0)), Some(&20));
    assert_eq!(table.get(&hbfi(1, 1)), Some(&30));
    assert_eq!(table.position(&hbfi(2, 0)), Some(1));
    assert_eq!(table.key_at(2), hbfi(1, 1));
    assert_eq!(table.value_at(2), &30);
    assert_eq!(table.remove(&hbfi(2, 0)), Some(20));
    assert_eq!(table.remove(&hbfi(2, 0)), None);
    assert_eq!(table.len(), 2);
    assert_eq!(table.remove_at(0), (hbfi(1, 0), 11));
    assert_eq!(table.get(&hbfi(1, 1)), Some(&30));
}

#[test]
fn link_ids_are_equal_when_both_ends_match() {
    let listening = LinkId::listen(ReplyTo::Mpsc(1));
    assert!(listening.is_listening());
    assert_eq!(listening.remote, None);
    let met = listening.remote(ReplyTo::Mpsc(2));
    assert!(!met.is_listening());
    assert_eq!(met.local, ReplyTo::Mpsc(1));
    assert_eq!(met.remote, Some(ReplyTo::Mpsc(2)));
    assert!(met.equals(&LinkId::listen(ReplyTo::Mpsc(1)).remote(ReplyTo::Mpsc(2))));
    assert!(!met.equals(&listening));
    assert!(!met.equals(&listening.remote(ReplyTo::Mpsc(3))));
    let a = ReplyTo::UdpIp(SocketAddress::v4([127, 0, 0, 1], 50000));
    let b = ReplyTo::UdpIp(SocketAddress::v4([127, 0, 0, 1], 50001));
    let c = ReplyTo::UdpIp(SocketAddress::v6([0; 16], 50000));
    assert!(a.equals(&a));
    assert!(!a.equals(&b));
    assert!(!a.equals(&c));
    assert!(!a.equals(&ReplyTo::Mpsc(1)));
    assert!(LinkId::listen(a).remote(b).equals(&LinkId::listen(a).remote(b)));
    assert!(!LinkId::listen(a).remote(b).equals(&LinkId::listen(b).remote(a)));
}

#[test]
fn pit_says_first_hop_once() {
    let mut pit = PendingInterestTable::new(10);
    assert!(!pit.is_pending(&hbfi(1, 0)));
    assert_eq!(pit.record(hbfi(1, 0), link(1), 100), PitOutcome::FirstHop);
    assert!(pit.is_pending(&hbfi(1, 0)));
    assert_eq!(pit.record(hbfi(1, 0), link(1), 101), PitOutcome::Duplicate);
    assert_eq!(pit.record(hbfi(1, 0), link(2), 102), PitOutcome::Duplicate);
    assert_eq!(pit.record(hbfi(1, 0), link(2), 103), PitOutcome::Duplicate);
    assert_eq!(pit.record(hbfi(1, 1), link(3), 104), PitOutcome::FirstHop);
    assert_eq!(pit.len(), 2);
    assert_eq!(pit.resolve(&hbfi(1, 0)), Some(vec![link(1), link(2)]));
    assert_eq!(pit.resolve(&hbfi(1, 0)), None);
    assert_eq!(pit.record(hbfi(1, 0), link(2), 105), PitOutcome::FirstHop);
    assert_eq!(pit.resolve(&hbfi(1, 0)), Some(vec![link(2)]));
    assert_eq!(pit.resolve(&hbfi(1, 1)), Some(vec![link(3)]));
    assert_eq!(pit.len(), 0);
}

#[test]
fn pit_expires_entries_older_than_its_time_to_live() {
    let mut pit = PendingInterestTable::new(10);
    pit.record(hbfi(1, 0), link(1), 100);
    pit.record(hbfi(2, 0), link(1), 105);
    pit.record(hbfi(3, 0), link(1), 111);
    pit.record(hbfi(1, 0), link(2), 109);
    pit.expire(110);
    assert_eq!(pit.len(), 3);
    pit.expire(50);
    assert_eq!(pit.len(), 3);
    pit.expire(111);
    assert!(!pit.is_pending(&hbfi(1, 0)));
    assert!(pit.is_pending(&hbfi(2, 0)));
    assert!(pit.is_pending(&hbfi(3, 0)));
    pit.expire(121);
    assert!(!pit.is_pending(&hbfi(2, 0)));
    assert!(pit.is_pending(&hbfi(3, 0)));
    pit.expire(u64::MAX);
    assert_eq!(pit.len(), 0);
}

#[test]
fn pit_with_the_longest_time_to_live_keeps_everything() {
    let mut pit = PendingInterestTable::new(u64::MAX);
    pit.record(hbfi(1, 0), link(1), 0);
    pit.expire(u64::MAX);
    assert!(pit.is_pending(&hbfi(1, 0)));
}

#[test]
fn store_keeps_the_last_response_put() {
    let mut store = Fs::new();
    assert_eq!(store.len(), 0);
    assert_eq!(store.has_data(&hbfi(1, 0)), None);
    store.put_data(response(hbfi(1, 0), 1));
    store.put_data(response(hbfi(1, 1), 2));
    assert_eq!(store.has_data(&hbfi(1, 0)), Some(response(hbfi(1, 0), 1)));
    store.put_data(response(hbfi(1, 0), 1));
    assert_eq!(store.len(), 2);
    store.put_data(response(hbfi(1, 0), 3));
    assert_eq!(store.len(), 2);
    assert_eq!(store.has_data(&hbfi(1, 0)), Some(response(hbfi(1, 0), 3)));
    assert_eq!(store.has_data(&hbfi(1, 1)), Some(response(hbfi(1, 1), 2)));
    store.put_data(NarrowWaistPacket::Request { hbfi: hbfi(9, 0) });
    assert_eq!(store.len(), 2);
    assert_eq!(store.has_data(&hbfi(9, 0)), None);
}

#[test]
fn store_key_is_publisher_name_and_offset_high_byte_first() {
    let h = HBFI::new_test([0x0102, 2, 3, 4], [5, 6, 7, 0xfffe], 0x0102030405060708);
    let expected: Vec<u8> = vec![
        5, 0, 6, 0, 7, 0, 0xfe, 0xff, // publisher
        2, 1, 2, 0, 3, 0, 4, 0, // name
        1, 2, 3, 4, 5, 6, 7, 8, // offset
    ];
    assert_eq!(store_key(&h), expected);
    assert_eq!(store_prefix(&h), expected[..16].to_vec());
    assert_eq!(store_prefix(&h.offset(77)), expected[..16].to_vec());
}

#[test]
fn store_keys_of_one_object_sort_by_offset() {
    let offsets = [0u64, 1, 255, 256, 65535, 65536, 1 << 32, u64::MAX - 1, u64::MAX];
    for a in offsets {
        for b in offsets {
            assert_eq!(store_key(&hbfi(1, a)) < store_key(&hbfi(1, b)), a < b);
        }
    }
}
