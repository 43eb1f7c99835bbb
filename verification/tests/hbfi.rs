use copernica::hbfi::bloom_filter_index;
use copernica::hbfi::BFI;
use copernica::hbfi::HBFI;
use copernica::hex::encode_hex;
use copernica::hex::parse_hex;
use copernica::named::generate_sdr_index;
use copernica::named::mk_data;
use copernica::named::mk_interest;
use copernica::named::Packet;

#[test]
fn test_bloom_filter_index() {
    let actual = bloom_filter_index("9".into());
    let expected: BFI = [4804, 63297, 3290, 20147];
    assert_eq!(actual, expected);
}

#[test]
fn bloom_filter_index_is_deterministic() {
    for name in ["", "9", "namable0", "namable_id0", "héllo wörld"] {
        assert_eq!(bloom_filter_index(name), bloom_filter_index(name));
    }
}

#[test]
fn bloom_filter_index_of_other_strings() {
    assert_eq!(bloom_filter_index(""), [42610, 44332, 27403, 57709]);
    assert_eq!(bloom_filter_index("namable0"), [6633, 29259, 56118, 55065]);
}

#[test]
fn bloom_filter_indices_rarely_collide() {
    let mut seen: Vec<BFI> = Vec::new();
    for n in 0..200 {
        let index = bloom_filter_index(&format!("name-{}", n));
        assert!(!seen.contains(&index));
        seen.push(index);
    }
}

#[test]
fn hbfi_new_starts_at_chunk_zero() {
    let hbfi = HBFI::new("9", "namable_id0");
    assert_eq!(hbfi.h1, [4804, 63297, 3290, 20147]);
    assert_eq!(hbfi.id, bloom_filter_index("namable_id0"));
    assert_eq!(hbfi.os, 0);
}

#[test]
fn hbfi_offset_changes_the_chunk_only() {
    let hbfi = HBFI::new_test([1, 2, 3, 4], [5, 6, 7, 8], 0);
    let moved = hbfi.offset(42);
    assert_eq!(moved, HBFI::new_test([1, 2, 3, 4], [5, 6, 7, 8], 42));
    assert!(moved.equals(&moved));
    assert!(!moved.equals(&hbfi));
    assert_ne!(moved, hbfi);
}

#[test]
fn hbfi_to_vec_gives_publisher_then_name() {
    let hbfi = HBFI::new_test([1, 2, 3, 4], [5, 6, 7, 8], 3);
    assert_eq!(hbfi.to_vec(), vec![[5, 6, 7, 8], [1, 2, 3, 4]]);
}

#[test]
fn hex_text_is_lowercase_and_reads_back() {
    assert_eq!(encode_hex(&[0x00, 0x9a, 0xff, 0x10]), b"009aff10".to_vec());
    assert_eq!(encode_hex(&[]), Vec::<u8>::new());
    assert_eq!(parse_hex(b"009aff10"), Some(0x009aff10));
    assert_eq!(parse_hex(b"FFFFFFFFFFFFFFFF"), Some(u64::MAX));
    assert_eq!(parse_hex(b"ffffffffffffffff"), Some(u64::MAX));
    assert_eq!(parse_hex(b"0"), Some(0));
    assert_eq!(parse_hex(b""), None);
    assert_eq!(parse_hex(b"00000000000000000"), None);
    assert_eq!(parse_hex(b"12g4"), None);
    assert_eq!(parse_hex(b"+1"), None);
}

#[test]
fn named_packets_carry_the_index_of_the_name() {
    let index = bloom_filter_index("9").to_vec();
    assert_eq!(generate_sdr_index("9".to_string()), vec![index.clone()]);
    assert_eq!(mk_interest("9".to_string()), Packet::Interest { sdri: vec![index.clone()] });
    assert_eq!(
        mk_data("9".to_string(), vec![1, 2, 3]),
        Packet::Data { sdri: vec![index], data: vec![1, 2, 3] }
    );
}
