use copernica::named::mk_data;
use copernica::named::mk_interest;
use copernica::named::Packet;
use copernica::wire::DecodeError;

#[test]
fn named_encoding_is_byte_exact() {
    let interest = Packet::Interest { sdri: vec![vec![0x0102, 3], vec![], vec![0xffff]] };
    let expected: Vec<u8> = vec![
        0, // interest
        3, 0, 0, 0, // three rows
        2, 0, 0, 0, 2, 1, 3, 0, // two elements
        0, 0, 0, 0, // none
        1, 0, 0, 0, 0xff, 0xff, // one
    ];
    assert_eq!(interest.encode(), Some(expected.clone()));
    assert_eq!(Packet::decode(&expected), Ok(interest));

    let data = Packet::Data { sdri: vec![vec![7]], data: vec![9, 8, 7] };
    let expected: Vec<u8> = vec![1, 1, 0, 0, 0, 1, 0, 0, 0, 7, 0, 3, 0, 0, 0, 9, 8, 7];
    assert_eq!(data.encode(), Some(expected.clone()));
    assert_eq!(Packet::decode(&expected), Ok(data));
}

#[test]
fn named_encoding_agrees_with_borsh() {
    let sdri: Vec<Vec<u16>> = vec![vec![1, 2, 3, 4], vec![], vec![65535, 0]];
    let data: Vec<u8> = vec![1, 2, 3, 4, 5];
    let mut expected: Vec<u8> = vec![1];
    expected.extend(borsh::to_vec(&(sdri.clone(), data.clone())).unwrap());
    assert_eq!(Packet::Data { sdri, data }.encode(), Some(expected));
}

#[test]
fn named_packets_round_trip() {
    let packets = vec![
        Packet::Interest { sdri: vec![] },
        Packet::Interest { sdri: vec![vec![]] },
        Packet::Data { sdri: vec![], data: vec![] },
        Packet::Data { sdri: vec![vec![1; 300], vec![2]], data: vec![3; 70000] },
        mk_interest("namable0".to_string()),
        mk_data("namable0".to_string(), vec![0, 1, 2]),
    ];
    for packet in packets {
        let bytes = packet.encode().unwrap();
        assert_eq!(Packet::decode(&bytes), Ok(packet));
    }
}

#[test]
fn named_decode_names_the_first_fault() {
    assert_eq!(Packet::decode(&[]), Err(DecodeError::Truncated));
    assert_eq!(Packet::decode(&[2, 0, 0, 0, 0]), Err(DecodeError::UnknownDiscriminant));
    assert_eq!(Packet::decode(&[0, 0, 0, 0]), Err(DecodeError::Truncated));
    // Two rows announced, room for one.
    assert_eq!(Packet::decode(&[0, 2, 0, 0, 0, 0, 0, 0, 0]), Err(DecodeError::LengthExceedsBuffer));
    // A row of three elements announced, two present.
    assert_eq!(
        Packet::decode(&[0, 1, 0, 0, 0, 3, 0, 0, 0, 1, 0, 2, 0]),
        Err(DecodeError::LengthExceedsBuffer)
    );
    // Two rows announced; the first takes all that is there.
    assert_eq!(
        Packet::decode(&[0, 2, 0, 0, 0, 2, 0, 0, 0, 1, 0, 2, 0]),
        Err(DecodeError::Truncated)
    );
    // The largest count there is.
    assert_eq!(
        Packet::decode(&[0, 255, 255, 255, 255, 0, 0, 0, 0]),
        Err(DecodeError::LengthExceedsBuffer)
    );
    assert_eq!(Packet::decode(&[0, 0, 0, 0, 0, 9]), Err(DecodeError::TrailingBytes));
    assert_eq!(Packet::decode(&[1, 0, 0, 0, 0]), Err(DecodeError::Truncated));
    assert_eq!(Packet::decode(&[1, 0, 0, 0, 0, 2, 0, 0, 0, 5]), Err(DecodeError::LengthExceedsBuffer));
    assert_eq!(
        Packet::decode(&[1, 0, 0, 0, 0, 1, 0, 0, 0, 5, 6]),
        Err(DecodeError::TrailingBytes)
    );
    assert_eq!(
        Packet::decode(&[1, 0, 0, 0, 0, 1, 0, 0, 0, 5]),
        Ok(Packet::Data { sdri: vec![], data: vec![5] })
    );
}
