use copernica::address::parse_v4_bytes;
use copernica::link::SocketAddress;

#[test]
fn address_text_is_read() {
    assert_eq!(
        SocketAddress::parse_v4("127.0.0.1:50000"),
        Some(SocketAddress::v4([127, 0, 0, 1], 50000))
    );
    assert_eq!(SocketAddress::parse_v4("0.0.0.0:0"), Some(SocketAddress::v4([0, 0, 0, 0], 0)));
    assert_eq!(
        SocketAddress::parse_v4("255.255.255.255:65535"),
        Some(SocketAddress::v4([255, 255, 255, 255], 65535))
    );
    assert_eq!(
        SocketAddress::parse_v4("10.200.3.99:8072"),
        Some(SocketAddress::v4([10, 200, 3, 99], 8072))
    );
    assert_eq!(parse_v4_bytes(b"1.2.3.4:5"), Some(SocketAddress::v4([1, 2, 3, 4], 5)));
}

#[test]
fn text_that_is_no_address_is_refused() {
    let refused = [
        "",
        "127.0.0.1",
        "127.0.0.1:",
        "127.0.0.1:65536",
        "127.0.0.1:050000",
        "127.0.0.01:50000",
        "256.0.0.1:50000",
        "127.0.0:50000",
        "127.0.0.1.2:50000",
        "127.0.0.1:50000 ",
        " 127.0.0.1:50000",
        "127.0.0.1:50000:1",
        "127:0.0.1.50000",
        "127..0.1:50000",
        ".0.0.1:50000",
        "a.b.c.d:e",
        "127.0.0.1:99999999999999999999",
        "1111111111111111111111.0.0.1:5",
        "[::1]:50000",
        "127.0.0.1:+5",
    ];
    for text in refused {
        assert_eq!(SocketAddress::parse_v4(text), None);
    }
}
