use hive_tracker::address::{parse_ip, parse_socket, push_ip, same_ip, IpAddress, SocketAddress};

fn text(ip: IpAddress) -> String {
    let mut output = Vec::new();
    push_ip(&mut output, &ip);
    String::from_utf8(output).expect("addresses are ASCII")
}

#[test]
fn ipv4_addresses_are_read_and_written() {
    assert_eq!(
        parse_ip(b"192.0.2.255"),
        Some(IpAddress::V4([192, 0, 2, 255]))
    );
    assert_eq!(text(IpAddress::V4([10, 0, 0, 1])), "10.0.0.1");
    for refused in ["", "1.2.3", "1.2.3.4.5", "256.0.0.1", "01.2.3.4", "1.2.3.4 "] {
        assert_eq!(parse_ip(refused.as_bytes()), None, "{refused}");
    }
}

#[test]
fn ipv6_addresses_are_read_and_written() {
    let mut loopback = [0; 16];
    loopback[15] = 1;
    assert_eq!(parse_ip(b"::1"), Some(IpAddress::V6(loopback)));
    assert_eq!(parse_ip(b"0:0:0:0:0:0:0:1"), Some(IpAddress::V6(loopback)));
    for written in [
        "::",
        "::1",
        "2001:db8::8:800:200c:417a",
        "2001:db8:0:1:1:1:1:1",
        "fe80::1",
        "::ffff:192.0.2.1",
        "1::",
    ] {
        let ip = parse_ip(written.as_bytes()).expect("address should parse");
        assert_eq!(text(ip), written);
    }
    for refused in [":", "1:2:3", "1::2::3", "12345::", "::g", "1:2:3:4:5:6:7:8:9"] {
        assert_eq!(parse_ip(refused.as_bytes()), None, "{refused}");
    }
}

#[test]
fn addresses_are_written_in_their_shortest_form() {
    for (read, written) in [
        ("0:0:0:0:0:0:0:0", "::"),
        ("1:0:0:2::3", "1:0:0:2::3"),
        ("1:0:0:2:0:0:0:3", "1:0:0:2::3"),
        ("::1.2.3.4", "::102:304"),
        ("2001:0DB8::0001", "2001:db8::1"),
        ("0:0:0:0:0:ffff:1.2.3.4", "::ffff:1.2.3.4"),
    ] {
        let ip = parse_ip(read.as_bytes()).expect("address should parse");
        assert_eq!(text(ip), written);
    }
}

#[test]
fn equal_octets_are_equal_addresses() {
    let first = IpAddress::V4([1, 2, 3, 4]);
    assert!(same_ip(&first, &IpAddress::V4([1, 2, 3, 4])));
    assert!(!same_ip(&first, &IpAddress::V4([1, 2, 3, 5])));
    assert!(!same_ip(&first, &IpAddress::V6([0; 16])));
}

#[test]
fn socket_addresses_are_read() {
    assert_eq!(
        parse_socket(b"127.0.0.1:8080"),
        Some(SocketAddress {
            ip: IpAddress::V4([127, 0, 0, 1]),
            scope: 0,
            port: 8080
        })
    );
    let mut loopback = [0; 16];
    loopback[15] = 1;
    assert_eq!(
        parse_socket(b"[::1]:3000"),
        Some(SocketAddress {
            ip: IpAddress::V6(loopback),
            scope: 0,
            port: 3000
        })
    );
    assert_eq!(
        parse_socket(b"[::1%7]:3000"),
        Some(SocketAddress {
            ip: IpAddress::V6(loopback),
            scope: 7,
            port: 3000
        })
    );
    for refused in ["127.0.0.1", "127.0.0.1:", "127.0.0.1:65536", "::1:3000", "[::1]"] {
        assert_eq!(parse_socket(refused.as_bytes()), None, "{refused}");
    }
}
