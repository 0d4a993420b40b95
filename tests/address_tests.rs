use xchangefs::address::{parse_listen_address, AddressError, NetworkAddress, Protocol};

#[test]
fn test_ipv4_address_parsing() {
    let addr = "127.0.0.1:8082";
    let result = parse_listen_address(addr);
    assert!(result.is_ok());
    let multiaddr = result.unwrap();
    assert!(multiaddr.to_string().contains("/ip4/127.0.0.1/udp/8082/quic-v1"));
}

#[test]
fn test_ipv6_address_parsing() {
    let addr = "[::1]:8082";
    let result = parse_listen_address(addr);
    assert!(result.is_ok());
    let multiaddr = result.unwrap();
    assert!(multiaddr.to_string().contains("/ip6/::1/udp/8082/quic-v1"));
}

#[test]
fn test_invalid_address_format() {
    let addr = "invalid_address";
    let result = parse_listen_address(addr);
    assert!(result.is_err());
}

#[test]
fn test_invalid_ipv4_address() {
    let addr = "999.999.999.999:8080";
    let result = parse_listen_address(addr);
    assert!(result.is_err());
}

#[test]
fn test_invalid_ipv6_address() {
    let addr = "[gggg::1]:8080";
    let result = parse_listen_address(addr);
    assert!(result.is_err());
}

#[test]
fn test_empty_address_list() {
    let addr = "";
    let result = parse_listen_address(addr);
    assert!(result.is_err());
}

#[test]
fn ipv4_stack_layers() {
    let a = parse_listen_address("127.0.0.1:8082").unwrap();
    assert_eq!(
        a,
        NetworkAddress {
            layers: vec![Protocol::Ip4(vec![127, 0, 0, 1]), Protocol::Udp(8082), Protocol::QuicV1]
        }
    );
    assert_eq!(a.to_string(), "/ip4/127.0.0.1/udp/8082/quic-v1");
}

#[test]
fn ipv6_stack_layers() {
    let a = parse_listen_address("[::1]:8082").unwrap();
    assert_eq!(
        a,
        NetworkAddress {
            layers: vec![Protocol::Ip6(vec![0, 0, 0, 0, 0, 0, 0, 1]), Protocol::Udp(8082), Protocol::QuicV1]
        }
    );
    assert_eq!(a.to_string(), "/ip6/::1/udp/8082/quic-v1");
}

#[test]
fn ipv4_and_ipv6_differ_only_in_ip_layer() {
    let a = parse_listen_address("10.0.0.1:9000").unwrap();
    let b = parse_listen_address("[::a00:1]:9000").unwrap();
    assert_eq!(a.layers[1..], b.layers[1..]);
    assert!(matches!(a.layers[0], Protocol::Ip4(_)));
    assert!(matches!(b.layers[0], Protocol::Ip6(_)));
}

#[test]
fn error_variants() {
    assert_eq!(parse_listen_address(""), Err(AddressError::MalformedEndpoint));
    assert_eq!(parse_listen_address("invalid_address"), Err(AddressError::MalformedEndpoint));
    assert_eq!(parse_listen_address("127.0.0.1:"), Err(AddressError::InvalidPort));
    assert_eq!(parse_listen_address("127.0.0.1:80a"), Err(AddressError::InvalidPort));
    assert_eq!(parse_listen_address("127.0.0.1:65536"), Err(AddressError::InvalidPort));
    assert_eq!(parse_listen_address("999.999.999.999:8080"), Err(AddressError::InvalidIp));
    assert_eq!(parse_listen_address("[gggg::1]:8080"), Err(AddressError::InvalidIp));
    assert_eq!(parse_listen_address("localhost:8080"), Err(AddressError::InvalidIp));
}

#[test]
fn port_edges() {
    assert_eq!(parse_listen_address("0.0.0.0:0").unwrap().to_string(), "/ip4/0.0.0.0/udp/0/quic-v1");
    assert_eq!(
        parse_listen_address("1.2.3.4:65535").unwrap().to_string(),
        "/ip4/1.2.3.4/udp/65535/quic-v1"
    );
    assert_eq!(parse_listen_address("1.2.3.4:+80").unwrap().layers[1], Protocol::Udp(80));
    assert_eq!(parse_listen_address("1.2.3.4:0080").unwrap().layers[1], Protocol::Udp(80));
    assert_eq!(parse_listen_address("1.2.3.4:99999999999"), Err(AddressError::InvalidPort));
}

#[test]
fn ipv4_octet_rules() {
    assert_eq!(parse_listen_address("01.2.3.4:1"), Err(AddressError::InvalidIp));
    assert_eq!(parse_listen_address("1.2.3:1"), Err(AddressError::InvalidIp));
    assert_eq!(parse_listen_address("1.2.3.4.5:1"), Err(AddressError::InvalidIp));
    assert_eq!(parse_listen_address("256.0.0.1:1"), Err(AddressError::InvalidIp));
    assert_eq!(
        parse_listen_address("255.255.255.255:1").unwrap().layers[0],
        Protocol::Ip4(vec![255, 255, 255, 255])
    );
}

#[test]
fn ipv6_forms() {
    let full = parse_listen_address("[2001:db8:0:0:1:0:0:1]:443").unwrap();
    assert_eq!(full.layers[0], Protocol::Ip6(vec![0x2001, 0xdb8, 0, 0, 1, 0, 0, 1]));
    assert_eq!(full.to_string(), "/ip6/2001:db8::1:0:0:1/udp/443/quic-v1");
    let any = parse_listen_address("[::]:1").unwrap();
    assert_eq!(any.to_string(), "/ip6/::/udp/1/quic-v1");
    let bare = parse_listen_address("fe80::1:7").unwrap();
    assert_eq!(bare.layers[0], Protocol::Ip6(vec![0xfe80, 0, 0, 0, 0, 0, 0, 1]));
    assert_eq!(bare.layers[1], Protocol::Udp(7));
    let upper = parse_listen_address("[ABCD::EF01]:2").unwrap();
    assert_eq!(upper.to_string(), "/ip6/abcd::ef01/udp/2/quic-v1");
    let no_run = parse_listen_address("[1:2:3:4:5:6:0:8]:2").unwrap();
    assert_eq!(no_run.to_string(), "/ip6/1:2:3:4:5:6:0:8/udp/2/quic-v1");
    assert_eq!(parse_listen_address("[1::2::3]:1"), Err(AddressError::InvalidIp));
    assert_eq!(parse_listen_address("[1:2:3:4:5:6:7:8:9]:1"), Err(AddressError::InvalidIp));
    assert_eq!(parse_listen_address("[12345::1]:1"), Err(AddressError::InvalidIp));
    assert_eq!(parse_listen_address("[1:2:3:4:5:6:7:8::]:1"), Err(AddressError::InvalidIp));
    assert_eq!(parse_listen_address("[]:1"), Err(AddressError::InvalidIp));
}

#[test]
fn ipv6_with_ipv4_tail() {
    let mapped = parse_listen_address("[::ffff:1.2.3.4]:80").unwrap();
    assert_eq!(mapped.layers[0], Protocol::Ip6(vec![0, 0, 0, 0, 0, 0xffff, 0x0102, 0x0304]));
    assert_eq!(mapped.to_string(), "/ip6/::ffff:1.2.3.4/udp/80/quic-v1");
    let mapped_zero = parse_listen_address("[::ffff:0.0.0.0]:1").unwrap();
    assert_eq!(mapped_zero.to_string(), "/ip6/::ffff:0.0.0.0/udp/1/quic-v1");
    let not_mapped = parse_listen_address("[::fffe:1.2.3.4]:1").unwrap();
    assert_eq!(not_mapped.to_string(), "/ip6/::fffe:102:304/udp/1/quic-v1");
    let full = parse_listen_address("[1:2:3:4:5:6:10.0.0.1]:80").unwrap();
    assert_eq!(full.layers[0], Protocol::Ip6(vec![1, 2, 3, 4, 5, 6, 0x0a00, 0x0001]));
    assert_eq!(parse_listen_address("[1.2.3.4::]:1"), Err(AddressError::InvalidIp));
    assert_eq!(parse_listen_address("[::1.2.3.4:5]:1"), Err(AddressError::InvalidIp));
    assert_eq!(parse_listen_address("[1:2:3:4:5:6:7:1.2.3.4]:1"), Err(AddressError::InvalidIp));
}
