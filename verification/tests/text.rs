use rustdht::addr::{ipv4_to_string, parse_ipv4, socket_addr_to_string, Ipv4Addr, SocketAddrV4};
use rustdht::text::push_decimal;

#[test]
fn formats_addresses() {
    assert_eq!(ipv4_to_string(&Ipv4Addr::new(127, 0, 0, 1)), "127.0.0.1");
    assert_eq!(ipv4_to_string(&Ipv4Addr::new(255, 255, 255, 255)), "255.255.255.255");
    assert_eq!(ipv4_to_string(&Ipv4Addr::new(0, 10, 99, 100)), "0.10.99.100");
    let a = SocketAddrV4::new(Ipv4Addr::new(10, 0, 0, 2), 15605);
    assert_eq!(socket_addr_to_string(&a), "10.0.0.2:15605");
}

#[test]
fn parses_dotted_decimal() {
    assert_eq!(parse_ipv4("127.0.0.1"), Some(Ipv4Addr::new(127, 0, 0, 1)));
    assert_eq!(parse_ipv4("0.0.0.0"), Some(Ipv4Addr::new(0, 0, 0, 0)));
    assert_eq!(parse_ipv4("255.255.255.255"), Some(Ipv4Addr::new(255, 255, 255, 255)));
    assert_eq!(parse_ipv4("192.168.10.200"), Some(Ipv4Addr::new(192, 168, 10, 200)));
}

#[test]
fn rejects_malformed_addresses() {
    for s in ["", "1.2.3", "1.2.3.4.", "1.2.3.4.5", "256.0.0.1", "01.2.3.4", "1.2.3.04", "1..2.3",
              " 1.2.3.4", "1.2.3.4 ", "a.b.c.d", "1000.1.1.1", "+1.2.3.4", "1.2.3.-4", "1.2.3.4:80"] {
        assert_eq!(parse_ipv4(s), None, "{}", s);
    }
}

#[test]
fn parse_reads_each_octet() {
    let ip = parse_ipv4("0.1.20.255").unwrap();
    assert_eq!(ip.octets(), [0, 1, 20, 255]);
    let ip = parse_ipv4("99.100.9.0").unwrap();
    assert_eq!(ip.octets(), [99, 100, 9, 0]);
}

#[test]
fn parse_after_format_gives_the_address_back() {
    for (a, b, c, d) in [(1u8, 2u8, 3u8, 4u8), (0, 0, 0, 0), (255, 0, 10, 9), (100, 200, 50, 7)] {
        let ip = Ipv4Addr::new(a, b, c, d);
        assert_eq!(parse_ipv4(&ipv4_to_string(&ip)), Some(ip));
    }
}

#[test]
fn decimal_numerals() {
    let mut s = String::from("n=");
    push_decimal(&mut s, 0);
    assert_eq!(s, "n=0");
    let mut s = String::new();
    push_decimal(&mut s, u64::MAX);
    assert_eq!(s, "18446744073709551615");
    let mut s = String::new();
    push_decimal(&mut s, 1000);
    assert_eq!(s, "1000");
}
