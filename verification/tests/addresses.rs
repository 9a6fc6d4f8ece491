//! Tests of `host:port` parsing and rendering.

use quorum_scaler::addr::{format_addr, parse_addr, PeerAddr};

fn pa(o0: u8, o1: u8, o2: u8, o3: u8, port: u16) -> PeerAddr {
    PeerAddr { o0, o1, o2, o3, port }
}

#[test]
fn canonical_address_parses() {
    assert_eq!(
        parse_addr(&b"10.0.0.1:4000".to_vec()),
        Some(pa(10, 0, 0, 1, 4000))
    );
    assert_eq!(
        parse_addr(&b"255.255.255.255:65535".to_vec()),
        Some(pa(255, 255, 255, 255, 65535))
    );
    assert_eq!(parse_addr(&b"0.0.0.0:0".to_vec()), Some(pa(0, 0, 0, 0, 0)));
}

#[test]
fn rendering_inverts_parsing() {
    let a = pa(192, 168, 0, 7, 4000);
    let text = format_addr(&a);
    assert_eq!(text, b"192.168.0.7:4000".to_vec());
    assert_eq!(parse_addr(&text), Some(a));
}

#[test]
fn out_of_range_pieces_are_rejected() {
    assert_eq!(parse_addr(&b"256.0.0.1:80".to_vec()), None);
    assert_eq!(parse_addr(&b"1.2.3.4:65536".to_vec()), None);
    assert_eq!(parse_addr(&b"999.2.3.4:80".to_vec()), None);
}

#[test]
fn leading_zeros_are_rejected() {
    assert_eq!(parse_addr(&b"01.2.3.4:80".to_vec()), None);
    assert_eq!(parse_addr(&b"1.2.3.4:080".to_vec()), None);
    assert_eq!(parse_addr(&b"1.02.3.4:80".to_vec()), None);
}

#[test]
fn malformed_addresses_are_rejected() {
    assert_eq!(parse_addr(&Vec::new()), None);
    assert_eq!(parse_addr(&b"1.2.3.4".to_vec()), None);
    assert_eq!(parse_addr(&b"1.2.3:80".to_vec()), None);
    assert_eq!(parse_addr(&b"1.2.3.4:".to_vec()), None);
    assert_eq!(parse_addr(&b"a.b.c.d:80".to_vec()), None);
    assert_eq!(parse_addr(&b"1.2.3.4:80 ".to_vec()), None);
    assert_eq!(parse_addr(&b"1.2.3.4.5:80".to_vec()), None);
}
