//! Which peer addresses are let through.
use magpie_bt::net::{PeerAddr, PeerIp};
use magpie_bt::peer_filter::{DefaultPeerFilter, PeerFilter};

fn v4(octets: [u8; 4], port: u16) -> PeerAddr {
    PeerAddr { ip: PeerIp::V4(u32::from_be_bytes(octets)), port }
}

fn v6(ip: u128, port: u16) -> PeerAddr {
    PeerAddr { ip: PeerIp::V6(ip), port }
}

#[test]
fn default_rejects_loopback() {
    let f = DefaultPeerFilter::default();
    assert!(!f.allow(v4([127, 0, 0, 1], 6881)));
    assert!(!f.allow(v6(0x1, 6881)));
}

#[test]
fn default_rejects_link_local() {
    let f = DefaultPeerFilter::default();
    assert!(!f.allow(v4([169, 254, 1, 1], 6881)));
    assert!(!f.allow(v6(0xfe800000000000000000000000000001, 6881)));
}

#[test]
fn default_rejects_unspecified_and_multicast_and_broadcast() {
    let f = DefaultPeerFilter::default();
    assert!(!f.allow(v4([0, 0, 0, 0], 6881)));
    assert!(!f.allow(v6(0x0, 6881)));
    assert!(!f.allow(v4([224, 0, 0, 1], 6881)));
    assert!(!f.allow(v6(0xff020000000000000000000000000001, 6881)));
    assert!(!f.allow(v4([255, 255, 255, 255], 6881)));
}

#[test]
fn default_rejects_zero_port() {
    let f = DefaultPeerFilter::default();
    assert!(!f.allow(v4([8, 8, 8, 8], 0)));
}

#[test]
fn default_allows_private_by_default() {
    let f = DefaultPeerFilter::default();
    assert!(f.allow(v4([10, 0, 0, 1], 6881)));
    assert!(f.allow(v4([172, 16, 0, 1], 6881)));
    assert!(f.allow(v4([192, 168, 1, 1], 6881)));
    assert!(f.allow(v6(0xfc000000000000000000000000000001, 6881)));
    assert!(f.allow(v6(0xfd000000000000000000000000000001, 6881)));
}

#[test]
fn strict_rejects_private() {
    let f = DefaultPeerFilter::strict();
    assert!(!f.allow(v4([10, 0, 0, 1], 6881)));
    assert!(!f.allow(v4([192, 168, 1, 1], 6881)));
    assert!(!f.allow(v6(0xfc000000000000000000000000000001, 6881)));
}

#[test]
fn strict_still_rejects_loopback() {
    let f = DefaultPeerFilter::strict();
    assert!(!f.allow(v4([127, 0, 0, 1], 6881)));
}

#[test]
fn permissive_allows_loopback() {
    let f = DefaultPeerFilter::permissive_for_tests();
    assert!(f.allow(v4([127, 0, 0, 1], 6881)));
    assert!(f.allow(v6(0x1, 6881)));
}

#[test]
fn allows_global_unicast() {
    let f = DefaultPeerFilter::default();
    assert!(f.allow(v4([8, 8, 8, 8], 6881)));
    assert!(f.allow(v6(0x20010db8000000000000000000000001, 6881)));
}

#[test]
fn strict_is_strictest() {
    let addrs = [
        v4([8, 8, 8, 8], 6881),
        v4([10, 0, 0, 1], 6881),
        v4([127, 0, 0, 1], 6881),
        v6(0x20010db8000000000000000000000001, 1),
    ];
    for addr in addrs {
        if DefaultPeerFilter::strict().allow(addr) {
            assert!(DefaultPeerFilter::default().allow(addr));
            assert!(DefaultPeerFilter::permissive_for_tests().allow(addr));
        }
    }
}

#[test]
fn range_ends() {
    let f = DefaultPeerFilter::strict();
    assert!(f.allow(v4([172, 15, 255, 255], 1)));
    assert!(!f.allow(v4([172, 16, 0, 0], 1)));
    assert!(!f.allow(v4([172, 31, 255, 255], 1)));
    assert!(f.allow(v4([172, 32, 0, 0], 1)));
    assert!(!f.allow(v4([239, 255, 255, 255], 1)));
}
