//! Peer exchange.
use magpie_bt::net::{PeerAddr, PeerIp};
use magpie_bt::session::pex::{PexState, MAX_PEX_ADVERTISE, PEX_INBOUND_INTERVAL, PEX_INTERVAL};
use magpie_bt::PeerSlot;

fn addr(port: u16) -> PeerAddr {
    PeerAddr { ip: PeerIp::V4(0x0a00_0001), port }
}

#[test]
fn private_torrent_disables_pex() {
    let pex = PexState::new(true);
    assert!(!pex.is_enabled());
}

#[test]
fn public_torrent_enables_pex() {
    let pex = PexState::new(false);
    assert!(pex.is_enabled());
}

#[test]
fn empty_diff_returns_none() {
    let mut pex = PexState::new(false);
    let peers = Vec::new();
    assert!(pex.build_message(&peers).is_none());
}

#[test]
fn build_message_added() {
    let mut pex = PexState::new(false);
    let mut peers = Vec::new();
    peers.push((PeerSlot(0), addr(6881)));
    peers.push((PeerSlot(1), addr(6882)));

    let msg = pex.build_message(&peers).unwrap();
    assert_eq!(msg.added.len(), 2);
    assert!(msg.dropped.is_empty());

    // Second call with same peers should return None.
    assert!(pex.build_message(&peers).is_none());
}

#[test]
fn build_message_dropped() {
    let mut pex = PexState::new(false);
    let mut peers = Vec::new();
    peers.push((PeerSlot(0), addr(6881)));
    peers.push((PeerSlot(1), addr(6882)));

    // First round: both added.
    let _ = pex.build_message(&peers);

    // Remove one peer.
    peers.retain(|p| p.0 != PeerSlot(1));
    let msg = pex.build_message(&peers).unwrap();
    assert!(msg.added.is_empty());
    assert_eq!(msg.dropped.len(), 1);
    assert_eq!(msg.dropped[0], addr(6882));
}

#[test]
fn build_message_caps_at_50() {
    let mut pex = PexState::new(false);
    let mut peers = Vec::new();
    for i in 0..100u16 {
        peers.push((PeerSlot(u64::from(i)), addr(6000 + i)));
    }

    let msg = pex.build_message(&peers).unwrap();
    assert!(msg.added.len() <= MAX_PEX_ADVERTISE);
}

#[test]
fn should_send_to_respects_interval() {
    let mut pex = PexState::new(false);
    let slot = PeerSlot(0);
    let now = 1_000_000_000;

    // Never sent before — should send.
    assert!(pex.should_send_to(slot, now));

    // Record a send.
    pex.record_sent(slot, now);

    // Immediately after — should not send.
    assert!(!pex.should_send_to(slot, now));

    // After 60 seconds — should send.
    let later = now + PEX_INTERVAL;
    assert!(pex.should_send_to(slot, later));
}

#[test]
fn peer_disconnected_clears_tracking() {
    let mut pex = PexState::new(false);
    let slot = PeerSlot(0);
    pex.record_sent(slot, 1_000_000_000);
    pex.peer_disconnected(slot);
    // After disconnect, should_send_to returns true (no record).
    assert!(pex.should_send_to(slot, 1_000_000_000));
}

#[test]
fn capped_peers_are_told_of_later() {
    let mut pex = PexState::new(false);
    let peers: Vec<(PeerSlot, PeerAddr)> =
        (0..70u16).map(|i| (PeerSlot(u64::from(i)), addr(6000 + i))).collect();
    let first = pex.build_message(&peers).unwrap();
    assert_eq!(first.added.len(), 50);
    assert_eq!(first.added[0].addr, addr(6000));
    let second = pex.build_message(&peers).unwrap();
    assert_eq!(second.added.len(), 20);
    assert_eq!(second.added[0].addr, addr(6050));
    assert!(pex.build_message(&peers).is_none());
}

#[test]
fn messages_are_taken_at_most_so_often() {
    let mut pex = PexState::new(false);
    let slot = PeerSlot(3);
    assert!(pex.should_accept_from(slot, 0));
    pex.record_received(slot, 0);
    assert!(!pex.should_accept_from(slot, PEX_INBOUND_INTERVAL - 1));
    assert!(pex.should_accept_from(slot, PEX_INBOUND_INTERVAL));
}
