//! One socket for trackers and the DHT.
use magpie_bt::session::udp::demux::{after_recv_error, Dispatch, RecvTurn, MAX_PENDING_TRACKER_TXNS};
use magpie_bt::session::udp::{DemuxError, UdpDemux};

const SECOND: u64 = 1_000_000_000;

fn answer(txid: u32) -> [u8; 20] {
    let mut resp = [0u8; 20];
    resp[..4].copy_from_slice(&1u32.to_be_bytes()); // action = announce
    resp[4..8].copy_from_slice(&txid.to_be_bytes());
    resp
}

#[test]
fn tracker_txid_roundtrip() {
    let mut demux: UdpDemux<&str, ()> = UdpDemux::new();
    let txid: u32 = 0xCAFE_BABE;
    demux.register_tracker_response(txid, "waiter", 0, 5 * SECOND).unwrap();
    assert!(matches!(demux.dispatch(&answer(txid)), Dispatch::Tracker("waiter")));
    // Nobody waits for it any more.
    assert!(matches!(demux.dispatch(&answer(txid)), Dispatch::Unmatched));
}

#[test]
fn dht_dispatch_routes_bencode_dict_to_subscriber() {
    let mut demux: UdpDemux<(), &str> = UdpDemux::new();
    demux.register_dht("dht").unwrap();
    assert!(matches!(demux.dispatch(b"de"), Dispatch::Dht));
    assert_eq!(demux.dht(), Some(&"dht"));
    assert_eq!(demux.dropped_unmatched(), 0);
}

#[test]
fn dht_dispatch_drops_when_no_subscriber_registered() {
    let mut demux: UdpDemux<(), ()> = UdpDemux::new();
    assert!(matches!(demux.dispatch(b"de"), Dispatch::Unmatched));
    assert_eq!(demux.dropped_unmatched(), 1);
}

#[test]
fn register_dht_twice_rejected() {
    let mut demux: UdpDemux<(), u8> = UdpDemux::new();
    demux.register_dht(1).unwrap();
    let err = demux.register_dht(2).unwrap_err();
    assert!(matches!(err, DemuxError::DhtAlreadyRegistered));
    assert_eq!(demux.dht(), Some(&1));
}

#[test]
fn dht_does_not_steal_tracker_responses() {
    let mut demux: UdpDemux<u8, u8> = UdpDemux::new();
    demux.register_dht(1).unwrap();
    let txid: u32 = 0xDEAD_BEEF;
    demux.register_tracker_response(txid, 9, 0, 5 * SECOND).unwrap();
    assert!(matches!(demux.dispatch(&answer(txid)), Dispatch::Tracker(9)));
}

#[test]
fn duplicate_txid_rejected() {
    let mut demux: UdpDemux<u8, ()> = UdpDemux::new();
    demux.register_tracker_response(42, 1, 0, 5 * SECOND).unwrap();
    let err = demux.register_tracker_response(42, 2, 0, 5 * SECOND).unwrap_err();
    assert!(matches!(err, DemuxError::DuplicateTransactionId(42)));
}

#[test]
fn short_packet_counted_as_unmatched() {
    let mut demux: UdpDemux<u8, ()> = UdpDemux::new();
    assert!(matches!(demux.dispatch(&[0u8; 4]), Dispatch::Unmatched));
    assert!(demux.dropped_unmatched() >= 1);
    demux.note_dropped();
    assert_eq!(demux.dropped_unmatched(), 2);
}

#[test]
fn overdue_transactions_are_given_up() {
    let mut demux: UdpDemux<u8, ()> = UdpDemux::new();
    demux.register_tracker_response(1, 1, 0, 5 * SECOND).unwrap();
    demux.register_tracker_response(2, 2, 0, 9 * SECOND).unwrap();
    demux.sweep_expired(6 * SECOND);
    assert!(matches!(demux.dispatch(&answer(1)), Dispatch::Unmatched));
    assert!(matches!(demux.dispatch(&answer(2)), Dispatch::Tracker(2)));
}

#[test]
fn transactions_are_limited() {
    let mut demux: UdpDemux<(), ()> = UdpDemux::new();
    for i in 0..MAX_PENDING_TRACKER_TXNS {
        demux.register_tracker_response(i as u32, (), 0, SECOND).unwrap();
    }
    let err = demux.register_tracker_response(u32::MAX, (), 0, SECOND).unwrap_err();
    assert!(matches!(err, DemuxError::TooManyPendingTransactions));
}

#[test]
fn receiving_goes_on_after_passing_failures() {
    assert!(matches!(after_recv_error(false), RecvTurn::Backoff(10_000_000)));
    assert!(matches!(after_recv_error(true), RecvTurn::Stop));
}
