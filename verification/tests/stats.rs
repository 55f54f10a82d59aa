//! Transfer counters.
use magpie_bt::session::stats::sink::{decode_sidecar, encode_bencode};
use magpie_bt::session::stats::{
    FileStatsSink, PeerStats, PerTorrentStats, StatsSinkError, StatsSnapshot,
};

#[test]
fn snapshot_sums_live_and_disconnected() {
    let t = PerTorrentStats::new();
    let mut p1 = PeerStats::new();
    let mut p2 = PeerStats::new();
    p1.add_uploaded(100);
    p1.add_downloaded(200);
    p2.add_uploaded(50);
    p2.add_downloaded(25);
    let (up, down) = t.snapshot(&[&p1, &p2]);
    assert_eq!(up, 150);
    assert_eq!(down, 225);
}

#[test]
fn retire_peer_preserves_counters() {
    let mut t = PerTorrentStats::new();
    let mut p = PeerStats::new();
    p.add_uploaded(500);
    p.add_downloaded(700);
    // Retire before the peer is removed from the live set.
    t.retire_peer(&p);
    // Snapshot now excludes p from the live set; disconnected sum
    // should hold its counters.
    let (up, down) = t.snapshot(&[]);
    assert_eq!(up, 500);
    assert_eq!(down, 700);
}

#[test]
fn snapshot_during_disconnect_never_loses_counters() {
    let mut t = PerTorrentStats::new();
    let mut p1 = PeerStats::new();
    let mut p2 = PeerStats::new();
    p1.add_uploaded(10);
    p2.add_uploaded(20);
    // Before retirement: sum = 30, disc = 0.
    let (up, _) = t.snapshot(&[&p1, &p2]);
    assert_eq!(up, 30);
    // Retire p2 but keep p1 in live-set.
    t.retire_peer(&p2);
    // After: live-set {p1} + disc = 30.
    let (up, _) = t.snapshot(&[&p1]);
    assert_eq!(up, 30);
}

#[test]
fn file_sink_writes_bencode_sidecar() {
    let mut sink = FileStatsSink::new(b"/state".to_vec());
    let snap = StatsSnapshot { info_hash: [0xABu8; 20], uploaded: 12345, downloaded: 67890 };
    sink.enqueue(snap).unwrap();
    let mut flush = sink.flush_now();
    let w = flush.next(0).unwrap();
    assert_eq!(w.path, sink.sidecar_path(&[0xABu8; 20]));
    let expected = b"d10:downloadedi67890e8:uploadedi12345ee";
    assert_eq!(w.payload, expected);
    assert!(flush.next(0).is_none());
}

#[test]
fn sink_enqueue_deduplicates_on_info_hash() {
    let mut sink = FileStatsSink::new(b"/state".to_vec());
    let hash = [0x11u8; 20];
    sink.enqueue(StatsSnapshot { info_hash: hash, uploaded: 1, downloaded: 1 }).unwrap();
    sink.enqueue(StatsSnapshot { info_hash: hash, uploaded: 100, downloaded: 200 }).unwrap();
    let mut flush = sink.flush_now();
    let bytes = flush.next(0).unwrap().payload.clone();
    assert!(bytes.windows(3).any(|w| w == b"100"));
    assert!(bytes.windows(3).any(|w| w == b"200"));
    assert!(flush.next(0).is_none());
}

#[test]
fn sink_flush_graceful_is_bounded() {
    let mut sink = FileStatsSink::new(b"/state".to_vec());
    sink.enqueue(StatsSnapshot { info_hash: [0x22u8; 20], uploaded: 42, downloaded: 42 }).unwrap();
    let mut flush = sink.flush_graceful(7, 1_000_000_000);
    assert!(flush.next(1_000_000_007).is_some());
    sink.enqueue(StatsSnapshot { info_hash: [0x22u8; 20], uploaded: 42, downloaded: 42 }).unwrap();
    let mut late = sink.flush_graceful(7, 1_000_000_000);
    assert!(late.next(1_000_000_008).is_none());
    assert!(late.next(7).is_none());
}

#[test]
fn sidecars_are_read_back() {
    let snap = StatsSnapshot { info_hash: [7u8; 20], uploaded: 5, downloaded: 0 };
    let bytes = encode_bencode(&snap);
    let back = decode_sidecar(&bytes, &[7u8; 20]).unwrap();
    assert_eq!((back.info_hash, back.uploaded, back.downloaded), ([7u8; 20], 5, 0));
}

#[test]
fn bad_sidecars_are_refused() {
    for bytes in [&b"x"[..], b"i1e", b"de", b"d10:downloadedi1ee"] {
        assert!(matches!(decode_sidecar(bytes, &[7u8; 20]), Err(StatsSinkError::Io(_))));
    }
}

#[test]
fn counters_wrap_like_atomics() {
    let mut p = PeerStats::new();
    p.add_uploaded(u64::MAX);
    p.add_uploaded(2);
    assert_eq!(p.snapshot(), (1, 0));
}
