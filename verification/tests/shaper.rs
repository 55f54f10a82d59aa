//! Bandwidth limits.
use magpie_bt::session::shaper::refiller::run_one_tick;
use magpie_bt::session::shaper::{
    DuplexBuckets, Flow, Shaper, TokenBucket, DEFAULT_CAPACITY, PASSTHROUGH_RATE,
};
use magpie_bt::{PeerSlot, TorrentId};

const MILLISECOND: u64 = 1_000_000;

#[test]
fn fresh_bucket_full() {
    let b = TokenBucket::new(1000, 500);
    assert_eq!(b.tokens(), 500);
}

#[test]
fn try_consume_succeeds_within_budget() {
    let mut b = TokenBucket::new(1000, 500);
    assert!(b.try_consume(100));
    assert_eq!(b.tokens(), 400);
}

#[test]
fn try_consume_fails_over_budget_and_rolls_back() {
    let mut b = TokenBucket::new(1000, 500);
    assert!(!b.try_consume(600));
    assert_eq!(
        b.tokens(),
        500,
        "failed consume must not leave bucket partially drained"
    );
    let (_c, d) = b.take_demand();
    assert_eq!(d, 600, "denied demand must reflect the requested amount");
}

#[test]
fn demand_accounting_separates_consumed_and_denied() {
    let mut b = TokenBucket::new(1000, 500);
    assert!(b.try_consume(100));
    assert!(b.try_consume(200));
    assert!(!b.try_consume(500));
    let (c, d) = b.take_demand();
    assert_eq!(c, 300);
    assert_eq!(d, 500);
    // Second take is empty.
    let (c, d) = b.take_demand();
    assert_eq!(c, 0);
    assert_eq!(d, 0);
}

#[test]
fn grant_saturates_at_capacity() {
    let mut b = TokenBucket::new(1000, 500);
    b.try_consume(300);
    b.grant(1000);
    assert_eq!(b.tokens(), 500);
}

#[test]
fn passthrough_bucket_still_ticks_refill() {
    let mut b = TokenBucket::new(u64::MAX, u64::MAX);
    assert_eq!(b.refill_ticks(), 0);
    b.grant(0);
    assert_eq!(b.refill_ticks(), 1, "pass-through bucket must still tick");
}

#[test]
fn refiller_touches_all_three_tiers_even_at_passthrough() {
    let mut shaper = Shaper::new();
    let tid = TorrentId::__test_new(0);
    shaper.register_torrent_passthrough(tid);
    shaper.register_peer(PeerSlot(0), tid, DuplexBuckets::passthrough());

    let before = shaper.refill_ticks();
    run_one_tick(&mut shaper, 100 * MILLISECOND);
    let after = shaper.refill_ticks();
    assert_eq!(after, before + 1, "refiller must advance the tick counter");

    assert!(shaper.session.up.refill_ticks() >= 1);
    assert!(shaper.session.down.refill_ticks() >= 1);
    let (slot, peer) = &shaper.peers[0];
    assert_eq!(*slot, PeerSlot(0));
    assert!(peer.buckets.up.refill_ticks() >= 1);
    assert!(peer.buckets.down.refill_ticks() >= 1);
    let (id, torrent) = &shaper.torrents[0];
    assert_eq!(*id, tid);
    assert!(torrent.buckets.up.refill_ticks() >= 1);
    assert!(torrent.buckets.down.refill_ticks() >= 1);
}

#[test]
fn drop_torrent_removes_peers() {
    let mut shaper = Shaper::new();
    let tid = TorrentId::__test_new(7);
    shaper.register_torrent_passthrough(tid);
    shaper.register_peer(PeerSlot(10), tid, DuplexBuckets::passthrough());
    shaper.register_peer(PeerSlot(11), tid, DuplexBuckets::passthrough());
    assert_eq!(shaper.peers.len(), 2);
    shaper.drop_torrent(tid);
    assert_eq!(shaper.peers.len(), 0);
    assert_eq!(shaper.torrents.len(), 0);
}

#[test]
fn run_one_tick_grants_at_session_rate() {
    let mut shaper = Shaper::new();
    // 10_000 bytes per second: a tick of 100 ms grants 1000 tokens.
    shaper.session = DuplexBuckets::new(10_000, 10_000);
    // Drain the bucket so we can see the grant.
    let capacity = shaper.session.up.capacity();
    assert!(shaper.session.up.try_consume(capacity));
    run_one_tick(&mut shaper, 100 * MILLISECOND);
    assert_eq!(shaper.session.up.tokens(), 1000);
}

#[test]
fn giving_back_restores_tokens() {
    let mut b = TokenBucket::new(1000, 500);
    assert!(b.try_consume(123));
    b.grant(123);
    assert_eq!(b.tokens(), 500);
    b.set_rate_bps(7);
    assert_eq!(b.rate_bps(), 7);
    assert_eq!(b.capacity(), 500);
}

#[test]
fn passthrough_is_full_after_a_tick() {
    let mut shaper = Shaper::new();
    assert_eq!(shaper.session.up.rate_bps(), PASSTHROUGH_RATE);
    let all = shaper.session.up.tokens();
    assert!(shaper.session.up.try_consume(all));
    run_one_tick(&mut shaper, MILLISECOND);
    assert_eq!(shaper.session.up.tokens(), shaper.session.up.capacity());
}

#[test]
fn a_peer_consumes_from_its_own_bucket() {
    let mut shaper = Shaper::new();
    let tid = TorrentId::__test_new(1);
    shaper.register_torrent(tid, DuplexBuckets::new(5, 6));
    shaper.register_peer(PeerSlot(1), tid, DuplexBuckets::new(100, 200));
    assert_eq!(shaper.try_consume(PeerSlot(1), Flow::Up, 10), Some(true));
    let buckets = shaper.peer_buckets(PeerSlot(1)).unwrap();
    assert_eq!(buckets.up.tokens(), DEFAULT_CAPACITY - 10);
    assert_eq!(buckets.down.tokens(), DEFAULT_CAPACITY);
    assert_eq!(shaper.try_consume(PeerSlot(2), Flow::Down, 10), None);
    assert!(shaper.set_peer_rate(PeerSlot(1), Flow::Down, 7));
    assert!(!shaper.set_peer_rate(PeerSlot(2), Flow::Down, 7));
    assert_eq!(shaper.peer_buckets(PeerSlot(1)).unwrap().down.rate_bps(), 7);
    shaper.drop_peer(PeerSlot(1));
    assert!(shaper.peer_buckets(PeerSlot(1)).is_none());
    assert_eq!(shaper.torrents.len(), 1);
}
