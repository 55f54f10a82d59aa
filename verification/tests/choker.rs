//! Which peers are served.
use magpie_bt::session::choker::{
    pick_optimistic, ChokerConfig, LeechChoker, PeerView, SeedChoker, UnchokeSet, Unchoker,
};
use magpie_bt::PeerSlot;

const SECOND: u64 = 1_000_000_000;
const NOW: u64 = 1000 * SECOND;

fn leech_peer(slot: u64, down: u64, last_activity: u64) -> PeerView {
    PeerView {
        slot: PeerSlot(slot),
        down_rate_bps: down,
        up_rate_bps: 0,
        is_interested: false,
        is_new: false,
        last_activity,
    }
}

fn seed_peer(slot: u64, up: u64, interested: bool) -> PeerView {
    PeerView {
        slot: PeerSlot(slot),
        down_rate_bps: 0,
        up_rate_bps: up,
        is_interested: interested,
        is_new: false,
        last_activity: NOW,
    }
}

fn mkpeer(slot: u64, down: u64, up: u64, interested: bool, is_new: bool) -> PeerView {
    PeerView {
        slot: PeerSlot(slot),
        down_rate_bps: down,
        up_rate_bps: up,
        is_interested: interested,
        is_new,
        last_activity: NOW,
    }
}

#[test]
fn picks_top_n_by_down_rate() {
    let ch = LeechChoker::new();
    let now = NOW;
    let peers = vec![
        leech_peer(1, 100, now),
        leech_peer(2, 500, now),
        leech_peer(3, 200, now),
        leech_peer(4, 300, now),
        leech_peer(5, 50, now),
    ];
    let set = ch.select(&peers, now, 0);
    // Top 4 by down rate: 2(500), 4(300), 3(200), 1(100). Optimistic:
    // whatever is left, which is peer 5.
    assert_eq!(
        set.regular,
        vec![PeerSlot(2), PeerSlot(4), PeerSlot(3), PeerSlot(1)]
    );
    assert_eq!(set.optimistic, vec![PeerSlot(5)]);
}

#[test]
fn snubbed_peers_excluded() {
    let ch = LeechChoker::new();
    let now = NOW;
    let old = now - 120 * SECOND;
    let peers = vec![
        leech_peer(1, 1000, old), // snubbed
        leech_peer(2, 200, now),
        leech_peer(3, 300, now),
    ];
    let set = ch.select(&peers, now, 0);
    assert!(
        !set.regular.contains(&PeerSlot(1)),
        "snubbed peer must not be unchoked"
    );
    assert!(set.regular.contains(&PeerSlot(2)));
    assert!(set.regular.contains(&PeerSlot(3)));
}

#[test]
fn tie_break_deterministic_by_slot_id() {
    let ch = LeechChoker::new();
    let now = NOW;
    let peers = vec![leech_peer(9, 100, now), leech_peer(5, 100, now), leech_peer(7, 100, now)];
    let set = ch.select(&peers, now, 0);
    // Equal rates → sorted by slot id ascending.
    assert_eq!(set.regular, vec![PeerSlot(5), PeerSlot(7), PeerSlot(9)]);
}

#[test]
fn picks_fastest_consumers_first() {
    let ch = SeedChoker::new();
    let peers = vec![
        seed_peer(1, 100, true),
        seed_peer(2, 500, true),
        seed_peer(3, 200, true),
        seed_peer(4, 300, true),
    ];
    let set = ch.select(&peers, NOW, 0);
    assert_eq!(set.regular[0], PeerSlot(2)); // fastest at top
    assert_eq!(set.regular[1], PeerSlot(4));
    assert_eq!(set.regular[2], PeerSlot(3));
    assert_eq!(set.regular[3], PeerSlot(1));
}

#[test]
fn excludes_uninterested_peers() {
    let ch = SeedChoker::new();
    let peers = vec![
        seed_peer(1, 1000, false), // not interested — must not be unchoked
        seed_peer(2, 100, true),
    ];
    let set = ch.select(&peers, NOW, 0);
    assert!(!set.regular.contains(&PeerSlot(1)));
    assert!(set.regular.contains(&PeerSlot(2)));
    assert!(!set.optimistic.contains(&PeerSlot(1)));
}

#[test]
fn pick_optimistic_returns_nothing_when_no_eligible() {
    let result = pick_optimistic(&[], 1, 3, 0);
    assert!(result.is_empty());
}

#[test]
fn pick_optimistic_picks_at_most_n() {
    let peers = vec![
        mkpeer(1, 0, 0, true, false),
        mkpeer(2, 0, 0, true, false),
        mkpeer(3, 0, 0, true, false),
    ];
    let result = pick_optimistic(&peers, 2, 3, 42);
    assert_eq!(result.len(), 2);
}

#[test]
fn pick_optimistic_is_deterministic() {
    let peers = vec![
        mkpeer(1, 0, 0, true, false),
        mkpeer(2, 0, 0, true, false),
        mkpeer(3, 0, 0, true, false),
    ];
    let a = pick_optimistic(&peers, 2, 3, 42);
    let b = pick_optimistic(&peers, 2, 3, 42);
    assert_eq!(a, b);
}

#[test]
fn no_more_than_the_slots() {
    let cfg = ChokerConfig { regular_slots: 2, optimistic_slots: 1, ..ChokerConfig::default() };
    let ch = LeechChoker::with_config(cfg);
    let peers: Vec<PeerView> = (0..10).map(|i| leech_peer(i, i, NOW)).collect();
    let set = ch.select(&peers, NOW, 5);
    assert_eq!(set.regular, vec![PeerSlot(9), PeerSlot(8)]);
    assert_eq!(set.optimistic.len(), 1);
    assert!(!set.regular.contains(&set.optimistic[0]));
    assert_eq!(*ch.config(), cfg);
    assert_eq!(set, ch.select(&peers, NOW, 5));
}

#[test]
fn all_lists_regular_slots_first() {
    let set = UnchokeSet { regular: vec![PeerSlot(3)], optimistic: vec![PeerSlot(1)] };
    assert_eq!(set.all(), vec![PeerSlot(3), PeerSlot(1)]);
    assert_eq!(set.iter(0), Some(PeerSlot(3)));
    assert_eq!(set.iter(1), Some(PeerSlot(1)));
    assert_eq!(set.iter(2), None);
}

#[test]
fn usual_settings() {
    let cfg = ChokerConfig::default();
    assert_eq!(cfg.regular_slots, 4);
    assert_eq!(cfg.optimistic_slots, 1);
    assert_eq!(cfg.anti_snub, 60 * SECOND);
    assert_eq!(cfg.new_peer_weight, 3);
    assert_eq!(*LeechChoker::default().config(), cfg);
    assert_eq!(*SeedChoker::default().config(), cfg);
}

#[test]
fn the_counter_moves_the_lot() {
    let peers = vec![mkpeer(1, 0, 0, true, false), mkpeer(2, 0, 0, true, true)];
    let mut drawn = Vec::new();
    for counter in 0..32 {
        drawn.extend(pick_optimistic(&peers, 1, 3, counter));
    }
    assert_eq!(drawn.len(), 32);
    assert!(drawn.contains(&PeerSlot(1)));
    assert!(drawn.contains(&PeerSlot(2)));
}

#[test]
fn a_draw_is_full_and_draws_nobody_twice() {
    let peers: Vec<PeerView> = (0..6).map(|i| mkpeer(i, 0, 0, true, i % 2 == 0)).collect();
    for counter in 0..50 {
        let mut four = pick_optimistic(&peers, 4, 3, counter);
        four.sort_by_key(|s| s.0);
        four.dedup();
        assert_eq!(four.len(), 4);
        let mut all = pick_optimistic(&peers, 9, 1, counter);
        all.sort_by_key(|s| s.0);
        assert_eq!(all, (0..6).map(PeerSlot).collect::<Vec<_>>());
    }
}

#[test]
fn a_seed_gives_every_slot_and_ignores_time() {
    let cfg = ChokerConfig { regular_slots: 2, optimistic_slots: 2, ..ChokerConfig::default() };
    let ch = SeedChoker::with_config(cfg);
    let mut peers = vec![
        seed_peer(5, 10, true),
        seed_peer(4, 10, true),
        seed_peer(3, 99, false),
        seed_peer(2, 50, true),
    ];
    let set = ch.select(&peers, NOW, 7);
    assert_eq!(set.regular, vec![PeerSlot(2), PeerSlot(4)]);
    assert_eq!(set.optimistic, vec![PeerSlot(5)]);
    for p in &mut peers {
        p.last_activity = 0;
    }
    assert_eq!(ch.select(&peers, 0, 7), set);
}
