//! Piece selection.
use magpie_bt::picker::Picker;

#[test]
fn picks_rarest_piece() {
    let mut p = Picker::new(6);
    p.observe_peer_bitfield(&[true, true, true, false, false, false]);
    p.observe_peer_bitfield(&[false, true, true, true, true, false]);
    // Availability: [1, 2, 2, 1, 1, 0]. Missing everything. Rarest
    // non-zero: pieces 0, 3, 4 all at 1. Lowest index: 0.
    assert_eq!(p.pick(), Some(0));
}

#[test]
fn skips_unavailable_pieces_in_normal_mode() {
    let mut p = Picker::new(4);
    // Only piece 2 is advertised by any peer.
    p.observe_peer_bitfield(&[false, false, true, false]);
    assert_eq!(p.pick(), Some(2));
}

#[test]
fn returns_none_when_complete() {
    let mut p = Picker::new(3);
    p.observe_peer_bitfield(&[true, true, true]);
    for i in 0..3 {
        p.mark_have(i);
    }
    assert_eq!(p.pick(), None);
}

#[test]
fn endgame_engages_below_threshold() {
    let mut p = Picker::new(20).with_endgame_threshold(1, 10); // 10%
    p.observe_peer_bitfield(&[true; 20]);
    for i in 0..18 {
        p.mark_have(i);
    }
    // 2/20 = 10% — in_endgame returns true at exactly the threshold.
    assert!(p.in_endgame());
}

#[test]
fn endgame_returns_any_missing_piece() {
    let mut p = Picker::new(5).with_endgame_threshold(1, 1); // always endgame
    // No peer advertises piece 3, but endgame ignores availability.
    p.observe_peer_bitfield(&[true, true, true, false, true]);
    p.mark_have(0);
    p.mark_have(1);
    p.mark_have(2);
    p.mark_have(4);
    assert!(p.in_endgame());
    assert_eq!(p.pick(), Some(3));
}

#[test]
fn uniform_distribution_prefers_lowest_index() {
    let mut p = Picker::new(10);
    // All peers advertise all pieces.
    for _ in 0..5 {
        p.observe_peer_bitfield(&[true; 10]);
    }
    // Tie — pick piece 0 first.
    assert_eq!(p.pick(), Some(0));
    let batch = p.pick_n(3);
    assert_eq!(batch, vec![0, 1, 2]);
}

#[test]
fn skewed_distribution_prefers_rare() {
    let mut p = Picker::new(4);
    // Piece 0: 3 peers. Piece 1: 1 peer. Piece 2: 2 peers. Piece 3: 0 peers.
    p.observe_peer_bitfield(&[true, false, true, false]);
    p.observe_peer_bitfield(&[true, false, true, false]);
    p.observe_peer_bitfield(&[true, true, false, false]);
    // Rarest with availability > 0 is piece 1.
    assert_eq!(p.pick(), Some(1));
    // pick_n keeps sorting rarity-first: 1, 2, 0 (skipping piece 3 which is 0-avail).
    let batch = p.pick_n(10);
    assert_eq!(batch, vec![1, 2, 0]);
}

#[test]
fn near_complete_switches_to_endgame() {
    let mut p = Picker::new(100).with_endgame_threshold(5, 100); // default
    p.observe_peer_bitfield(&[true; 100]);
    for i in 0..96 {
        p.mark_have(i);
    }
    // 4/100 = 4% < 5% → endgame.
    assert!(p.in_endgame());
}

#[test]
fn forget_peer_decrements_availability() {
    let mut p = Picker::new(3);
    p.observe_peer_bitfield(&[true, true, true]);
    p.observe_peer_bitfield(&[true, false, true]);
    assert_eq!(p.availability(0), 2);
    p.forget_peer_bitfield(&[true, false, true]);
    assert_eq!(p.availability(0), 1);
    assert_eq!(p.availability(1), 1);
    assert_eq!(p.availability(2), 1);
}

#[test]
fn mark_have_is_idempotent() {
    let mut p = Picker::new(3);
    p.observe_peer_bitfield(&[true, true, true]);
    let before = p.missing_count();
    p.mark_have(1);
    p.mark_have(1);
    assert_eq!(p.missing_count(), before - 1);
}

#[test]
fn forgetting_undoes_observing() {
    let mut p = Picker::new(4);
    p.observe_peer_bitfield(&[true, false, true, false]);
    let before: Vec<u32> = (0..4).map(|i| p.availability(i)).collect();
    p.observe_peer_bitfield(&[true, true, false, false]);
    p.forget_peer_bitfield(&[true, true, false, false]);
    let after: Vec<u32> = (0..4).map(|i| p.availability(i)).collect();
    assert_eq!(before, after);
}

#[test]
fn pick_is_the_first_of_many() {
    let mut p = Picker::new(5);
    p.observe_peer_bitfield(&[true, true, false, true, true]);
    p.observe_peer_bitfield(&[true, false, false, true, false]);
    assert_eq!(p.pick(), Some(1));
    assert_eq!(p.pick_n(5), vec![1, 4, 0, 3]);
    assert_eq!(p.pick_n(0), Vec::<u32>::new());
}

#[test]
fn snapshot_follows_marks() {
    let mut p = Picker::new(3);
    p.mark_have(2);
    assert_eq!(p.have_snapshot(), vec![false, false, true]);
    assert!(p.has_piece(2));
    assert!(!p.has_piece(0));
    assert_eq!(p.piece_count(), 3);
    assert_eq!(p.missing_count(), 2);
    assert!(!p.in_endgame());
}
