//! The alert queue and its categories.
use magpie_bt::alerts::{Alert, AlertCategory, AlertErrorCode, AlertQueue};
use magpie_bt::{PeerSlot, TorrentId};

fn tid() -> TorrentId {
    TorrentId::__test_new(1)
}

fn done(piece: u32) -> Alert {
    Alert::PieceCompleted { torrent: tid(), piece }
}

#[test]
fn push_drain_roundtrip() {
    let mut q = AlertQueue::new(8);
    q.push(done(1));
    q.push(done(2));
    let batch = q.drain();
    assert_eq!(batch.len(), 2);
    assert_eq!(q.drain().len(), 0);
}

#[test]
fn category_mask_filters_push() {
    let mut q = AlertQueue::with_mask(8, AlertCategory::piece());
    assert!(q.push(done(1)));
    assert!(!q.push(Alert::PeerConnected { torrent: tid(), peer: PeerSlot(42) }));
    assert!(!q.push(Alert::StatsTick));
    let batch = q.drain();
    assert_eq!(batch.len(), 1);
}

#[test]
fn overflow_drops_oldest_and_emits_sentinel() {
    let mut q = AlertQueue::new(3);
    for i in 0..5 {
        q.push(done(i));
    }
    let batch = q.drain();
    // Sentinel first, then 3 most-recent pieces (2, 3, 4).
    assert_eq!(batch.len(), 4);
    assert_eq!(batch[0], Alert::Dropped { count: 2 });
    assert_eq!(batch[1], done(2));
    assert_eq!(batch[3], done(4));
}

#[test]
fn dropped_sentinel_resets_after_drain() {
    let mut q = AlertQueue::new(2);
    q.push(done(1));
    q.push(done(2));
    q.push(done(3));
    let _ = q.drain();
    q.push(done(4));
    let batch = q.drain();
    assert_eq!(batch, vec![done(4)]);
}

#[test]
fn generation_increments_on_drain() {
    let mut q = AlertQueue::new(4);
    let gen0 = q.generation();
    q.push(Alert::StatsTick);
    let _ = q.drain();
    assert_eq!(q.generation(), gen0 + 1);
}

#[test]
fn mask_always_passes_dropped_sentinel() {
    let mut q = AlertQueue::new(1);
    q.set_mask(AlertCategory::none());
    assert!(q.push(Alert::Dropped { count: 99 }));
    let batch = q.drain();
    assert_eq!(batch, vec![Alert::Dropped { count: 99 }]);
}

#[test]
fn pending_counts_what_waits() {
    let mut q = AlertQueue::new(2);
    assert!(q.is_empty());
    q.push(done(1));
    assert!(!q.is_empty());
    assert_eq!(q.pending(), 1);
    q.push(done(2));
    q.push(done(3));
    assert_eq!(q.pending(), 2);
}

#[test]
fn union_has_both_categories() {
    let both = AlertCategory::piece() | AlertCategory::error();
    assert!(both.contains(AlertCategory::piece()));
    assert!(both.contains(AlertCategory::error()));
    assert!(!both.contains(AlertCategory::peer()));
    assert_eq!(both & AlertCategory::error(), AlertCategory::error());
    assert!(AlertCategory::all().contains(both));
    assert!(!AlertCategory::none().contains(AlertCategory::stats()));
    assert!(AlertCategory::all().contains(AlertCategory::tracker()));
}

#[test]
fn alerts_belong_to_categories() {
    assert_eq!(done(1).category(), AlertCategory::piece());
    assert_eq!(Alert::StatsTick.category(), AlertCategory::stats());
    assert_eq!(
        Alert::Error { torrent: tid(), code: AlertErrorCode::PeerProtocol }.category(),
        AlertCategory::error()
    );
    assert_eq!(
        Alert::PeerConnected { torrent: tid(), peer: PeerSlot(1) }.category(),
        AlertCategory::peer()
    );
}
