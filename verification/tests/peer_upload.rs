//! Requests of a peer.
use magpie_bt::session::params::{BlockRequest, BLOCK_SIZE};
use magpie_bt::session::peer_upload::{
    default_blocks_per_piece, AcceptOutcome, PeerUploadQueue, WATERMARK_MAX_BYTES,
    WATERMARK_MIN_BYTES,
};

const SECOND: u64 = 1_000_000_000;
const NOW: u64 = 1000 * SECOND;

fn req(piece: u32, offset: u32) -> BlockRequest {
    BlockRequest::new(piece, offset, BLOCK_SIZE)
}

#[test]
fn unchoked_queue_accepts_up_to_cap() {
    let mut q = PeerUploadQueue::with_cap(16, 3);
    assert_eq!(q.accept_request(req(0, 0), NOW), AcceptOutcome::Queued);
    assert_eq!(q.accept_request(req(0, BLOCK_SIZE), NOW), AcceptOutcome::Queued);
    assert_eq!(
        q.accept_request(req(0, 2 * BLOCK_SIZE), NOW),
        AcceptOutcome::Queued
    );
    assert_eq!(q.accept_request(req(1, 0), NOW), AcceptOutcome::DroppedNewest);
}

#[test]
fn duplicate_request_rejected_silently() {
    let mut q = PeerUploadQueue::new(16);
    assert_eq!(q.accept_request(req(0, 0), NOW), AcceptOutcome::Queued);
    assert_eq!(q.accept_request(req(0, 0), NOW), AcceptOutcome::Duplicate);
}

#[test]
fn in_flight_duplicate_also_rejected() {
    let mut q = PeerUploadQueue::new(16);
    q.accept_request(req(0, 0), NOW);
    let r = q.dispatch_next().unwrap();
    assert_eq!(r, req(0, 0));
    // Same request in flight; peer re-asks → duplicate.
    assert_eq!(q.accept_request(req(0, 0), NOW), AcceptOutcome::Duplicate);
}

#[test]
fn choke_clears_queue_without_fast_ext() {
    let mut q = PeerUploadQueue::new(16);
    q.accept_request(req(0, 0), NOW);
    q.accept_request(req(1, 0), NOW);
    q.on_self_choke(false, NOW);
    assert_eq!(q.queued(), 0);
    assert_eq!(q.in_flight_len(), 0);
}

#[test]
fn fast_ext_choke_retains_allowed_fast() {
    let mut q = PeerUploadQueue::new(16);
    q.add_allowed_fast(3);
    q.accept_request(req(0, 0), NOW);
    q.accept_request(req(3, 0), NOW); // allowed-fast
    q.on_self_choke(true, NOW);
    assert_eq!(q.queued(), 1);
}

#[test]
fn fast_set_abuse_triggers_after_cap() {
    // blocks_per_piece=4, cap=3*4=12 re-requests while choked.
    // The grace window is over, so that the fast-set path is taken.
    let mut q = PeerUploadQueue::with_cap(4, 256);
    q.add_allowed_fast(0);
    q.on_self_choke(true, NOW);
    let later = NOW + 3 * SECOND;
    // 12 accepts, then abuse.
    for i in 0..12 {
        let got = q.accept_request(req(0, (i as u32) * BLOCK_SIZE), later);
        assert_eq!(got, AcceptOutcome::Queued, "iteration {i}");
    }
    let abusive = q.accept_request(req(0, 12 * BLOCK_SIZE), later);
    assert_eq!(abusive, AcceptOutcome::FastSetAbuse);
}

#[test]
fn post_choke_grace_accepts_for_2s() {
    let mut q = PeerUploadQueue::new(16);
    q.on_self_choke(false, NOW); // choke with no fast ext
    // Immediately after choke, a straggler request is within grace.
    let outcome = q.accept_request(req(7, 0), NOW);
    assert_eq!(outcome, AcceptOutcome::Queued);
}

#[test]
fn choked_non_fast_rejected_outside_grace() {
    let mut q = PeerUploadQueue::new(16);
    q.on_self_choke(false, NOW);
    let outcome = q.accept_request(req(7, 0), NOW + 3 * SECOND);
    assert_eq!(outcome, AcceptOutcome::RejectedChoked);
}

#[test]
fn watermark_clamps_to_min_at_zero_rate() {
    let q = PeerUploadQueue::new(16);
    assert_eq!(q.watermark_bytes(), WATERMARK_MIN_BYTES);
}

#[test]
fn watermark_scales_with_rate() {
    let mut q = PeerUploadQueue::new(16);
    q.set_upload_rate(2 * 1024 * 1024); // 2 MiB/s
    // rate × 0.5 s = 1 MiB → within min/max range.
    assert_eq!(q.watermark_bytes(), 1024 * 1024);
}

#[test]
fn watermark_clamps_to_max_for_high_rate() {
    let mut q = PeerUploadQueue::new(16);
    q.set_upload_rate(100 * 1024 * 1024); // 100 MiB/s
    assert_eq!(q.watermark_bytes(), WATERMARK_MAX_BYTES);
}

#[test]
fn can_submit_read_respects_watermark() {
    let mut q = PeerUploadQueue::new(16);
    // Min watermark = 128 KiB.
    assert!(q.can_submit_read(BLOCK_SIZE));
    q.add_ready(WATERMARK_MIN_BYTES);
    assert!(!q.can_submit_read(1));
}

#[test]
fn cancel_removes_from_both_queues() {
    let mut q = PeerUploadQueue::new(16);
    q.accept_request(req(0, 0), NOW);
    q.accept_request(req(1, 0), NOW);
    let _ = q.dispatch_next();
    q.cancel(&req(0, 0));
    q.cancel(&req(1, 0));
    assert_eq!(q.queued(), 0);
    assert_eq!(q.in_flight_len(), 0);
}

#[test]
fn requests_are_begun_in_order() {
    let mut q = PeerUploadQueue::new(16);
    q.accept_request(req(2, 0), NOW);
    q.accept_request(req(1, 0), NOW);
    assert_eq!(q.depth(), 2);
    assert_eq!(q.dispatch_next(), Some(req(2, 0)));
    assert_eq!(q.dispatch_next(), Some(req(1, 0)));
    assert_eq!(q.dispatch_next(), None);
    assert_eq!(q.depth(), 2);
    q.release(&req(2, 0));
    assert_eq!(q.in_flight_len(), 1);
    // What was served may be asked for again.
    assert_eq!(q.accept_request(req(2, 0), NOW), AcceptOutcome::Queued);
}

#[test]
fn grace_ends_after_two_seconds() {
    let mut q = PeerUploadQueue::new(16);
    q.on_self_choke(false, NOW);
    assert_eq!(q.accept_request(req(0, 0), NOW + 2 * SECOND), AcceptOutcome::RejectedChoked);
    assert_eq!(q.accept_request(req(0, 0), NOW + 2 * SECOND - 1), AcceptOutcome::Queued);
    q.on_self_unchoke();
    assert_eq!(q.accept_request(req(1, 0), NOW + 9 * SECOND), AcceptOutcome::Queued);
}

#[test]
fn ready_bytes_come_and_go() {
    let mut q = PeerUploadQueue::new(16);
    q.add_ready(WATERMARK_MIN_BYTES);
    q.remove_ready(BLOCK_SIZE);
    assert!(q.can_submit_read(BLOCK_SIZE));
    assert!(!q.can_submit_read(BLOCK_SIZE + 1));
}

#[test]
fn blocks_per_piece_round_up() {
    assert_eq!(default_blocks_per_piece(16384), 1);
    assert_eq!(default_blocks_per_piece(16385), 2);
    assert_eq!(default_blocks_per_piece(262_144), 16);
}
