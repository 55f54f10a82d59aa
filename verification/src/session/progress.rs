//! How pieces come together, go to the disk and are announced, fact by fact.
use crate::alerts::category::{Alert, AlertErrorCode};
use crate::blob::blob;
use crate::ids::{PeerSlot, TorrentId};
use crate::keyed::{find_key, lemma_find, lemma_find_unique};
use crate::picker::lemma_count_missing_bounds;
use crate::session::bitfield::{law_flags_pack, packed, packs};
use crate::session::disk::DiskError;
use crate::session::effects::{others_as_before, rest_as_before, turned_away};
use crate::session::keeps::{lemma_one_less_keeps, lemma_with_piece_keeps};
use crate::session::messages::{Deed, PeerNote, PeerToSession, SessionCommand};
use crate::session::model::{not_interested, packed_of, PeerModel, SessionModel};
use crate::session::params::{lemma_workable, ParamsModel};
use crate::session::torrent::{ends, on_event, SessionEvent};
use bytes::Bytes;
use vstd::prelude::*;

verus! {

/// A block that this peer was asked for is taken. Its bytes stand at its offset
/// in the piece, and no others change; it is here and no longer asked for; and
/// one request less is under way on the peer. Once every block is here, and not
/// before, the bytes of the piece go to the disk, to be written where the piece
/// starts in the torrent if they have the hash that the torrent names for it.
pub proof fn law_asked_block_is_taken(
    m: SessionModel,
    slot: PeerSlot,
    piece: u32,
    offset: u32,
    data: Bytes,
    at: int,
    k: int,
    b: int,
    now: u64,
)
    requires
        m.wf(),
        0 <= at < m.peers.len(),
        m.peers[at].0 == slot,
        0 <= k < m.in_progress.len(),
        m.in_progress[k].0 == piece,
        0 <= b < m.in_progress[k].1.claimed.len(),
        offset == b * 16384,
        m.in_progress[k].1.claimed[b] == Some(slot),
        offset + blob(data).len() <= m.in_progress[k].1.buffer.len(),
    ensures
        ({
            let (n, told) = on_event(
                m,
                SessionEvent::Peer(PeerToSession::BlockReceived { slot, piece, offset, data }),
                now,
            );
            let p = m.peers[at].1;
            let q = m.in_progress[k].1;
            let r = n.in_progress[k].1;
            let last = forall|c: int| 0 <= c < q.received.len() && c != b ==> #[trigger] q.received[c];
            let bytes = if last {
                told[0]->buffer
            } else {
                r.buffer
            };
            &&& others_as_before(m, n, slot)
            &&& n.peers[at].1 == (PeerModel { in_flight: n.peers[at].1.in_flight, ..p })
            &&& p.in_flight > 0 ==> n.peers[at].1.in_flight == p.in_flight - 1
            &&& n.in_progress.len() == m.in_progress.len()
            &&& n.in_progress[k].0 == piece
            &&& forall|j: int|
                0 <= j < m.in_progress.len() && j != k ==> #[trigger] n.in_progress[j]
                    == m.in_progress[j]
            &&& r.received.len() == q.received.len()
            &&& r.claimed.len() == q.claimed.len()
            &&& r.received[b] && r.claimed[b] is None
            &&& forall|c: int|
                0 <= c < q.received.len() && c != b ==> #[trigger] r.received[c] == q.received[c]
            &&& forall|c: int|
                0 <= c < q.claimed.len() && c != b ==> #[trigger] r.claimed[c] == q.claimed[c]
            &&& bytes.len() == q.buffer.len()
            &&& forall|x: int|
                0 <= x < bytes.len() ==> #[trigger] bytes[x] == (if offset <= x < offset + blob(
                    data,
                ).len() {
                    blob(data)[x - offset]
                } else {
                    q.buffer[x]
                })
            &&& !last ==> told.len() == 0
            &&& last ==> {
                &&& told.len() == 1
                &&& told[0] is VerifyAndWrite
                &&& told[0]->VerifyAndWrite_piece == piece
                &&& told[0]->VerifyAndWrite_offset == piece * m.params.piece_length
                &&& told[0]->expected_hash.len() == 20
                &&& forall|x: int|
                    0 <= x < 20 ==> #[trigger] told[0]->expected_hash[x]
                        == m.params.piece_hashes[20 * piece + x]
            }
            &&& rest_as_before(m, n)
        }),
{
    lemma_find_unique(m.peers, at);
    lemma_find_unique(m.in_progress, k);
    lemma_workable(m.params, piece as int);
    let q = m.in_progress[k].1;
    assert((offset / 16384) as int == b);
    assert(offset % 16384 == 0);
    assert(m.in_progress[k].1.wf(m.params.size_of(m.in_progress[k].0 as int)));
    let f = q.filled(b, offset as int, blob(data));
    lemma_one_less_keeps(m, slot);
    assert(f.buffer.len() == q.buffer.len());
    if forall|c: int| 0 <= c < q.received.len() && c != b ==> #[trigger] q.received[c] {
        assert forall|i: int| 0 <= i < f.received.len() implies #[trigger] f.received[i] by {
            if i != b {
                assert(q.received[i]);
            }
        }
        assert(f.full());
    } else {
        let c = choose|c: int| 0 <= c < q.received.len() && c != b && !(#[trigger] q.received[c]);
        assert(!f.received[c]);
        assert(!f.full());
    }
}

/// A block that is here already changes nothing. One that this peer was not asked
/// for turns it away, and so does one that stands across blocks or behind the end
/// of its piece, or belongs to no piece. None of them changes what is here.
pub proof fn law_other_blocks_are_refused(
    m: SessionModel,
    slot: PeerSlot,
    piece: u32,
    offset: u32,
    data: Bytes,
    k: int,
    now: u64,
)
    requires
        m.wf(),
        0 <= k < m.in_progress.len(),
    ensures
        ({
            let (n, told) = on_event(
                m,
                SessionEvent::Peer(PeerToSession::BlockReceived { slot, piece, offset, data }),
                now,
            );
            let q = m.in_progress[k].1;
            let b = offset as int / 16384;
            &&& piece >= m.params.piece_count ==> n == m && turned_away(m, told, slot)
            &&& offset % 16384 != 0 ==> n == m && turned_away(m, told, slot)
            &&& (m.in_progress[k].0 == piece && offset % 16384 == 0) ==> {
                &&& b >= q.received.len() ==> n == m && turned_away(m, told, slot)
                &&& (b < q.received.len() && q.received[b]) ==> n == m && told.len() == 0
                &&& (b < q.received.len() && !q.received[b] && q.claimed[b] != Some(slot)) ==> n
                    == m && turned_away(m, told, slot)
                &&& (b < q.received.len() && !q.received[b] && offset + blob(data).len()
                    > q.buffer.len()) ==> n == m && turned_away(m, told, slot)
            }
        }),
{
    lemma_find(m.peers, slot);
    lemma_find_unique(m.in_progress, k);
}

/// A piece that was never started is started empty, as long as it is, when a
/// block of it comes unasked, and the peer is turned away.
pub proof fn law_unasked_piece_is_refused(
    m: SessionModel,
    slot: PeerSlot,
    piece: u32,
    offset: u32,
    data: Bytes,
    now: u64,
)
    requires
        m.wf(),
        piece < m.params.piece_count,
        offset % 16384 == 0,
        forall|k: int| 0 <= k < m.in_progress.len() ==> (#[trigger] m.in_progress[k]).0 != piece,
    ensures
        ({
            let (n, told) = on_event(
                m,
                SessionEvent::Peer(PeerToSession::BlockReceived { slot, piece, offset, data }),
                now,
            );
            &&& turned_away(m, told, slot)
            &&& n.peers == m.peers
            &&& rest_as_before(m, n)
            &&& started(m, n, piece)
        }),
{
    lemma_find(m.peers, slot);
    lemma_find(m.in_progress, piece);
    lemma_workable(m.params, piece as int);
    lemma_started(m, piece);
}

/// A piece more is being downloaded: none of its blocks is here or asked for, and
/// there are as many as cover it.
pub open spec fn started(m: SessionModel, n: SessionModel, piece: u32) -> bool {
    let q = n.in_progress[m.in_progress.len() as int].1;
    let size = m.params.size_of(piece as int);
    &&& n.in_progress.len() == m.in_progress.len() + 1
    &&& forall|k: int|
        0 <= k < m.in_progress.len() ==> #[trigger] n.in_progress[k] == m.in_progress[k]
    &&& n.in_progress[m.in_progress.len() as int].0 == piece
    &&& q.buffer.len() == size
    &&& q.claimed.len() == q.received.len()
    &&& (q.received.len() - 1) * 16384 < size <= q.received.len() * 16384
    &&& forall|b: int| 0 <= b < q.received.len() ==> !#[trigger] q.received[b]
    &&& forall|b: int| 0 <= b < q.claimed.len() ==> (#[trigger] q.claimed[b]) is None
}

/// Starting a piece that is not being downloaded starts it empty.
pub proof fn lemma_started(m: SessionModel, piece: u32)
    requires
        m.wf(),
        piece < m.params.piece_count,
        forall|k: int| 0 <= k < m.in_progress.len() ==> (#[trigger] m.in_progress[k]).0 != piece,
    ensures
        started(m, m.with_piece(piece), piece),
        m.with_piece(piece) == (SessionModel {
            in_progress: m.with_piece(piece).in_progress,
            ..m
        }),
        find_key(m.with_piece(piece).in_progress, piece) == Some(m.in_progress.len() as int),
{
    lemma_find(m.in_progress, piece);
    lemma_workable(m.params, piece as int);
    lemma_with_piece_keeps(m, piece);
}

/// The pieces in progress of `n` are those of `m` without `piece`, in order.
pub open spec fn piece_is_gone(m: SessionModel, n: SessionModel, piece: u32) -> bool {
    &&& forall|k: int|
        0 <= k < n.in_progress.len() ==> (#[trigger] n.in_progress[k]).0 != piece
            && m.in_progress.contains(n.in_progress[k])
    &&& forall|k: int|
        0 <= k < m.in_progress.len() && (#[trigger] m.in_progress[k]).0 != piece
            ==> n.in_progress.contains(m.in_progress[k])
    &&& n.in_progress.len() <= m.in_progress.len()
}

proof fn lemma_piece_is_gone(m: SessionModel, piece: u32)
    requires
        m.wf(),
    ensures
        piece_is_gone(m, m.without_piece(piece), piece),
        m.without_piece(piece) == (SessionModel {
            in_progress: m.without_piece(piece).in_progress,
            ..m
        }),
{
    let n = m.without_piece(piece);
    lemma_find(m.in_progress, piece);
    match find_key(m.in_progress, piece) {
        Some(at) => {
            assert forall|k: int| 0 <= k < n.in_progress.len() implies (
            #[trigger] n.in_progress[k]).0 != piece && m.in_progress.contains(n.in_progress[k]) by {
                let j = if k < at { k } else { k + 1 };
                assert(n.in_progress[k] == m.in_progress[j]);
                assert(m.in_progress[j].0 != m.in_progress[at].0);
            }
            assert forall|k: int|
                0 <= k < m.in_progress.len() && (#[trigger] m.in_progress[k]).0 != piece implies n.in_progress.contains(
            m.in_progress[k]) by {
                let j = if k < at { k } else { k - 1 };
                assert(n.in_progress[j] == m.in_progress[k]);
            }
        },
        None => {
            assert forall|k: int| 0 <= k < n.in_progress.len() implies (
            #[trigger] n.in_progress[k]).0 != piece && m.in_progress.contains(n.in_progress[k]) by {
                assert(m.in_progress[k] == n.in_progress[k]);
            }
            assert forall|k: int|
                0 <= k < m.in_progress.len() && (#[trigger] m.in_progress[k]).0 != piece implies n.in_progress.contains(
            m.in_progress[k]) by {
                assert(n.in_progress[k] == m.in_progress[k]);
            }
        },
    }
}

/// A piece that could not be verified or written is given up, so that all its
/// blocks are asked for again, and an alert says what was wrong. Nobody else hears
/// of it, and it does not count as here.
pub proof fn law_failed_piece_is_given_up(m: SessionModel, piece: u32, e: DiskError, now: u64)
    requires
        m.wf(),
    ensures
        ({
            let (n, told) = on_event(
                m,
                SessionEvent::Completion { piece, result: Err(e) },
                now,
            );
            let code = match e {
                DiskError::HashMismatch => AlertErrorCode::HashMismatch,
                DiskError::Io => AlertErrorCode::StorageIo,
            };
            &&& told == seq![Deed::Raise(Alert::Error { torrent: m.id, code })]
            &&& piece_is_gone(m, n, piece)
            &&& n.peers == m.peers
            &&& rest_as_before(m, n)
        }),
        ({
            let (n, told) = on_event(m, SessionEvent::DiskGone { piece }, now);
            &&& told == seq![
                Deed::Raise(Alert::Error { torrent: m.id, code: AlertErrorCode::StorageIo }),
            ]
            &&& piece_is_gone(m, n, piece)
            &&& n.peers == m.peers
            &&& rest_as_before(m, n)
        }),
{
    lemma_piece_is_gone(m, piece);
}

/// A piece that was written is here from then on, an alert says so, and every
/// peer hears of it, in order. While another piece is missing that is all.
pub proof fn law_written_piece_is_announced(m: SessionModel, piece: u32, now: u64)
    requires
        m.wf(),
        piece < m.params.piece_count,
    ensures
        ({
            let (n, told) = on_event(m, SessionEvent::Completion { piece, result: Ok(()) }, now);
            let others_here = forall|x: int|
                0 <= x < m.params.piece_count && x != piece ==> #[trigger] m.picker.have[x];
            &&& piece_is_gone(m, n, piece)
            &&& n.picker.have.len() == m.picker.have.len()
            &&& forall|x: int|
                0 <= x < m.params.piece_count ==> #[trigger] n.picker.have[x] == (x == piece
                    || m.picker.have[x])
            &&& n.picker.availability == m.picker.availability
            &&& told.len() >= 1 + m.peers.len()
            &&& told[0] == Deed::Raise(Alert::PieceCompleted { torrent: m.id, piece })
            &&& forall|i: int|
                0 <= i < m.peers.len() ==> #[trigger] told[1 + i] == Deed::Send(
                    m.peers[i].0,
                    PeerNote::Have(piece),
                )
            &&& !others_here ==> {
                &&& told.len() == 1 + m.peers.len()
                &&& n.peers == m.peers
                &&& rest_as_before(m, (SessionModel { picker: m.picker, ..n }))
            }
            &&& others_here ==> n.state is Completed
            &&& (others_here && m.completion_fired) ==> told.len() == 1 + m.peers.len() && n.peers
                == m.peers
            &&& (others_here && !m.completion_fired) ==> finished(m, n, told)
        }),
{
    lemma_piece_is_gone(m, piece);
    let next = m.without_piece(piece);
    let have = m.picker.have.update(piece as int, true);
    lemma_count_missing_bounds(have);
    let (n, told) = on_event(m, SessionEvent::Completion { piece, result: Ok(()) }, now);
    if forall|x: int| 0 <= x < m.params.piece_count && x != piece ==> #[trigger] m.picker.have[x] {
        assert forall|i: int| 0 <= i < have.len() implies #[trigger] have[i] by {
            if i != piece {
                assert(m.picker.have[i]);
            }
        }
        lemma_farewells(m.peers);
        if !m.completion_fired {
            let base = 1 + m.peers.len();
            let tail = not_interested(m.peers);
            assert forall|j: int| base < j < told.len() implies exists|i: int|
                0 <= i < m.peers.len() && (#[trigger] m.peers[i]).1.we_are_interested
                    && #[trigger] told[j] == Deed::Send(m.peers[i].0, PeerNote::SetInterested(false)) by {
                assert(told[j] == tail[j - base - 1]);
            }
            assert forall|i: int| #[trigger] wanted_at(m.peers, i) implies exists|j: int|
                base < j < told.len() && #[trigger] told[j] == Deed::Send(
                    m.peers[i].0,
                    PeerNote::SetInterested(false),
                ) by {
                let j = choose|j: int|
                    0 <= j < tail.len() && #[trigger] tail[j] == Deed::Send(
                        m.peers[i].0,
                        PeerNote::SetInterested(false),
                    );
                assert(told[base + 1 + j] == tail[j]);
            }
        }
    } else {
        let x = choose|x: int|
            0 <= x < m.params.piece_count && x != piece && !(#[trigger] m.picker.have[x]);
        assert(!have[x]);
    }
}

/// We are interested in the peer at place `i`.
pub open spec fn wanted_at(peers: Seq<(PeerSlot, PeerModel)>, i: int) -> bool {
    0 <= i < peers.len() && peers[i].1.we_are_interested
}

/// The torrent is complete, which is announced once, and each peer that we were
/// interested in, and no other, hears that we no longer are.
pub open spec fn finished(m: SessionModel, n: SessionModel, told: Seq<Deed>) -> bool {
    let base = 1 + m.peers.len();
    &&& n.completion_fired
    &&& told.len() > base
    &&& told[base as int] == Deed::Raise(Alert::TorrentComplete { torrent: m.id })
    &&& forall|j: int|
        base < j < told.len() ==> exists|i: int|
            0 <= i < m.peers.len() && (#[trigger] m.peers[i]).1.we_are_interested
                && #[trigger] told[j] == Deed::Send(m.peers[i].0, PeerNote::SetInterested(false))
    &&& forall|i: int| #[trigger]
        wanted_at(m.peers, i) ==> exists|j: int|
            base < j < told.len() && #[trigger] told[j] == Deed::Send(
                m.peers[i].0,
                PeerNote::SetInterested(false),
            )
    &&& n.peers.len() == m.peers.len()
    &&& forall|i: int|
        0 <= i < m.peers.len() ==> (#[trigger] n.peers[i]) == (
            m.peers[i].0,
            PeerModel { we_are_interested: false, ..m.peers[i].1 },
        )
}

proof fn lemma_farewells(peers: Seq<(PeerSlot, PeerModel)>)
    ensures
        ({
            let all = not_interested(peers);
            &&& forall|j: int|
                0 <= j < all.len() ==> exists|i: int|
                    0 <= i < peers.len() && (#[trigger] peers[i]).1.we_are_interested
                        && #[trigger] all[j] == Deed::Send(peers[i].0, PeerNote::SetInterested(false))
            &&& forall|i: int| #[trigger]
                wanted_at(peers, i) ==> exists|j: int|
                    0 <= j < all.len() && #[trigger] all[j] == Deed::Send(
                        peers[i].0,
                        PeerNote::SetInterested(false),
                    )
        }),
    decreases peers.len(),
{
    if peers.len() > 0 {
        let front = peers.drop_last();
        let some = not_interested(front);
        let all = not_interested(peers);
        lemma_farewells(front);
        assert forall|j: int| 0 <= j < all.len() implies exists|i: int|
            0 <= i < peers.len() && (#[trigger] peers[i]).1.we_are_interested && #[trigger] all[j]
                == Deed::Send(peers[i].0, PeerNote::SetInterested(false)) by {
            if j < some.len() {
                assert(all[j] == some[j]);
                let i = choose|i: int|
                    0 <= i < front.len() && (#[trigger] front[i]).1.we_are_interested && some[j]
                        == Deed::Send(front[i].0, PeerNote::SetInterested(false));
                assert(peers[i] == front[i]);
            } else {
                assert(peers[peers.len() - 1].1.we_are_interested);
            }
        }
        assert forall|i: int| #[trigger] wanted_at(peers, i) implies exists|j: int|
            0 <= j < all.len() && #[trigger] all[j] == Deed::Send(
                peers[i].0,
                PeerNote::SetInterested(false),
            ) by {
            if i < front.len() {
                assert(front[i] == peers[i]);
                assert(wanted_at(front, i));
                let j = choose|j: int|
                    0 <= j < some.len() && #[trigger] some[j] == Deed::Send(
                        front[i].0,
                        PeerNote::SetInterested(false),
                    );
                assert(all[j] == some[j]);
            } else {
                assert(all[some.len() as int] == Deed::Send(
                    peers[i].0,
                    PeerNote::SetInterested(false),
                ));
            }
        }
    }
}

/// A peer that comes is told which pieces are here: with one word where it
/// understands that and all are here or none is, else flag by flag. It starts
/// with no pieces and no requests, choked on both sides. One that is known
/// already changes nothing.
pub proof fn law_new_peer_hears_our_pieces(
    m: SessionModel,
    slot: PeerSlot,
    max_in_flight: u32,
    supports_fast: bool,
    now: u64,
)
    requires
        m.wf(),
    ensures
        ({
            let (n, told) = on_event(
                m,
                SessionEvent::Command(
                    SessionCommand::RegisterPeer { slot, max_in_flight, supports_fast },
                ),
                now,
            );
            let known = exists|i: int| 0 <= i < m.peers.len() && (#[trigger] m.peers[i]).0 == slot;
            let all = forall|x: int| 0 <= x < m.params.piece_count ==> #[trigger] m.picker.have[x];
            let none = forall|x: int| 0 <= x < m.params.piece_count ==> !#[trigger] m.picker.have[x];
            &&& known ==> n == m && told.len() == 0
            &&& !known ==> {
                let p = n.peers[m.peers.len() as int].1;
                &&& n.peers.len() == m.peers.len() + 1
                &&& forall|i: int| 0 <= i < m.peers.len() ==> #[trigger] n.peers[i] == m.peers[i]
                &&& n.peers[m.peers.len() as int].0 == slot
                &&& p.have.len() == m.params.piece_count
                &&& forall|x: int| 0 <= x < p.have.len() ==> !#[trigger] p.have[x]
                &&& p.choking_us && p.we_choking && !p.we_are_interested && !p.peer_interested
                &&& p.in_flight == 0 && p.max_in_flight == max_in_flight
                &&& !p.supports_fast && p.addr is None && !p.announced_have_all
                &&& n.in_progress == m.in_progress
                &&& rest_as_before(m, n)
                &&& told.len() == 1
                &&& told[0] matches Deed::Send(to, note)
                &&& to == slot
                &&& (supports_fast && all) ==> note is SendHaveAll
                &&& (supports_fast && none) ==> note is SendHaveNone
                &&& (!supports_fast || (!all && !none)) ==> (note matches PeerNote::SendBitfield(bits)
                    && packs(bits, m.picker.have))
            }
        }),
{
    lemma_find(m.peers, slot);
    lemma_count_missing_bounds(m.picker.have);
    law_flags_pack(m.picker.have);
    assert(packs(packed(m.picker.have), m.picker.have));
    assert(packs(packed_of(m.picker.have), m.picker.have));
}

/// At the end every peer is told to end, once and in order, and what peer
/// exchange found is handed out once.
pub proof fn law_ending_reaches_every_peer(m: SessionModel, now: u64)
    ensures
        ({
            let (n, told) = on_event(m, SessionEvent::Closed, now);
            &&& n == m
            &&& told.len() == m.peers.len()
            &&& forall|i: int|
                0 <= i < m.peers.len() ==> #[trigger] told[i] == Deed::Send(
                    m.peers[i].0,
                    PeerNote::Shutdown,
                )
        }),
        on_event(m, SessionEvent::Command(SessionCommand::Shutdown), now) == on_event(
            m,
            SessionEvent::Closed,
            now,
        ),
        ({
            let (n, told) = on_event(
                m,
                SessionEvent::Command(SessionCommand::DrainPexDiscovered),
                now,
            );
            &&& told.len() == 0
            &&& n.discovered.len() == 0
            &&& n == (SessionModel { discovered: n.discovered, ..m })
        }),
        on_event(m, SessionEvent::Command(SessionCommand::BitfieldSnapshot), now) == (
            m,
            Seq::<Deed>::empty(),
        ),
{
}

/// Pieces that are here from the start are here, beside those that were. A list
/// that is not about this torrent counts for nothing. A torrent that is whole
/// from the start is complete.
pub proof fn law_initial_pieces_are_here(m: SessionModel, have: Seq<bool>)
    requires
        m.sound(),
    ensures
        ({
            let n = m.with_initial(have);
            let whole = forall|x: int|
                0 <= x < m.params.piece_count ==> m.picker.have[x] || #[trigger] have[x];
            &&& have.len() != m.params.piece_count ==> n == m
            &&& have.len() == m.params.piece_count ==> {
                &&& n.picker.have.len() == m.params.piece_count
                &&& forall|x: int|
                    0 <= x < m.params.piece_count ==> #[trigger] n.picker.have[x] == (
                    m.picker.have[x] || have[x])
                &&& n.picker.availability == m.picker.availability
                &&& n.peers == m.peers && n.in_progress == m.in_progress
                &&& whole ==> n.state is Completed && n.completion_fired
                &&& !whole ==> n.state == m.state && n.completion_fired == m.completion_fired
            }
        }),
{
    if have.len() == m.params.piece_count {
        let all = Seq::new(have.len(), |i: int| m.picker.have[i] || have[i]);
        lemma_count_missing_bounds(all);
        if forall|x: int| 0 <= x < m.params.piece_count ==> m.picker.have[x] || #[trigger] have[x] {
            assert forall|i: int| 0 <= i < all.len() implies #[trigger] all[i] by {
                assert(m.picker.have[i] || have[i]);
            }
        } else {
            let x = choose|x: int|
                0 <= x < m.params.piece_count && !(m.picker.have[x] || #[trigger] have[x]);
            assert(!all[x]);
        }
    }
}

/// A session starts with nothing: no peer, no piece and no block, downloading, and
/// unless the torrent is private, ready to exchange addresses.
pub proof fn law_session_starts_with_nothing(
    id: TorrentId,
    params: ParamsModel,
    info_hash: Seq<u8>,
    peer_cap: nat,
    pex_interval: u64,
)
    ensures
        ({
            let m = SessionModel::fresh(id, params, info_hash, peer_cap, pex_interval);
            &&& m.id == id && m.params == params && m.info_hash == info_hash
            &&& m.peers.len() == 0 && m.in_progress.len() == 0
            &&& m.picker.have.len() == params.piece_count
            &&& m.picker.availability.len() == params.piece_count
            &&& forall|x: int| 0 <= x < params.piece_count ==> !#[trigger] m.picker.have[x]
            &&& forall|x: int|
                0 <= x < params.piece_count ==> #[trigger] m.picker.availability[x] == 0
            &&& m.state is Downloading && !m.completion_fired && !m.paused
            &&& m.metadata is None && m.info_dict is None
            &&& m.pex.enabled == !params.private
            &&& m.pex.advertised.len() == 0
            &&& m.peer_cap == peer_cap && m.pex_interval == pex_interval
        }),
{
}

/// A session is over when it is told to end or when one of its sources ended, and
/// by nothing else.
pub proof fn law_session_ends_when_told(event: SessionEvent)
    ensures
        ends(event) <==> event is Closed || event == SessionEvent::Command(
            SessionCommand::Shutdown,
        ),
{
}

} // verus!
