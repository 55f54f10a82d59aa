//! What each event does to a session, fact by fact: which peers, blocks and
//! pieces change, how, and what is sent.
use crate::alerts::category::{Alert, AlertErrorCode};
use crate::blob::blob;
use crate::ids::PeerSlot;
use crate::keyed::{find_key, lemma_find, lemma_find_unique};
use crate::net::PeerAddr;
use crate::session::bitfield::{bit_at, packs};
use crate::session::keeps::{
    law_disconnect_keeps, lemma_count_remove, lemma_count_update, lemma_interest_keeps,
    lemma_one_more_piece, lemma_peer_has_keeps,
};
use crate::session::messages::{Deed, DisconnectReason, ExtensionInput, PeerNote, PeerToSession};
use crate::session::model::{count_having, PeerModel, SessionModel};
use crate::session::params::{lemma_workable, BlockRequest};
use crate::session::torrent::{lemma_unpacked, on_event, unpacked, SessionEvent};
use bytes::Bytes;
use vstd::prelude::*;

verus! {

/// The connections are the same, and every peer but `slot` is as it was.
pub open spec fn others_as_before(m: SessionModel, n: SessionModel, slot: PeerSlot) -> bool {
    &&& n.peers.len() == m.peers.len()
    &&& forall|i: int|
        0 <= i < m.peers.len() ==> {
            &&& (#[trigger] n.peers[i]).0 == m.peers[i].0
            &&& m.peers[i].0 != slot ==> n.peers[i] == m.peers[i]
        }
}

/// The same pieces are being downloaded, with the same bytes and blocks here.
/// Who was asked for a block may differ.
pub open spec fn blocks_as_before(m: SessionModel, n: SessionModel) -> bool {
    &&& n.in_progress.len() == m.in_progress.len()
    &&& forall|k: int|
        0 <= k < m.in_progress.len() ==> {
            &&& (#[trigger] n.in_progress[k]).0 == m.in_progress[k].0
            &&& n.in_progress[k].1.buffer == m.in_progress[k].1.buffer
            &&& n.in_progress[k].1.received == m.in_progress[k].1.received
            &&& n.in_progress[k].1.claimed.len() == m.in_progress[k].1.claimed.len()
        }
}

/// Nothing is asked of `slot` any more, and of everybody else what was.
pub open spec fn freed_of(m: SessionModel, n: SessionModel, slot: PeerSlot) -> bool {
    forall|k: int, b: int|
        0 <= k < m.in_progress.len() && 0 <= b < m.in_progress[k].1.claimed.len() ==> {
            &&& (#[trigger] n.in_progress[k].1.claimed[b]) != Some(slot)
            &&& m.in_progress[k].1.claimed[b] == Some(slot) ==> n.in_progress[k].1.claimed[b] is None
            &&& m.in_progress[k].1.claimed[b] != Some(slot) ==> n.in_progress[k].1.claimed[b]
                == m.in_progress[k].1.claimed[b]
        }
}

/// The session in every respect but its peers and its pieces in progress.
pub open spec fn rest_as_before(m: SessionModel, n: SessionModel) -> bool {
    &&& n.id == m.id
    &&& n.params == m.params
    &&& n.info_hash == m.info_hash
    &&& n.picker == m.picker
    &&& n.state == m.state
    &&& n.completion_fired == m.completion_fired
    &&& n.paused == m.paused
    &&& n.metadata == m.metadata
    &&& n.info_dict == m.info_dict
    &&& n.failures == m.failures
    &&& n.pex == m.pex
    &&& n.discovered == m.discovered
    &&& n.pex_interval == m.pex_interval
    &&& n.peer_cap == m.peer_cap
}

/// A peer that chokes us is asked for nothing any more: every block that was
/// asked of it alone can be asked of others, every other block is asked of whom
/// it was, and nothing that is here is lost.
pub proof fn law_choke_frees_what_was_asked(m: SessionModel, slot: PeerSlot, now: u64)
    requires
        m.wf(),
    ensures
        ({
            let (n, told) = on_event(m, SessionEvent::Peer(PeerToSession::Choked { slot }), now);
            &&& told.len() == 0
            &&& others_as_before(m, n, slot)
            &&& forall|i: int|
                0 <= i < m.peers.len() && m.peers[i].0 == slot ==> {
                    let p = m.peers[i].1;
                    &&& (#[trigger] n.peers[i]).1.choking_us
                    &&& n.peers[i].1.in_flight == 0
                    &&& n.peers[i].1 == (PeerModel { choking_us: true, in_flight: 0, ..p })
                }
            &&& blocks_as_before(m, n)
            &&& freed_of(m, n, slot)
            &&& rest_as_before(m, n)
        }),
{
    lemma_find(m.peers, slot);
    if let Some(i) = find_key(m.peers, slot) {
        assert forall|j: int| 0 <= j < m.peers.len() && m.peers[j].0 == slot implies j == i by {}
    }
}

/// A peer that no longer chokes us can be asked again. Nothing else changes.
pub proof fn law_unchoke_opens_the_peer(m: SessionModel, slot: PeerSlot, now: u64)
    requires
        m.wf(),
    ensures
        ({
            let (n, told) = on_event(m, SessionEvent::Peer(PeerToSession::Unchoked { slot }), now);
            &&& told.len() == 0
            &&& others_as_before(m, n, slot)
            &&& forall|i: int|
                0 <= i < m.peers.len() && m.peers[i].0 == slot ==> (#[trigger] n.peers[i]).1 == (
                PeerModel { choking_us: false, ..m.peers[i].1 })
            &&& n.in_progress == m.in_progress
            &&& rest_as_before(m, n)
        }),
{
    lemma_find(m.peers, slot);
}

/// A peer that came through its handshake is announced, and what is known of it
/// is what the handshake said.
pub proof fn law_connected_peer_is_announced(
    m: SessionModel,
    slot: PeerSlot,
    peer_id: [u8; 20],
    supports_fast: bool,
    addr: Option<PeerAddr>,
    now: u64,
)
    requires
        m.wf(),
    ensures
        ({
            let (n, told) = on_event(
                m,
                SessionEvent::Peer(
                    PeerToSession::Connected { slot, peer_id, supports_fast, addr },
                ),
                now,
            );
            &&& told == seq![Deed::Raise(Alert::PeerConnected { torrent: m.id, peer: slot })]
            &&& others_as_before(m, n, slot)
            &&& forall|i: int|
                0 <= i < m.peers.len() && m.peers[i].0 == slot ==> (#[trigger] n.peers[i]).1 == (
                PeerModel { supports_fast, addr, ..m.peers[i].1 })
            &&& n.in_progress == m.in_progress
            &&& rest_as_before(m, n)
        }),
{
    lemma_find(m.peers, slot);
}

/// A peer that leaves is gone and announced, and the others stay in their order.
/// What was asked of it can be asked of others, its pieces no longer count, and
/// peer exchange forgets it.
pub proof fn law_leaving_peer_is_forgotten(
    m: SessionModel,
    slot: PeerSlot,
    reason: DisconnectReason,
    at: int,
    now: u64,
)
    requires
        m.wf(),
        0 <= at < m.peers.len(),
        m.peers[at].0 == slot,
    ensures
        ({
            let (n, told) = on_event(
                m,
                SessionEvent::Peer(PeerToSession::Disconnected { slot, reason }),
                now,
            );
            &&& told == seq![Deed::Raise(Alert::PeerDisconnected { torrent: m.id, peer: slot })]
            &&& n.peers.len() == m.peers.len() - 1
            &&& forall|i: int|
                0 <= i < n.peers.len() ==> {
                    &&& (#[trigger] n.peers[i]).0 != slot
                    &&& i < at ==> n.peers[i] == m.peers[i]
                    &&& i >= at ==> n.peers[i] == m.peers[i + 1]
                }
            &&& blocks_as_before(m, n)
            &&& freed_of(m, n, slot)
            &&& n.picker.have == m.picker.have
            &&& n.picker.threshold == m.picker.threshold
            &&& forall|p: int|
                0 <= p < m.params.piece_count ==> #[trigger] n.picker.availability[p]
                    == m.picker.availability[p] - (if m.peers[at].1.have[p] {
                    1int
                } else {
                    0
                })
            &&& n.pex.sent == m.pex.sent.remove(slot.0)
            &&& n.pex.received == m.pex.received.remove(slot.0)
            &&& n.pex.enabled == m.pex.enabled
            &&& n.pex.advertised == m.pex.advertised
            &&& n.state == m.state
            &&& n.params == m.params
            &&& n.metadata == m.metadata
            &&& n.info_dict == m.info_dict
            &&& n.paused == m.paused
            &&& n.discovered == m.discovered
        }),
{
    lemma_find_unique(m.peers, at);
    let (n, told) = on_event(
        m,
        SessionEvent::Peer(PeerToSession::Disconnected { slot, reason }),
        now,
    );
    law_disconnect_keeps(m, slot);
    assert forall|i: int| 0 <= i < n.peers.len() implies (#[trigger] n.peers[i]).0 != slot by {
        let j = if i < at { i } else { i + 1 };
        assert(m.peers[j].0 != m.peers[at].0);
    }
    assert forall|p: int| 0 <= p < m.params.piece_count implies #[trigger] n.picker.availability[p]
        == m.picker.availability[p] - (if m.peers[at].1.have[p] {
        1int
    } else {
        0
    }) by {
        lemma_count_remove(m.peers, at, p);
        assert(n.picker.availability[p] == count_having(n.peers, p));
        assert(m.picker.availability[p] == count_having(m.peers, p));
    }
}

/// A peer whose connection breaks the protocol is told to end, and an alert says
/// so. Nobody else hears anything.
pub open spec fn turned_away(m: SessionModel, told: Seq<Deed>, slot: PeerSlot) -> bool {
    let alert = Deed::Raise(
        Alert::Error { torrent: m.id, code: AlertErrorCode::PeerProtocol },
    );
    if exists|i: int| 0 <= i < m.peers.len() && (#[trigger] m.peers[i]).0 == slot {
        told == seq![Deed::Send(slot, PeerNote::Shutdown), alert]
    } else {
        told == seq![alert]
    }
}

proof fn lemma_kick(m: SessionModel, slot: PeerSlot)
    ensures
        turned_away(m, m.kick(slot, AlertErrorCode::PeerProtocol), slot),
{
    lemma_find(m.peers, slot);
}

/// The peer at place `at` has the pieces `have` now, and they count as its
/// pieces. We are interested in it exactly if it has a piece that is missing
/// here, and it hears of that where it is new. Nothing else changes.
pub open spec fn pieces_told(
    m: SessionModel,
    n: SessionModel,
    told: Seq<Deed>,
    at: int,
    have: Seq<bool>,
) -> bool {
    let slot = m.peers[at].0;
    let p = m.peers[at].1;
    let q = n.peers[at].1;
    let want = exists|x: int|
        0 <= x < m.params.piece_count && #[trigger] have[x] && !m.picker.have[x];
    &&& others_as_before(m, n, slot)
    &&& q == (PeerModel {
        have,
        we_are_interested: want,
        announced_have_all: q.announced_have_all,
        ..p
    })
    &&& want == p.we_are_interested ==> told.len() == 0
    &&& want != p.we_are_interested ==> told == seq![
        Deed::Send(slot, PeerNote::SetInterested(want)),
    ]
    &&& forall|x: int|
        0 <= x < m.params.piece_count ==> #[trigger] n.picker.availability[x]
            == m.picker.availability[x] - (if p.have[x] {
            1int
        } else {
            0
        }) + (if have[x] {
            1int
        } else {
            0
        })
    &&& n.picker.have == m.picker.have
    &&& n.picker.threshold == m.picker.threshold
    &&& n.in_progress == m.in_progress
    &&& rest_as_before(m, (SessionModel { picker: m.picker, ..n }))
}

proof fn lemma_pieces_told(m: SessionModel, at: int, next: SessionModel, have: Seq<bool>)
    requires
        m.wf(),
        next.wf(),
        0 <= at < m.peers.len(),
        have.len() == m.params.piece_count,
        others_as_before(m, next, m.peers[at].0),
        next.peers[at].1 == (PeerModel {
            have,
            announced_have_all: next.peers[at].1.announced_have_all,
            ..m.peers[at].1
        }),
        next == (SessionModel { peers: next.peers, picker: next.picker, ..m }),
        next.picker.have == m.picker.have,
        next.picker.threshold == m.picker.threshold,
    ensures
        pieces_told(
            m,
            next.interest(m.peers[at].0).0,
            next.interest(m.peers[at].0).1,
            at,
            have,
        ),
{
    let slot = m.peers[at].0;
    let (n, told) = next.interest(slot);
    lemma_find_unique(m.peers, at);
    lemma_find_unique(next.peers, at);
    lemma_interest_keeps(next, slot);
    assert(next.wants(have) == exists|x: int|
        0 <= x < m.params.piece_count && #[trigger] have[x] && !m.picker.have[x]);
    assert forall|x: int| 0 <= x < m.params.piece_count implies #[trigger] n.picker.availability[x]
        == m.picker.availability[x] - (if m.peers[at].1.have[x] {
        1int
    } else {
        0
    }) + (if have[x] {
        1int
    } else {
        0
    }) by {
        lemma_count_update(m.peers, at, next.peers[at], x);
        assert(next.peers =~= m.peers.update(at, next.peers[at]));
        assert(next.picker.availability[x] == count_having(next.peers, x));
        assert(m.picker.availability[x] == count_having(m.peers, x));
    }
}

/// A peer that has one more piece has it and all that it had. A piece that the
/// torrent does not have turns it away.
pub proof fn law_have_adds_one_piece(m: SessionModel, slot: PeerSlot, piece: u32, at: int, now: u64)
    requires
        m.wf(),
        0 <= at < m.peers.len(),
        m.peers[at].0 == slot,
    ensures
        ({
            let (n, told) = on_event(
                m,
                SessionEvent::Peer(PeerToSession::Have { slot, piece }),
                now,
            );
            &&& piece >= m.params.piece_count ==> n == m && turned_away(m, told, slot)
            &&& piece < m.params.piece_count ==> {
                &&& pieces_told(m, n, told, at, n.peers[at].1.have)
                &&& forall|x: int|
                    0 <= x < m.params.piece_count ==> #[trigger] n.peers[at].1.have[x] == (x == piece
                        || m.peers[at].1.have[x])
                &&& n.peers[at].1.have.len() == m.params.piece_count
                &&& n.peers[at].1.announced_have_all == m.peers[at].1.announced_have_all
            }
        }),
{
    lemma_kick(m, slot);
    lemma_find_unique(m.peers, at);
    if piece < m.params.piece_count {
        lemma_one_more_piece(m, slot, piece);
        let next = m.peer_gains(slot, piece);
        let have = m.peers[at].1.have.update(piece as int, true);
        assert(m.peers[at].1.have[piece as int] ==> have =~= m.peers[at].1.have);
        lemma_pieces_told(m, at, next, have);
        lemma_find_unique(next.peers, at);
    }
}

/// A peer that tells all its pieces has exactly those. A bitfield of another
/// form than the torrent asks for turns it away.
pub proof fn law_bitfield_tells_all_pieces(
    m: SessionModel,
    slot: PeerSlot,
    bytes: Bytes,
    have: Seq<bool>,
    at: int,
    now: u64,
)
    requires
        m.wf(),
        0 <= at < m.peers.len(),
        m.peers[at].0 == slot,
        have.len() == m.params.piece_count,
    ensures
        ({
            let (n, told) = on_event(
                m,
                SessionEvent::Peer(PeerToSession::Bitfield { slot, bytes }),
                now,
            );
            &&& packs(blob(bytes), have) ==> pieces_told(m, n, told, at, have)
            &&& packs(blob(bytes), have) ==> n.peers[at].1.announced_have_all
                == m.peers[at].1.announced_have_all
            &&& (forall|h: Seq<bool>|
                h.len() == m.params.piece_count ==> !#[trigger] packs(blob(bytes), h)) ==> n == m
                && turned_away(m, told, slot)
        }),
{
    lemma_kick(m, slot);
    lemma_find_unique(m.peers, at);
    lemma_unpacked(blob(bytes), m.params.piece_count);
    if packs(blob(bytes), have) {
        let got = unpacked(blob(bytes), m.params.piece_count)->0;
        assert forall|i: int| 0 <= i < have.len() implies got[i] == have[i] by {
            assert(bit_at(blob(bytes), i) == have[i]);
            assert(bit_at(blob(bytes), i) == got[i]);
        }
        assert(got =~= have);
        lemma_peer_has_keeps(m, slot, have, false);
        let next = m.peer_has(slot, have, false);
        lemma_pieces_told(m, at, next, have);
        lemma_find_unique(next.peers, at);
    }
}

/// A peer that says that it has every piece, or none, has them, or none. That it
/// said it has every piece is remembered.
pub proof fn law_have_all_and_none(m: SessionModel, slot: PeerSlot, all: bool, at: int, now: u64)
    requires
        m.wf(),
        0 <= at < m.peers.len(),
        m.peers[at].0 == slot,
    ensures
        ({
            let msg = if all {
                PeerToSession::HaveAll { slot }
            } else {
                PeerToSession::HaveNone { slot }
            };
            let (n, told) = on_event(m, SessionEvent::Peer(msg), now);
            &&& pieces_told(m, n, told, at, n.peers[at].1.have)
            &&& n.peers[at].1.have.len() == m.params.piece_count
            &&& forall|x: int|
                0 <= x < m.params.piece_count ==> #[trigger] n.peers[at].1.have[x] == all
            &&& n.peers[at].1.announced_have_all == (all || m.peers[at].1.announced_have_all)
        }),
{
    let have = Seq::new(m.params.piece_count as nat, |i: int| all);
    lemma_find_unique(m.peers, at);
    lemma_peer_has_keeps(m, slot, have, all);
    lemma_pieces_told(m, at, m.peer_has(slot, have, all), have);
    assert(all ==> have =~= Seq::new(m.params.piece_count as nat, |i: int| true));
    assert(!all ==> have =~= Seq::new(m.params.piece_count as nat, |i: int| false));
    let next = m.peer_has(slot, have, all);
    lemma_find_unique(next.peers, at);
}

/// A request that a peer refuses is no longer under way on it, and its block can
/// be asked of others. Every other block is asked of whom it was.
pub proof fn law_refused_block_is_freed(
    m: SessionModel,
    slot: PeerSlot,
    req: BlockRequest,
    at: int,
    now: u64,
)
    requires
        m.wf(),
        0 <= at < m.peers.len(),
        m.peers[at].0 == slot,
    ensures
        ({
            let (n, told) = on_event(
                m,
                SessionEvent::Peer(PeerToSession::Rejected { slot, req }),
                now,
            );
            let p = m.peers[at].1;
            &&& told.len() == 0
            &&& others_as_before(m, n, slot)
            &&& n.peers[at].1 == (PeerModel { in_flight: n.peers[at].1.in_flight, ..p })
            &&& p.in_flight > 0 ==> n.peers[at].1.in_flight == p.in_flight - 1
            &&& p.in_flight == 0 ==> n.peers[at].1.in_flight == 0
            &&& blocks_as_before(m, n)
            &&& forall|k: int, b: int|
                0 <= k < m.in_progress.len() && 0 <= b < m.in_progress[k].1.claimed.len() ==> {
                    let freed = m.in_progress[k].0 == req.piece && b * 16384 <= req.offset < (b
                        + 1) * 16384 && m.in_progress[k].1.claimed[b] == Some(slot);
                    &&& freed ==> (#[trigger] n.in_progress[k].1.claimed[b]) is None
                    &&& !freed ==> n.in_progress[k].1.claimed[b] == m.in_progress[k].1.claimed[b]
                }
            &&& rest_as_before(m, n)
        }),
{
    lemma_find_unique(m.peers, at);
    lemma_find(m.in_progress, req.piece);
}

/// A peer that becomes interested in us is unchoked at once, unless the session
/// is paused or it is unchoked already; one that loses interest hears nothing.
/// Its interest is remembered.
pub proof fn law_interested_peer_is_unchoked(
    m: SessionModel,
    slot: PeerSlot,
    interested: bool,
    at: int,
    now: u64,
)
    requires
        m.wf(),
        0 <= at < m.peers.len(),
        m.peers[at].0 == slot,
    ensures
        ({
            let msg = if interested {
                PeerToSession::Interested { slot }
            } else {
                PeerToSession::NotInterested { slot }
            };
            let (n, told) = on_event(m, SessionEvent::Peer(msg), now);
            let p = m.peers[at].1;
            let unchoke = interested && p.we_choking && !m.paused;
            &&& unchoke ==> told == seq![Deed::Send(slot, PeerNote::Unchoke)]
            &&& !unchoke ==> told.len() == 0
            &&& others_as_before(m, n, slot)
            &&& n.peers[at].1 == (PeerModel {
                peer_interested: interested,
                we_choking: p.we_choking && !unchoke,
                ..p
            })
            &&& n.in_progress == m.in_progress
            &&& rest_as_before(m, n)
        }),
{
    lemma_find_unique(m.peers, at);
}

/// A block is served exactly to a peer that is not choked and asks for a block of
/// a piece that is here, inside the piece and no larger than a block: the piece
/// is read from where it starts in the torrent, piece by piece from the front,
/// as long as it is. Whoever may not have it is refused where it understands
/// that, and whoever asks for what cannot be is turned away. The session stays as
/// it is.
pub proof fn law_requested_block_is_served(
    m: SessionModel,
    slot: PeerSlot,
    req: BlockRequest,
    at: int,
    now: u64,
)
    requires
        m.wf(),
        0 <= at < m.peers.len(),
        m.peers[at].0 == slot,
    ensures
        ({
            let (n, told) = on_event(
                m,
                SessionEvent::Peer(PeerToSession::BlockRequested { slot, req }),
                now,
            );
            let p = m.peers[at].1;
            let start = req.piece * m.params.piece_length;
            let left = m.params.total_length - start;
            let size = if left < m.params.piece_length {
                left
            } else {
                m.params.piece_length as int
            };
            let malformed = req.piece >= m.params.piece_count || req.length > 16384;
            let withheld = p.we_choking || !m.picker.have[req.piece as int];
            let outside = req.offset + req.length > size;
            &&& n == m
            &&& malformed ==> turned_away(m, told, slot)
            &&& (!malformed && withheld && p.supports_fast) ==> told == seq![
                Deed::Send(slot, PeerNote::RejectRequest(req)),
            ]
            &&& (!malformed && withheld && !p.supports_fast) ==> told.len() == 0
            &&& (!malformed && !withheld && outside && size <= u32::MAX) ==> turned_away(
                m,
                told,
                slot,
            )
            &&& (!malformed && !withheld && !outside && size <= u32::MAX) ==> {
                &&& told.len() == 1
                &&& told[0] matches Deed::ServeBlock {
                    slot: s,
                    supports_fast,
                    piece_offset,
                    piece_size,
                    req: served,
                }
                &&& s == slot
                &&& supports_fast == p.supports_fast
                &&& piece_offset == start
                &&& piece_size == size
                &&& served == req
            }
        }),
{
    lemma_find_unique(m.peers, at);
    lemma_kick(m, slot);
    if req.piece < m.params.piece_count {
        lemma_workable(m.params, req.piece as int);
    }
}

/// A peer that takes a request back changes nothing, and neither does an
/// extension message of an unknown name or one that could not be decoded.
pub proof fn law_idle_word_changes_nothing(
    m: SessionModel,
    slot: PeerSlot,
    req: BlockRequest,
    input: ExtensionInput,
    now: u64,
)
    requires
        input is Other || input == ExtensionInput::Metadata(None) || input == ExtensionInput::Pex(
            None,
        ),
    ensures
        on_event(m, SessionEvent::Peer(PeerToSession::RequestCancelled { slot, req }), now) == (
            m,
            Seq::<Deed>::empty(),
        ),
        on_event(m, SessionEvent::Peer(PeerToSession::ExtensionMessage { slot, input }), now) == (
            m,
            Seq::<Deed>::empty(),
        ),
{
}

/// What a connection says that the session does not know changes nothing and is
/// answered with nothing, as far as it could be said of any torrent of this form.
pub proof fn law_unknown_peer_changes_nothing(
    m: SessionModel,
    slot: PeerSlot,
    piece: u32,
    req: BlockRequest,
    now: u64,
)
    requires
        m.wf(),
        forall|i: int| 0 <= i < m.peers.len() ==> (#[trigger] m.peers[i]).0 != slot,
        piece < m.params.piece_count,
        req.piece < m.params.piece_count,
        req.length <= 16384,
    ensures
        on_event(m, SessionEvent::Peer(PeerToSession::Choked { slot }), now) == (
            m,
            Seq::<Deed>::empty(),
        ),
        on_event(m, SessionEvent::Peer(PeerToSession::Unchoked { slot }), now) == (
            m,
            Seq::<Deed>::empty(),
        ),
        on_event(m, SessionEvent::Peer(PeerToSession::Have { slot, piece }), now) == (
            m,
            Seq::<Deed>::empty(),
        ),
        on_event(m, SessionEvent::Peer(PeerToSession::HaveAll { slot }), now) == (
            m,
            Seq::<Deed>::empty(),
        ),
        on_event(m, SessionEvent::Peer(PeerToSession::HaveNone { slot }), now) == (
            m,
            Seq::<Deed>::empty(),
        ),
        on_event(m, SessionEvent::Peer(PeerToSession::Interested { slot }), now) == (
            m,
            Seq::<Deed>::empty(),
        ),
        on_event(m, SessionEvent::Peer(PeerToSession::NotInterested { slot }), now) == (
            m,
            Seq::<Deed>::empty(),
        ),
        on_event(m, SessionEvent::Peer(PeerToSession::BlockRequested { slot, req }), now) == (
            m,
            Seq::<Deed>::empty(),
        ),
        on_event(m, SessionEvent::Peer(PeerToSession::Rejected { slot, req }), now) == (
            m,
            Seq::<Deed>::empty(),
        ),
{
    lemma_find(m.peers, slot);
    lemma_find(m.in_progress, req.piece);
    assert forall|k: int, b: int|
        0 <= k < m.in_progress.len() && 0 <= b < m.in_progress[k].1.claimed.len() implies (
    #[trigger] m.in_progress[k].1.claimed[b]) != Some(slot) by {
        if m.in_progress[k].1.claimed[b] is Some {
            assert(find_key(m.peers, m.in_progress[k].1.claimed[b]->0) is Some);
        }
    }
    let n = m.released(slot);
    assert forall|k: int| 0 <= k < m.in_progress.len() implies n.in_progress[k]
        == m.in_progress[k] by {
        assert(n.in_progress[k].1.claimed =~= m.in_progress[k].1.claimed);
        assert(n.in_progress[k].1 =~= m.in_progress[k].1);
    }
    assert(n.in_progress =~= m.in_progress);
    assert(n =~= m);
}

} // verus!
