//! What holds of a session across its events.
use crate::alerts::category::{Alert, AlertErrorCode};
use crate::ids::PeerSlot;
use crate::keyed::{find_key, lemma_find, lemma_find_unique};
use crate::session::info::Info;
use crate::session::keeps::{
    law_block_keeps, law_choke_keeps, law_completion_keeps, law_disconnect_keeps,
    law_pausing_keeps, law_register_keeps, law_scheduled_keeps, lemma_ask_metadata_all_keeps,
    lemma_ask_metadata_keeps, lemma_cancel_all_keeps, lemma_first_eligible, lemma_first_free,
    lemma_interest_keeps, lemma_one_more_piece, lemma_peer_has_keeps, lemma_pex_to_keeps,
    lemma_release_block_keeps, lemma_set_peer_keeps, lemma_set_peers_keeps, lemma_with_piece_keeps,
    lemma_interest_all_keeps, lemma_with_metadata_keeps, lemma_without_piece_keeps,
};
use crate::session::messages::{
    Deed, ExtensionInput, ExtensionNote, MetadataNote, PeerNote, PeerToSession, SessionCommand,
};
use crate::session::metadata_exchange::{metadata_fault, params_from, AssemblerModel};
use crate::session::model::{
    all_claims, block_request, block_size, chokes, next_needed, not_interested, piece_claims,
    unchokes, PeerModel, PieceModel, SessionModel, METADATA_ATTEMPTS, METADATA_REQUESTS,
};
use crate::session::params::{BlockRequest, ParamsModel, BLOCK_SIZE};
use crate::session::pex::{addrs_of, PexPeer};
use crate::session::torrent::{
    after_event, by_ref, ends, lemma_unpacked, metadata_fits, on_event, on_message, possible,
    unpacked, SessionEvent,
};
use vstd::prelude::*;

verus! {

/// Whatever a peer says, a well-formed session stays well formed.
pub proof fn law_message_keeps(m: SessionModel, msg: PeerToSession, now: u64)
    requires
        m.wf(),
    ensures
        on_message(m, msg, now).0.wf(),
{
    match msg {
        PeerToSession::Connected { slot, peer_id: _, supports_fast, addr } => {
            lemma_find(m.peers, slot);
            if let Some(i) = find_key(m.peers, slot) {
                lemma_set_peer_keeps(m, i, PeerModel { supports_fast, addr, ..m.peers[i].1 });
            }
        },
        PeerToSession::Disconnected { slot, reason: _ } => {
            law_disconnect_keeps(m, slot);
        },
        PeerToSession::Choked { slot } => {
            law_choke_keeps(m, slot);
        },
        PeerToSession::Unchoked { slot } => {
            lemma_find(m.peers, slot);
            if let Some(i) = find_key(m.peers, slot) {
                lemma_set_peer_keeps(m, i, PeerModel { choking_us: false, ..m.peers[i].1 });
            }
        },
        PeerToSession::Have { slot, piece } => {
            if piece < m.params.piece_count {
                lemma_one_more_piece(m, slot, piece);
                lemma_interest_keeps(m.peer_gains(slot, piece), slot);
            }
        },
        PeerToSession::Bitfield { slot, bytes } => {
            let bits = unpacked(crate::blob::blob(bytes), m.params.piece_count);
            lemma_unpacked(crate::blob::blob(bytes), m.params.piece_count);
            if let Some(have) = bits {
                lemma_peer_has_keeps(m, slot, have, false);
                lemma_interest_keeps(m.peer_has(slot, have, false), slot);
            }
        },
        PeerToSession::HaveAll { slot } => {
            let have = Seq::new(m.params.piece_count as nat, |i: int| true);
            lemma_peer_has_keeps(m, slot, have, true);
            lemma_interest_keeps(m.peer_has(slot, have, true), slot);
        },
        PeerToSession::HaveNone { slot } => {
            let have = Seq::new(m.params.piece_count as nat, |i: int| false);
            lemma_peer_has_keeps(m, slot, have, false);
            lemma_interest_keeps(m.peer_has(slot, have, false), slot);
        },
        PeerToSession::Rejected { slot, req } => {
            lemma_release_block_keeps(m, slot, req);
        },
        PeerToSession::BlockReceived { slot, piece, offset, data } => {
            law_block_keeps(m, slot, piece, offset, crate::blob::blob(data));
        },
        PeerToSession::Interested { slot } => {
            lemma_on_interest_keeps(m, slot, true);
        },
        PeerToSession::NotInterested { slot } => {
            lemma_on_interest_keeps(m, slot, false);
        },
        PeerToSession::BlockRequested { slot: _, req: _ } => {},
        PeerToSession::RequestCancelled { slot: _, req: _ } => {},
        PeerToSession::ExtensionHandshake { slot, metadata_size, listen_port } => {
            let sized = m.told_size(metadata_size);
            assert(sized.wf());
            lemma_find(sized.peers, slot);
            if let Some(i) = find_key(sized.peers, slot) {
                if listen_port is Some && sized.peers[i].1.addr is Some {
                    let placed = sized.told_port(slot, listen_port);
                    lemma_set_peer_keeps(sized, i, placed.peers[i].1);
                }
            }
            lemma_ask_metadata_keeps(
                sized.told_port(slot, listen_port),
                slot,
                METADATA_REQUESTS as nat,
            );
        },
        PeerToSession::ExtensionMessage { slot, input } => match input {
            ExtensionInput::Metadata(note) => {
                if let Some(n) = note {
                    lemma_metadata_message_keeps(m, slot, n@);
                }
            },
            ExtensionInput::Pex(_) => {},
            ExtensionInput::Other => {},
        },
    }
}

proof fn lemma_on_interest_keeps(m: SessionModel, slot: PeerSlot, interested: bool)
    requires
        m.wf(),
    ensures
        m.on_interest(slot, interested).0.wf(),
{
    lemma_find(m.peers, slot);
    if let Some(i) = find_key(m.peers, slot) {
        lemma_set_peer_keeps(m, i, m.on_interest(slot, interested).0.peers[i].1);
    }
}

proof fn lemma_metadata_message_keeps(m: SessionModel, slot: PeerSlot, note: MetadataNote)
    requires
        m.wf(),
    ensures
        m.on_metadata_message(slot, note).0.wf(),
{
    match note {
        MetadataNote::Data { piece, total_size, data } => {},
        MetadataNote::Reject { piece } => {
            let next = if m.metadata is Some {
                SessionModel { metadata: Some(m.metadata->0.unasked(piece)), ..m }
            } else {
                m
            };
            assert(next.wf());
            lemma_ask_metadata_all_keeps(next, next.slots());
        },
        MetadataNote::Request { piece: _ } => {},
    }
}

/// Whatever happens, a well-formed session stays well formed.
pub proof fn law_event_keeps(m: SessionModel, event: SessionEvent, now: u64)
    requires
        m.wf(),
        possible(m, event),
    ensures
        after_event(m, event, now).0.wf(),
{
    match event {
        SessionEvent::Command(
            SessionCommand::RegisterPeer { slot, max_in_flight, supports_fast },
        ) => {
            law_register_keeps(m, slot, max_in_flight, supports_fast);
        },
        SessionEvent::Command(SessionCommand::Pause) => {
            law_pausing_keeps(m, true);
        },
        SessionEvent::Command(SessionCommand::Resume) => {
            law_pausing_keeps(m, false);
        },
        SessionEvent::Command(_) => {},
        SessionEvent::Completion { piece, result } => {
            law_completion_keeps(m, piece, result);
        },
        SessionEvent::DiskGone { piece } => {
            lemma_without_piece_keeps(m, piece);
        },
        SessionEvent::MetadataVerified { digest, parsed } => {
            lemma_metadata_verified_keeps(m, digest@, by_ref(parsed));
        },
        SessionEvent::Peer(msg) => {
            law_message_keeps(m, msg, now);
        },
        SessionEvent::PexTick => {
            lemma_pex_round_keeps(m, now);
        },
        SessionEvent::Closed => {},
    }
    let (mid, _) = on_event(m, event, now);
    law_scheduled_keeps(mid);
}

proof fn lemma_metadata_verified_keeps(
    m: SessionModel,
    digest: Seq<u8>,
    parsed: Result<&Info, String>,
)
    requires
        m.wf(),
        metadata_fits(m, digest, parsed),
    ensures
        m.on_metadata_verified(digest, parsed).0.wf(),
{
    if m.metadata is Some {
        if metadata_fault(m.metadata->0, digest, parsed) is None {
            let params = params_from(*parsed->Ok_0);
            lemma_with_metadata_keeps(m, m.metadata->0.metadata(), params);
            let next = m.with_metadata(m.metadata->0.metadata(), params);
            lemma_interest_all_keeps(next, next.slots());
        } else if m.failures + 1 <= METADATA_ATTEMPTS {
            let clean = AssemblerModel::fresh(m.info_hash);
            let next = SessionModel {
                failures: (m.failures + 1) as u32,
                metadata: Some(
                    match m.metadata->0.total_size {
                        Some(size) => clean.sized(size),
                        None => clean,
                    },
                ),
                ..m
            };
            assert(next.wf());
            lemma_ask_metadata_all_keeps(next, next.slots());
        }
    }
}

proof fn lemma_pex_round_keeps(m: SessionModel, now: u64)
    requires
        m.wf(),
    ensures
        m.pex_round(now).0.wf(),
{
    let current = addrs_of(m.known_addrs());
    if m.pex.enabled && !m.pex.unchanged(current) {
        let told = SessionModel { pex: m.pex.told(current), ..m };
        crate::session::pex::lemma_told_distinct(m.pex, current);
        let note = PeerNote::SendExtended(
            ExtensionNote::Pex(
                Seq::new(
                    m.pex.added(current).len(),
                    |i: int| PexPeer { addr: m.pex.added(current)[i], flags: 0 },
                ),
                m.pex.dropped(current),
            ),
        );
        lemma_pex_to_keeps(told, m.slots(), note, now);
    }
}

/// Pausing twice is pausing once, and so is going on.
pub proof fn law_pausing_idempotent(m: SessionModel, pause: bool)
    requires
        m.wf(),
    ensures
        m.pausing(pause).0.pausing(pause) == (m.pausing(pause).0, Seq::<Deed>::empty()),
{
    law_pausing_keeps(m, pause);
}

/// A paused session serves no block and unchokes nobody.
pub proof fn law_paused_serves_nothing(m: SessionModel, slot: PeerSlot, req: BlockRequest)
    requires
        m.wf(),
        m.paused,
    ensures
        forall|i: int|
            0 <= i < m.on_block_requested(slot, req).len()
                ==> !((#[trigger] m.on_block_requested(slot, req)[i]) is ServeBlock),
        m.on_interest(slot, true).1 == Seq::<Deed>::empty(),
{
    lemma_find(m.peers, slot);
}

/// A block is served only to a peer that is not choked, of a piece that is here,
/// and from inside that piece.
pub proof fn law_served_block_is_ours(m: SessionModel, slot: PeerSlot, req: BlockRequest, i: int)
    requires
        m.wf(),
        0 <= i < m.on_block_requested(slot, req).len(),
        m.on_block_requested(slot, req)[i] is ServeBlock,
    ensures
        req.piece < m.params.piece_count,
        m.picker.have[req.piece as int],
        req.offset + req.length <= m.params.size_of(req.piece as int),
        req.length <= BLOCK_SIZE,
        find_key(m.peers, slot) is Some,
        !m.peers[find_key(m.peers, slot)->0].1.we_choking,
        !m.paused,
{
    lemma_find(m.peers, slot);
}

/// What is asked of a peer is a block that nobody was asked for and that is not
/// here, of a piece that the peer has and we do not, and it lies inside the
/// piece.
pub proof fn law_assigned_block_is_missing(m: SessionModel, slot: PeerSlot)
    requires
        m.wf(),
        m.assign(slot) is Some,
    ensures
        ({
            let (next, told) = m.assign(slot)->0;
            let i = find_key(m.peers, slot)->0;
            &&& find_key(m.peers, slot) is Some
            &&& told.len() == 1
            &&& exists|p: int, b: int|
                {
                    &&& m.eligible(m.peers[i].1.have, p)
                    &&& #[trigger] m.with_piece(p as u32).in_progress[find_key(
                        m.with_piece(p as u32).in_progress,
                        p as u32,
                    )->0].1.free(b)
                    &&& told[0] == Deed::Send(
                        slot,
                        PeerNote::Request(block_request(p as u32, b, m.params.size_of(p))),
                    )
                    &&& b * BLOCK_SIZE + block_size(b, m.params.size_of(p)) <= m.params.size_of(p)
                    &&& 0 < block_size(b, m.params.size_of(p)) <= BLOCK_SIZE
                }
        }),
{
    lemma_find(m.peers, slot);
    let i = find_key(m.peers, slot)->0;
    let have = m.peers[i].1.have;
    lemma_first_eligible(m, have, 0);
    let p = m.first_eligible(have, 0)->0;
    lemma_with_piece_keeps(m, p as u32);
    let next = m.with_piece(p as u32);
    let k = find_key(next.in_progress, p as u32)->0;
    let q = next.in_progress[k].1;
    assert(q.wf(next.params.size_of(next.in_progress[k].0 as int)));
    lemma_first_free(q, 0);
    let b = q.first_free(0)->0;
    assert(q.free(b));
    assert(b <= q.received.len() - 1);
}

/// A torrent that is complete asks for nothing.
pub proof fn law_complete_asks_nothing(m: SessionModel)
    requires
        m.state is Completed,
    ensures
        m.scheduled() == (m, Seq::<Deed>::empty()),
{
}

/// A block that was not asked of this peer changes nothing that is here.
pub proof fn law_unsolicited_block_ignored(
    m: SessionModel,
    slot: PeerSlot,
    piece: u32,
    offset: u32,
    data: Seq<u8>,
)
    requires
        m.wf(),
        piece < m.params.piece_count,
        offset % BLOCK_SIZE == 0,
        ({
            let next = m.with_piece(piece);
            let q = next.in_progress[find_key(next.in_progress, piece)->0].1;
            let idx = (offset / BLOCK_SIZE) as int;
            idx < q.claimed.len() ==> q.claimed[idx] != Some(slot)
        }),
    ensures
        m.on_block(slot, piece, offset, data).0 == m.with_piece(piece),
{
    lemma_with_piece_keeps(m, piece);
    let next = m.with_piece(piece);
    let k = find_key(next.in_progress, piece)->0;
    assert(next.in_progress[k].1.wf(next.params.size_of(next.in_progress[k].0 as int)));
}

/// No action of the list announces completion.
pub open spec fn no_announcement(d: Seq<Deed>) -> bool {
    forall|i: int|
        0 <= i < d.len() ==> !(#[trigger] d[i] matches Deed::Raise(Alert::TorrentComplete { .. }))
}

proof fn lemma_quiet_add(a: Seq<Deed>, b: Seq<Deed>)
    requires
        no_announcement(a),
        no_announcement(b),
    ensures
        no_announcement(a + b),
{
    assert forall|i: int| 0 <= i < (a + b).len() implies !(#[trigger] (a
        + b)[i] matches Deed::Raise(Alert::TorrentComplete { .. })) by {
        if i < a.len() {
            assert((a + b)[i] == a[i]);
        } else {
            assert((a + b)[i] == b[i - a.len()]);
        }
    }
}

proof fn lemma_quiet_fill(m: SessionModel, slot: PeerSlot, room: nat)
    ensures
        no_announcement(m.fill(slot, room).1),
        m.fill(slot, room).0.completion_fired == m.completion_fired,
    decreases room,
{
    if let Some(i) = find_key(m.peers, slot) {
        if room > 0 && m.peers[i].1.can_request() {
            if let Some((next, first)) = m.assign(slot) {
                lemma_quiet_fill(next, slot, (room - 1) as nat);
                lemma_quiet_add(first, next.fill(slot, (room - 1) as nat).1);
            }
        }
    }
}

proof fn lemma_quiet_fill_all(m: SessionModel, slots: Seq<PeerSlot>)
    ensures
        no_announcement(m.fill_all(slots).1),
        m.fill_all(slots).0.completion_fired == m.completion_fired,
    decreases slots.len(),
{
    if slots.len() > 0 {
        lemma_quiet_fill_all(m, slots.drop_last());
        let (mid, first) = m.fill_all(slots.drop_last());
        lemma_quiet_fill(mid, slots.last(), mid.room(slots.last()));
        lemma_quiet_add(first, mid.fill(slots.last(), mid.room(slots.last())).1);
    }
}

proof fn lemma_quiet_ask(m: SessionModel, slot: PeerSlot, n: nat)
    ensures
        no_announcement(m.ask_metadata(slot, n).1),
        m.ask_metadata(slot, n).0.completion_fired == m.completion_fired,
    decreases n,
{
    if n > 0 && m.metadata is Some {
        if let Some(piece) = next_needed(m.metadata->0) {
            let next = SessionModel { metadata: Some(m.metadata->0.asked(piece, slot)), ..m };
            lemma_quiet_ask(next, slot, (n - 1) as nat);
            let told = if find_key(m.peers, slot) is Some {
                seq![
                    Deed::Send(
                        slot,
                        PeerNote::SendExtended(
                            ExtensionNote::Metadata(MetadataNote::Request { piece }),
                        ),
                    ),
                ]
            } else {
                Seq::empty()
            };
            lemma_quiet_add(told, next.ask_metadata(slot, (n - 1) as nat).1);
        }
    }
}

proof fn lemma_quiet_ask_all(m: SessionModel, slots: Seq<PeerSlot>)
    ensures
        no_announcement(m.ask_metadata_all(slots).1),
        m.ask_metadata_all(slots).0.completion_fired == m.completion_fired,
    decreases slots.len(),
{
    if slots.len() > 0 && m.metadata is Some && next_needed(m.metadata->0) is Some {
        lemma_quiet_ask(m, slots[0], METADATA_REQUESTS as nat);
        let (mid, first) = m.ask_metadata_of(slots[0]);
        lemma_quiet_ask_all(mid, slots.drop_first());
        lemma_quiet_add(first, mid.ask_metadata_all(slots.drop_first()).1);
    }
}

proof fn lemma_quiet_cancel(m: SessionModel, list: Seq<(PeerSlot, BlockRequest)>)
    ensures
        no_announcement(m.cancel_all(list).1),
        m.cancel_all(list).0.completion_fired == m.completion_fired,
    decreases list.len(),
{
    if list.len() > 0 {
        lemma_quiet_cancel(m, list.drop_last());
        let (mid, first) = m.cancel_all(list.drop_last());
        let (slot, req) = list.last();
        let told = if find_key(mid.peers, slot) is Some {
            seq![Deed::Send(slot, PeerNote::Cancel(req))]
        } else {
            Seq::empty()
        };
        lemma_quiet_add(first, told);
    }
}

proof fn lemma_quiet_chokes(peers: Seq<(PeerSlot, PeerModel)>)
    ensures
        no_announcement(chokes(peers)),
        no_announcement(unchokes(peers)),
        no_announcement(not_interested(peers)),
    decreases peers.len(),
{
    if peers.len() > 0 {
        lemma_quiet_chokes(peers.drop_last());
    }
}

proof fn lemma_quiet_pex(m: SessionModel, slots: Seq<PeerSlot>, note: PeerNote, now: u64)
    ensures
        no_announcement(m.pex_to(slots, note, now).1),
        m.pex_to(slots, note, now).0.completion_fired == m.completion_fired,
    decreases slots.len(),
{
    if slots.len() > 0 {
        lemma_quiet_pex(m, slots.drop_last(), note, now);
    }
}

proof fn lemma_quiet_interest(m: SessionModel, slot: PeerSlot)
    ensures
        no_announcement(m.interest(slot).1),
        m.interest(slot).0.completion_fired == m.completion_fired,
{
}

proof fn lemma_quiet_kick(m: SessionModel, slot: PeerSlot, code: AlertErrorCode)
    ensures
        no_announcement(m.kick(slot, code)),
{
}

proof fn lemma_quiet_pieces(m: SessionModel, slot: PeerSlot, piece: u32, bits: Option<Seq<bool>>)
    ensures
        no_announcement(m.on_have(slot, piece).1),
        m.on_have(slot, piece).0.completion_fired == m.completion_fired,
        no_announcement(m.on_bitfield(slot, bits).1),
        m.on_bitfield(slot, bits).0.completion_fired == m.completion_fired,
        no_announcement(m.on_have_all(slot).1),
        m.on_have_all(slot).0.completion_fired == m.completion_fired,
        no_announcement(m.on_have_none(slot).1),
        m.on_have_none(slot).0.completion_fired == m.completion_fired,
{
    let all = Seq::new(m.params.piece_count as nat, |i: int| true);
    let none = Seq::new(m.params.piece_count as nat, |i: int| false);
    lemma_quiet_kick(m, slot, AlertErrorCode::PeerProtocol);
    lemma_quiet_interest(m.peer_gains(slot, piece), slot);
    if let Some(have) = bits {
        lemma_quiet_interest(m.peer_has(slot, have, false), slot);
    }
    lemma_quiet_interest(m.peer_has(slot, all, true), slot);
    lemma_quiet_interest(m.peer_has(slot, none, false), slot);
}

proof fn lemma_quiet_block(
    m: SessionModel,
    slot: PeerSlot,
    piece: u32,
    offset: u32,
    data: Seq<u8>,
)
    ensures
        no_announcement(m.on_block(slot, piece, offset, data).1),
        m.on_block(slot, piece, offset, data).0.completion_fired == m.completion_fired,
{
    lemma_quiet_kick(m, slot, AlertErrorCode::PeerProtocol);
    lemma_quiet_kick(m.with_piece(piece), slot, AlertErrorCode::PeerProtocol);
}

proof fn lemma_quiet_requested(m: SessionModel, slot: PeerSlot, req: BlockRequest)
    ensures
        no_announcement(m.on_block_requested(slot, req)),
{
    lemma_quiet_kick(m, slot, AlertErrorCode::PeerProtocol);
}

proof fn lemma_quiet_metadata(m: SessionModel, slot: PeerSlot, note: MetadataNote)
    ensures
        no_announcement(m.on_metadata_message(slot, note).1),
        m.on_metadata_message(slot, note).0.completion_fired == m.completion_fired,
{
    match note {
        MetadataNote::Reject { piece } => {
            let next = if m.metadata is Some {
                SessionModel { metadata: Some(m.metadata->0.unasked(piece)), ..m }
            } else {
                m
            };
            lemma_quiet_ask_all(next, next.slots());
        },
        _ => {},
    }
}

proof fn lemma_quiet_message(m: SessionModel, msg: PeerToSession, now: u64)
    ensures
        no_announcement(on_message(m, msg, now).1),
        on_message(m, msg, now).0.completion_fired == m.completion_fired,
{
    match msg {
        PeerToSession::Have { slot, piece } => {
            lemma_quiet_pieces(m, slot, piece, None);
        },
        PeerToSession::Bitfield { slot, bytes } => {
            lemma_quiet_pieces(
                m,
                slot,
                0,
                unpacked(crate::blob::blob(bytes), m.params.piece_count),
            );
        },
        PeerToSession::HaveAll { slot } => {
            lemma_quiet_pieces(m, slot, 0, None);
        },
        PeerToSession::HaveNone { slot } => {
            lemma_quiet_pieces(m, slot, 0, None);
        },
        PeerToSession::BlockReceived { slot, piece, offset, data } => {
            lemma_quiet_block(m, slot, piece, offset, crate::blob::blob(data));
        },
        PeerToSession::BlockRequested { slot, req } => {
            lemma_quiet_requested(m, slot, req);
        },
        PeerToSession::ExtensionHandshake { slot, metadata_size, listen_port } => {
            lemma_quiet_ask(
                m.told_size(metadata_size).told_port(slot, listen_port),
                slot,
                METADATA_REQUESTS as nat,
            );
        },
        PeerToSession::ExtensionMessage { slot, input } => match input {
            ExtensionInput::Metadata(note) => match note {
                Some(n) => {
                    lemma_quiet_metadata(m, slot, n@);
                },
                None => {},
            },
            _ => {},
        },
        _ => {},
    }
}

proof fn lemma_quiet_interest_all(m: SessionModel, slots: Seq<PeerSlot>)
    ensures
        no_announcement(m.interest_all(slots).1),
        m.interest_all(slots).0.completion_fired == m.completion_fired,
    decreases slots.len(),
{
    if slots.len() > 0 {
        lemma_quiet_interest_all(m, slots.drop_last());
        let (mid, first) = m.interest_all(slots.drop_last());
        lemma_quiet_interest(mid, slots.last());
        lemma_quiet_add(first, mid.interest(slots.last()).1);
    }
}

proof fn lemma_quiet_verified(m: SessionModel, digest: Seq<u8>, parsed: Result<&Info, String>)
    ensures
        no_announcement(m.on_metadata_verified(digest, parsed).1),
        m.on_metadata_verified(digest, parsed).0.completion_fired == m.completion_fired,
{
    if m.metadata is Some {
        if metadata_fault(m.metadata->0, digest, parsed) is None {
            let next = m.with_metadata(m.metadata->0.metadata(), params_from(*parsed->Ok_0));
            lemma_quiet_interest_all(next, next.slots());
            lemma_quiet_add(
                seq![Deed::Raise(Alert::MetadataReceived { torrent: m.id })],
                next.interest_all(next.slots()).1,
            );
        } else if m.failures + 1 <= METADATA_ATTEMPTS {
            let clean = AssemblerModel::fresh(m.info_hash);
            let next = SessionModel {
                failures: (m.failures + 1) as u32,
                metadata: Some(
                    match m.metadata->0.total_size {
                        Some(size) => clean.sized(size),
                        None => clean,
                    },
                ),
                ..m
            };
            lemma_quiet_ask_all(next, next.slots());
        }
    }
}

/// Completion is announced at most once in the life of a session: only an event
/// that finds it unannounced announces it, it is announced from then on, and
/// that never changes again.
pub proof fn law_completion_announced_once(m: SessionModel, event: SessionEvent, now: u64)
    requires
        m.wf(),
        possible(m, event),
    ensures
        m.completion_fired ==> after_event(m, event, now).0.completion_fired,
        !no_announcement(after_event(m, event, now).1) ==> !m.completion_fired && after_event(
            m,
            event,
            now,
        ).0.completion_fired,
{
    let (mid, first) = on_event(m, event, now);
    match event {
        SessionEvent::Command(SessionCommand::Pause) => {
            lemma_quiet_chokes(m.peers);
            if !m.paused {
                let choked = SessionModel {
                    paused: true,
                    peers: Seq::new(
                        m.peers.len(),
                        |i: int| (m.peers[i].0, PeerModel { we_choking: true, ..m.peers[i].1 }),
                    ),
                    ..m
                };
                let list = all_claims(m.in_progress, m.params);
                lemma_quiet_cancel(choked, list);
                lemma_quiet_add(chokes(m.peers), choked.cancel_all(list).1);
            }
        },
        SessionEvent::Command(SessionCommand::Resume) => {
            lemma_quiet_chokes(m.peers);
        },
        SessionEvent::Peer(msg) => {
            lemma_quiet_message(m, msg, now);
        },
        SessionEvent::MetadataVerified { digest, parsed } => {
            lemma_quiet_verified(m, digest@, by_ref(parsed));
        },
        SessionEvent::PexTick => {
            let current = addrs_of(m.known_addrs());
            if m.pex.enabled && !m.pex.unchanged(current) {
                let told = SessionModel { pex: m.pex.told(current), ..m };
                let note = PeerNote::SendExtended(
                    ExtensionNote::Pex(
                        Seq::new(
                            m.pex.added(current).len(),
                            |i: int| PexPeer { addr: m.pex.added(current)[i], flags: 0 },
                        ),
                        m.pex.dropped(current),
                    ),
                );
                lemma_quiet_pex(told, m.slots(), note, now);
            }
        },
        SessionEvent::Completion { piece, result } => {
            let next = m.without_piece(piece);
            let news = seq![
                Deed::Raise(Alert::PieceCompleted { torrent: m.id, piece }),
            ] + next.to_all(PeerNote::Have(piece));
            lemma_quiet_add(
                seq![Deed::Raise(Alert::PieceCompleted { torrent: m.id, piece })],
                next.to_all(PeerNote::Have(piece)),
            );
            assert(no_announcement(news));
            if m.completion_fired {
                assert(news + Seq::<Deed>::empty() =~= news);
            }
        },
        _ => {},
    }
    if !ends(event) && mid.state is Downloading && !mid.paused {
        lemma_quiet_fill_all(mid, mid.slots());
        if no_announcement(first) {
            lemma_quiet_add(first, mid.scheduled().1);
        }
    }
}

/// Completion is announced before any peer hears that we lost interest in it.
pub proof fn law_announcement_precedes_farewell(m: SessionModel, i: int)
    requires
        0 <= i < m.completed().1.len(),
    ensures
        m.completed().1[0] == Deed::Raise(Alert::TorrentComplete { torrent: m.id }),
        i > 0 ==> m.completed().1[i] is Send,
{
    lemma_farewell_sends(m.peers);
    if i > 0 {
        assert(m.completed().1[i] == not_interested(m.peers)[i - 1]);
    }
}

proof fn lemma_farewell_sends(peers: Seq<(PeerSlot, PeerModel)>)
    ensures
        forall|i: int| 0 <= i < not_interested(peers).len() ==> (#[trigger] not_interested(peers)[i]) is Send,
    decreases peers.len(),
{
    if peers.len() > 0 {
        lemma_farewell_sends(peers.drop_last());
    }
}

/// After completion we are interested in nobody.
pub proof fn law_no_interest_after_completion(m: SessionModel, i: int)
    requires
        !m.completion_fired,
        0 <= i < m.peers.len(),
    ensures
        m.completed().0.completion_fired,
        !m.completed().0.peers[i].1.we_are_interested,
        m.completed().0.completed() == (m.completed().0, Seq::<Deed>::empty()),
{
}

proof fn lemma_piece_claims_has(
    piece: u32,
    claimed: Seq<Option<PeerSlot>>,
    size: u32,
    b: int,
)
    requires
        0 <= b < claimed.len(),
        claimed[b] is Some,
    ensures
        piece_claims(piece, claimed, size).contains(
            (claimed[b]->0, block_request(piece, b, size)),
        ),
    decreases claimed.len(),
{
    let e = (claimed[b]->0, block_request(piece, b, size));
    let list = piece_claims(piece, claimed, size);
    let front = piece_claims(piece, claimed.drop_last(), size);
    if b == claimed.len() - 1 {
        assert(list[list.len() - 1] == e);
    } else {
        lemma_piece_claims_has(piece, claimed.drop_last(), size, b);
        let i = choose|i: int| 0 <= i < front.len() && front[i] == e;
        assert(list[i] == e);
    }
}

pub proof fn lemma_all_claims_has(
    ip: Seq<(u32, PieceModel)>,
    params: ParamsModel,
    k: int,
    b: int,
)
    requires
        0 <= k < ip.len(),
        0 <= b < ip[k].1.claimed.len(),
        ip[k].1.claimed[b] is Some,
    ensures
        all_claims(ip, params).contains(
            (
                ip[k].1.claimed[b]->0,
                block_request(ip[k].0, b, params.size_of(ip[k].0 as int)),
            ),
        ),
    decreases ip.len(),
{
    let e = (
        ip[k].1.claimed[b]->0,
        block_request(ip[k].0, b, params.size_of(ip[k].0 as int)),
    );
    let list = all_claims(ip, params);
    let front = all_claims(ip.drop_last(), params);
    let (piece, q) = ip.last();
    let tail = piece_claims(piece, q.claimed, params.size_of(piece as int));
    if k == ip.len() - 1 {
        lemma_piece_claims_has(piece, q.claimed, params.size_of(piece as int), b);
        let i = choose|i: int| 0 <= i < tail.len() && tail[i] == e;
        assert(list[front.len() + i] == e);
    } else {
        lemma_all_claims_has(ip.drop_last(), params, k, b);
        let i = choose|i: int| 0 <= i < front.len() && front[i] == e;
        assert(list[i] == e);
    }
}

/// Blocks of `now` are asked for only where they were in `before`, of the same
/// peer, and where `list` takes nothing back.
spec fn thinned(
    before: SessionModel,
    now: SessionModel,
    list: Seq<(PeerSlot, BlockRequest)>,
) -> bool {
    &&& now.in_progress.len() == before.in_progress.len()
    &&& forall|k: int|
        0 <= k < before.in_progress.len() ==> {
            &&& (#[trigger] now.in_progress[k]).0 == before.in_progress[k].0
            &&& now.in_progress[k].1.claimed.len() == before.in_progress[k].1.claimed.len()
        }
    &&& forall|k: int, b: int|
        0 <= k < before.in_progress.len() && 0 <= b < before.in_progress[k].1.claimed.len()
            && #[trigger] now.in_progress[k].1.claimed[b] is Some ==> {
            &&& now.in_progress[k].1.claimed[b] == before.in_progress[k].1.claimed[b]
            &&& !list.contains(
                (
                    before.in_progress[k].1.claimed[b]->0,
                    block_request(
                        before.in_progress[k].0,
                        b,
                        before.params.size_of(before.in_progress[k].0 as int),
                    ),
                ),
            )
        }
}

proof fn lemma_cancel_thins(m: SessionModel, list: Seq<(PeerSlot, BlockRequest)>)
    requires
        m.wf(),
    ensures
        thinned(m, m.cancel_all(list).0, list),
        m.cancel_all(list).0.wf(),
    decreases list.len(),
{
    lemma_cancel_all_keeps(m, list);
    if list.len() > 0 {
        let front = list.drop_last();
        lemma_cancel_thins(m, front);
        let mid = m.cancel_all(front).0;
        let now = m.cancel_all(list).0;
        let (slot, req) = list.last();
        lemma_release_block_keeps(mid, slot, req);
        lemma_find(mid.in_progress, req.piece);
        assert forall|k: int, b: int|
            0 <= k < m.in_progress.len() && 0 <= b < m.in_progress[k].1.claimed.len()
                && #[trigger] now.in_progress[k].1.claimed[b] is Some implies {
            &&& now.in_progress[k].1.claimed[b] == m.in_progress[k].1.claimed[b]
            &&& !list.contains(
                (
                    m.in_progress[k].1.claimed[b]->0,
                    block_request(
                        m.in_progress[k].0,
                        b,
                        m.params.size_of(m.in_progress[k].0 as int),
                    ),
                ),
            )
        } by {
            assert(now.in_progress[k].0 == mid.in_progress[k].0);
            assert(mid.in_progress[k].1.claimed[b] is Some);
            assert(mid.in_progress[k].1.claimed[b] == m.in_progress[k].1.claimed[b]);
            let size = m.params.size_of(m.in_progress[k].0 as int);
            let e = (
                m.in_progress[k].1.claimed[b]->0,
                block_request(m.in_progress[k].0, b, size),
            );
            assert(!front.contains(e));
            if list.contains(e) {
                let i = choose|i: int| 0 <= i < list.len() && list[i] == e;
                if i < list.len() - 1 {
                    assert(front[i] == e);
                    assert(front.contains(e));
                }
                assert(e == (slot, req));
                assert(m.in_progress[k].1.wf(size));
                assert(b * BLOCK_SIZE < size) by {
                    assert(b <= m.in_progress[k].1.received.len() - 1);
                }
                assert((req.offset / BLOCK_SIZE) as int == b);
                assert(mid.in_progress[k].0 == req.piece);
                lemma_find_unique(mid.in_progress, k);
                assert(find_key(mid.in_progress, req.piece) == Some(k));
                assert(mid.in_progress[k].1.claimed[b] == Some(slot));
                assert(now.in_progress[k].1.claimed[b] is None);
            }
        }
        assert(thinned(m, now, list));
    }
}

/// Pausing takes every request back: afterwards no block is asked of anybody,
/// and every peer that was asked for one is told so.
pub proof fn law_pause_frees_every_block(m: SessionModel, k: int, b: int)
    requires
        m.wf(),
        !m.paused,
        0 <= k < m.in_progress.len(),
        0 <= b < m.in_progress[k].1.claimed.len(),
    ensures
        m.pausing(true).0.in_progress.len() == m.in_progress.len(),
        m.pausing(true).0.in_progress[k].1.claimed.len() == m.in_progress[k].1.claimed.len(),
        m.pausing(true).0.in_progress[k].1.claimed[b] is None,
{
    let choked = SessionModel {
        paused: true,
        peers: Seq::new(
            m.peers.len(),
            |i: int| (m.peers[i].0, PeerModel { we_choking: true, ..m.peers[i].1 }),
        ),
        ..m
    };
    lemma_set_peers_keeps(m, choked.peers);
    assert(choked.wf());
    let list = all_claims(m.in_progress, m.params);
    lemma_cancel_thins(choked, list);
    let end = choked.cancel_all(list).0;
    if end.in_progress[k].1.claimed[b] is Some {
        lemma_all_claims_has(m.in_progress, m.params, k, b);
    }
    assert(end.in_progress[k].0 == m.in_progress[k].0);
}

/// When a peer leaves, what it was asked for can be asked of others: none of its
/// claims is left.
pub proof fn law_leaving_peer_frees_blocks(m: SessionModel, slot: PeerSlot, k: int, b: int)
    requires
        m.wf(),
        0 <= k < m.on_disconnected(slot).0.in_progress.len(),
        0 <= b < m.on_disconnected(slot).0.in_progress[k].1.claimed.len(),
    ensures
        m.on_disconnected(slot).0.in_progress[k].1.claimed[b] != Some(slot),
{
    law_disconnect_keeps(m, slot);
    let n = m.on_disconnected(slot).0;
    if n.in_progress[k].1.claimed[b] == Some(slot) {
        assert(n.in_progress[k].1.claimed[b] is Some);
    }
}

} // verus!
