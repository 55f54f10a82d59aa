//! The per-torrent session.
//!
//! A session owns the picker, the pieces being downloaded and what is known of
//! each peer. Every event changes it by a rule and leaves a list of actions to
//! be carried out in order.
use crate::alerts::category::{Alert, AlertErrorCode};
use crate::blob::{blob, blob_bytes, blob_copy, blob_from_vec};
use crate::ids::{PeerSlot, TorrentId};
use crate::keyed::{find_key, lemma_find, lemma_find_at, lemma_find_same_keys};
use crate::net::PeerAddr;
use crate::picker::{all_pieces, no_pieces, Picker, PickerModel};
use crate::session::bitfield::{
    bit_at, decode_bitfield_strict, law_pack_injective, law_packed_form_is_unique,
    law_unpack_undoes_pack, pack_bitfield, packs, single_bit, spare_clear,
};
use crate::session::disk::DiskError;
use crate::session::info::Info;
use crate::session::keeps::{
    law_block_keeps, law_completion_keeps, law_disconnect_keeps, law_pausing_keeps,
    law_register_keeps, lemma_assign_keeps, lemma_interest_keeps, lemma_one_more_piece,
    lemma_peer_has_keeps, lemma_released_keeps, lemma_set_peer_keeps, lemma_ask_metadata_keeps,
    lemma_count_bound, lemma_first_eligible, lemma_first_free, lemma_with_metadata_keeps,
    lemma_one_less_keeps, lemma_release_block_keeps, lemma_set_peers_keeps, lemma_with_piece_keeps,
    lemma_without_piece_keeps,
};
use crate::session::messages::{
    act, deeds, tell, Action, Deed, ExtensionInput, ExtensionNote, ExtensionPayload,
    MetadataMessage, MetadataNote, PeerNote, PeerToSession, SessionCommand, SessionToPeer,
};
use crate::session::metadata_exchange::{
    metadata_fault, params_from, AssemblerModel, MetadataAssembler, METADATA_PIECE_SIZE,
};
use crate::session::model::{
    addrs_known, all_claims, block_size, chokes, count_having, new_peer, new_piece, next_needed,
    not_interested, open_block, packed_of, piece_claims, unchokes, METADATA_ATTEMPTS,
    METADATA_REQUESTS, PeerModel, PieceModel, SessionModel, Step, TorrentState,
};
use crate::session::params::{lemma_workable, BlockRequest, TorrentParams, BLOCK_SIZE};
use crate::session::pex::{addrs_of, PexMessage, PexModel, PexPeer, PexState, PEX_INTERVAL};
use vstd::prelude::*;
use vstd::slice::slice_subrange;

verus! {

/// Requests that may be under way on a peer where nothing else is said.
pub const DEFAULT_PER_PEER_IN_FLIGHT: u32 = 4;

/// Room for commands to a session.
pub const SESSION_COMMAND_CAPACITY: usize = 16;

/// The number of blocks that are here.
pub open spec fn count_received(received: Seq<bool>) -> nat
    decreases received.len(),
{
    if received.len() == 0 {
        0
    } else {
        count_received(received.drop_last()) + if received.last() {
            1nat
        } else {
            0nat
        }
    }
}

proof fn lemma_count_received(received: Seq<bool>)
    ensures
        count_received(received) <= received.len(),
        count_received(received) == received.len() <==> (forall|i: int|
            0 <= i < received.len() ==> #[trigger] received[i]),
    decreases received.len(),
{
    if received.len() > 0 {
        let front = received.drop_last();
        lemma_count_received(front);
        if count_received(received) == received.len() {
            assert forall|i: int| 0 <= i < received.len() implies #[trigger] received[i] by {
                if i < received.len() - 1 {
                    assert(front[i]);
                }
            }
        }
        if forall|i: int| 0 <= i < received.len() ==> #[trigger] received[i] {
            assert forall|i: int| 0 <= i < front.len() implies #[trigger] front[i] by {
                assert(received[i]);
            }
            assert(received[received.len() - 1]);
        }
    }
}

proof fn lemma_count_received_set(received: Seq<bool>, i: int)
    requires
        0 <= i < received.len(),
        !received[i],
    ensures
        count_received(received.update(i, true)) == count_received(received) + 1,
    decreases received.len(),
{
    let after = received.update(i, true);
    if i == received.len() - 1 {
        assert(after.drop_last() =~= received.drop_last());
    } else {
        assert(after.drop_last() =~= received.drop_last().update(i, true));
        lemma_count_received_set(received.drop_last(), i);
    }
}

/// A piece being downloaded.
#[derive(Debug)]
struct InProgressPiece {
    buffer: Vec<u8>,
    received: Vec<bool>,
    claimed: Vec<Option<PeerSlot>>,
    received_count: usize,
}

impl View for InProgressPiece {
    type V = PieceModel;

    closed spec fn view(&self) -> PieceModel {
        PieceModel {
            buffer: self.buffer@,
            received: self.received@,
            claimed: self.claimed@,
        }
    }
}

impl InProgressPiece {
    spec fn counted(&self) -> bool {
        self.received_count == count_received(self.received@)
    }

    /// A piece of `piece_size` bytes of which nothing is here.
    fn new(piece_size: u32) -> (r: InProgressPiece)
        ensures
            r@ == new_piece(piece_size),
            r.counted(),
    {
        let count: u32 = if piece_size % BLOCK_SIZE == 0 {
            piece_size / BLOCK_SIZE
        } else {
            piece_size / BLOCK_SIZE + 1
        };
        let mut claimed: Vec<Option<PeerSlot>> = Vec::new();
        let mut i: u32 = 0;
        while i < count
            invariant
                i <= count,
                claimed@.len() == i,
                forall|j: int| 0 <= j < i ==> claimed@[j] is None,
            decreases count - i,
        {
            claimed.push(None);
            i = i + 1;
        }
        let r = InProgressPiece {
            buffer: vec![0u8; piece_size as usize],
            received: no_pieces(count as usize),
            claimed,
            received_count: 0,
        };
        proof {
            lemma_none_received(count as nat);
        }
        assert(r@ =~= new_piece(piece_size));
        r
    }

    /// The size of block `idx` in a piece of `piece_size` bytes.
    fn block_size_at(idx: u32, piece_size: u32) -> (r: u32)
        requires
            idx * BLOCK_SIZE < piece_size,
        ensures
            r == block_size(idx as int, piece_size),
    {
        let start: u32 = idx * BLOCK_SIZE;
        let rest: u32 = piece_size - start;
        if rest <= BLOCK_SIZE {
            rest
        } else {
            BLOCK_SIZE
        }
    }
}

proof fn lemma_none_received(n: nat)
    ensures
        count_received(Seq::new(n, |i: int| false)) == 0,
    decreases n,
{
    if n > 0 {
        assert(Seq::new(n, |i: int| false).drop_last() =~= Seq::new(
            (n - 1) as nat,
            |i: int| false,
        ));
        lemma_none_received((n - 1) as nat);
    }
}

/// What is known of a peer.
#[derive(Debug)]
struct PeerState {
    have: Vec<bool>,
    choking_us: bool,
    we_are_interested: bool,
    in_flight: u32,
    max_in_flight: u32,
    peer_interested: bool,
    we_choking: bool,
    supports_fast: bool,
    addr: Option<PeerAddr>,
    announced_have_all: bool,
}

impl View for PeerState {
    type V = PeerModel;

    closed spec fn view(&self) -> PeerModel {
        PeerModel {
            have: self.have@,
            choking_us: self.choking_us,
            we_are_interested: self.we_are_interested,
            in_flight: self.in_flight,
            max_in_flight: self.max_in_flight,
            peer_interested: self.peer_interested,
            we_choking: self.we_choking,
            supports_fast: self.supports_fast,
            addr: self.addr,
            announced_have_all: self.announced_have_all,
        }
    }
}

impl PeerState {
    fn new(piece_count: u32, max_in_flight: u32) -> (r: PeerState)
        ensures
            r@ == new_peer(piece_count, max_in_flight),
    {
        let r = PeerState {
            have: no_pieces(piece_count as usize),
            choking_us: true,
            we_are_interested: false,
            in_flight: 0,
            max_in_flight,
            peer_interested: false,
            we_choking: true,
            supports_fast: false,
            addr: None,
            announced_have_all: false,
        };
        assert(r@ =~= new_peer(piece_count, max_in_flight));
        r
    }

    fn can_request(&self) -> (r: bool)
        ensures
            r == self@.can_request(),
    {
        !self.choking_us && self.in_flight < self.max_in_flight
    }
}

/// The per-torrent session.
#[derive(Debug)]
pub struct TorrentSession {
    torrent_id: TorrentId,
    params: TorrentParams,
    info_hash: [u8; 20],
    picker: Picker,
    in_progress: Vec<(u32, InProgressPiece)>,
    peers: Vec<(PeerSlot, PeerState)>,
    state: TorrentState,
    completion_fired: bool,
    paused: bool,
    metadata_assembler: Option<MetadataAssembler>,
    info_dict_bytes: Option<Vec<u8>>,
    metadata_verify_failures: u32,
    pex: PexState,
    pex_discovered: Vec<PeerAddr>,
    pex_interval: u64,
    peer_cap: usize,
}

spec fn peers_view(s: Seq<(PeerSlot, PeerState)>) -> Seq<(PeerSlot, PeerModel)> {
    Seq::new(s.len(), |i: int| (s[i].0, s[i].1@))
}

spec fn pieces_view(s: Seq<(u32, InProgressPiece)>) -> Seq<(u32, PieceModel)> {
    Seq::new(s.len(), |i: int| (s[i].0, s[i].1@))
}

impl View for TorrentSession {
    type V = SessionModel;

    closed spec fn view(&self) -> SessionModel {
        SessionModel {
            id: self.torrent_id,
            params: self.params@,
            info_hash: self.info_hash@,
            picker: self.picker@,
            in_progress: pieces_view(self.in_progress@),
            peers: peers_view(self.peers@),
            state: self.state,
            completion_fired: self.completion_fired,
            paused: self.paused,
            metadata: match self.metadata_assembler {
                Some(a) => Some(a@),
                None => None,
            },
            info_dict: match self.info_dict_bytes {
                Some(b) => Some(b@),
                None => None,
            },
            failures: self.metadata_verify_failures,
            pex: self.pex@,
            discovered: self.pex_discovered@,
            pex_interval: self.pex_interval,
            peer_cap: self.peer_cap as nat,
        }
    }
}

impl TorrentSession {
    /// What every session keeps that can work with its parameters.
    pub open spec fn wf(&self) -> bool {
        &&& self@.params.workable()
        &&& self.sound()
    }

    /// What a session keeps whatever its parameters.
    pub closed spec fn sound(&self) -> bool {
        &&& self@.sound()
        &&& self.picker.wf()
        &&& forall|k: int| 0 <= k < self.in_progress@.len() ==> (#[trigger] self.in_progress@[k]).1.counted()
    }

    /// What a well-formed session's model keeps.
    pub proof fn lemma_wf(&self)
        requires
            self.wf(),
        ensures
            self@.wf(),
    {
    }

    fn find_peer(&self, slot: PeerSlot) -> (r: Option<usize>)
        ensures
            match (r, find_key(self@.peers, slot)) {
                (Some(i), Some(j)) => i == j && i < self.peers@.len() && self.peers@[i as int].0
                    == slot,
                (None, None) => true,
                _ => false,
            },
    {
        let mut i: usize = 0;
        while i < self.peers.len()
            invariant
                i <= self.peers@.len(),
                forall|j: int| 0 <= j < i ==> (#[trigger] self@.peers[j]).0 != slot,
            decreases self.peers@.len() - i,
        {
            if self.peers[i].0 == slot {
                proof {
                    lemma_find_at(self@.peers, slot, i as int);
                }
                return Some(i);
            }
            i = i + 1;
        }
        proof {
            lemma_find(self@.peers, slot);
        }
        None
    }

    fn find_piece(&self, piece: u32) -> (r: Option<usize>)
        ensures
            match (r, find_key(self@.in_progress, piece)) {
                (Some(i), Some(j)) => i == j && i < self.in_progress@.len()
                    && self.in_progress@[i as int].0 == piece,
                (None, None) => true,
                _ => false,
            },
    {
        let mut i: usize = 0;
        while i < self.in_progress.len()
            invariant
                i <= self.in_progress@.len(),
                forall|j: int| 0 <= j < i ==> (#[trigger] self@.in_progress[j]).0 != piece,
            decreases self.in_progress@.len() - i,
        {
            if self.in_progress[i].0 == piece {
                proof {
                    lemma_find_at(self@.in_progress, piece, i as int);
                }
                return Some(i);
            }
            i = i + 1;
        }
        proof {
            lemma_find(self@.in_progress, piece);
        }
        None
    }

    /// A session for a torrent with the given parameters.
    pub fn new(
        torrent_id: TorrentId,
        params: TorrentParams,
        info_hash: [u8; 20],
        peer_cap: usize,
    ) -> (r: TorrentSession)
        requires
            params.piece_count > 0,
        ensures
            r.sound(),
            r@ == SessionModel::fresh(
                torrent_id,
                params@,
                info_hash@,
                peer_cap as nat,
                PEX_INTERVAL,
            ),
    {
        let picker = Picker::new(params.piece_count);
        let pex = PexState::new(params.private);
        let r = TorrentSession {
            torrent_id,
            params,
            info_hash,
            picker,
            in_progress: Vec::new(),
            peers: Vec::new(),
            state: TorrentState::Downloading,
            completion_fired: false,
            paused: false,
            metadata_assembler: None,
            info_dict_bytes: None,
            metadata_verify_failures: 0,
            pex,
            pex_discovered: Vec::new(),
            pex_interval: PEX_INTERVAL,
            peer_cap,
        };
        assert(r@ =~= SessionModel::fresh(
            torrent_id,
            params@,
            info_hash@,
            peer_cap as nat,
            PEX_INTERVAL,
        ));
        r
    }

    /// Whether the session can work with its parameters.
    pub fn is_workable(&self) -> (r: bool)
        requires
            self.sound(),
        ensures
            r == self.wf(),
    {
        self.params.is_workable()
    }

    /// Makes this a session that fetches metadata first.
    pub fn set_metadata_assembler(&mut self, assembler: MetadataAssembler)
        requires
            old(self).sound(),
            assembler@.wf(),
        ensures
            final(self).sound(),
            final(self)@ == (SessionModel { metadata: Some(assembler@), ..old(self)@ }),
    {
        self.metadata_assembler = Some(assembler);
        assert(self@ =~= (SessionModel { metadata: Some(assembler@), ..old(self)@ }));
    }

    /// Keeps the info dictionary, so that it can be served.
    pub fn set_info_dict_bytes(&mut self, bytes: Vec<u8>)
        requires
            old(self).sound(),
        ensures
            final(self).sound(),
            final(self)@ == (SessionModel { info_dict: Some(bytes@), ..old(self)@ }),
    {
        self.info_dict_bytes = Some(bytes);
        assert(self@ =~= (SessionModel { info_dict: Some(bytes@), ..old(self)@ }));
    }

    /// Attaches a peer and tells it which pieces are here. `false` where the
    /// connection is known already.
    pub fn register_peer_with(
        &mut self,
        slot: PeerSlot,
        max_in_flight: u32,
        supports_fast: bool,
        out: &mut Vec<Action>,
    ) -> (r: bool)
        requires
            old(self).wf(),
            old(self)@.peers.len() < u32::MAX,
        ensures
            final(self).wf(),
            r == (find_key(old(self)@.peers, slot) is None),
            final(self)@ == old(self)@.register(slot, max_in_flight, supports_fast).0,
            deeds(final(out)@) == deeds(old(out)@) + old(self)@.register(
                slot,
                max_in_flight,
                supports_fast,
            ).1,
    {
        if self.find_peer(slot).is_some() {
            assert(deeds(out@) =~= deeds(out@) + Seq::<Deed>::empty());
            return false;
        }
        proof {
            law_register_keeps(self@, slot, max_in_flight, supports_fast);
        }
        let total: u32 = self.params.piece_count;
        let missing: u32 = self.picker.missing_count();
        let advert = if supports_fast && missing == 0 {
            SessionToPeer::SendHaveAll
        } else if supports_fast && missing == total {
            SessionToPeer::SendHaveNone
        } else {
            let have = self.picker.have_snapshot();
            let bytes = pack_bitfield(have.as_slice());
            proof {
                law_packed_form_is_unique(bytes@, packed_of(self@.picker.have), self@.picker.have);
            }
            SessionToPeer::SendBitfield(bytes)
        };
        tell(out, slot, advert);
        let peer = PeerState::new(total, max_in_flight);
        self.peers.push((slot, peer));
        assert(self@ =~= old(self)@.register(slot, max_in_flight, supports_fast).0);
        assert(deeds(out@) =~= deeds(old(out)@) + old(self)@.register(
            slot,
            max_in_flight,
            supports_fast,
        ).1);
        true
    }

    /// Attaches a peer with the usual limit, without the Fast extension.
    pub fn register_peer(&mut self, slot: PeerSlot, out: &mut Vec<Action>) -> (r: bool)
        requires
            old(self).wf(),
            old(self)@.peers.len() < u32::MAX,
        ensures
            final(self).wf(),
            r == (find_key(old(self)@.peers, slot) is None),
            final(self)@ == old(self)@.register(slot, DEFAULT_PER_PEER_IN_FLIGHT, false).0,
            deeds(final(out)@) == deeds(old(out)@) + old(self)@.register(
                slot,
                DEFAULT_PER_PEER_IN_FLIGHT,
                false,
            ).1,
    {
        self.register_peer_with(slot, DEFAULT_PER_PEER_IN_FLIGHT, false, out)
    }

    /// Hands out the addresses that peer exchange found, and forgets them.
    pub fn drain_pex_discovered(&mut self) -> (r: Vec<PeerAddr>)
        requires
            old(self).wf(),
        ensures
            final(self).wf(),
            r@ == old(self)@.discovered,
            final(self)@ == (SessionModel { discovered: Seq::empty(), ..old(self)@ }),
    {
        let mut taken: Vec<PeerAddr> = Vec::new();
        taken.append(&mut self.pex_discovered);
        assert(taken@ =~= old(self)@.discovered);
        assert(self@ =~= (SessionModel { discovered: Seq::empty(), ..old(self)@ }));
        taken
    }

    /// Changes the time between two rounds of peer exchange.
    pub fn set_pex_interval(&mut self, interval: u64)
        requires
            old(self).sound(),
        ensures
            final(self).sound(),
            final(self)@ == (SessionModel { pex_interval: interval, ..old(self)@ }),
    {
        self.pex_interval = interval;
        assert(self@ =~= (SessionModel { pex_interval: interval, ..old(self)@ }));
    }

    /// The time between two rounds of peer exchange.
    pub fn pex_interval(&self) -> (r: u64)
        ensures
            r == self@.pex_interval,
    {
        self.pex_interval
    }

    /// Whether the torrent is downloading or complete.
    pub fn state(&self) -> (r: TorrentState)
        ensures
            r == self@.state,
    {
        self.state
    }

    /// Which pieces are here.
    pub fn have_snapshot(&self) -> (r: Vec<bool>)
        ensures
            r@ == self@.picker.have,
    {
        self.picker.have_snapshot()
    }

    /// Marks pieces that are here from the start. A list of the wrong length
    /// counts for nothing. A torrent that is whole from the start is complete
    /// without announcing it.
    pub fn apply_initial_have(&mut self, have: &[bool])
        requires
            old(self).sound(),
        ensures
            final(self).sound(),
            final(self)@ == old(self)@.with_initial(have@),
    {
        if have.len() != self.params.piece_count as usize {
            return;
        }
        let ghost before = self@;
        let ghost goal = Seq::new(have@.len(), |j: int| before.picker.have[j] || have@[j]);
        let mut i: usize = 0;
        while i < have.len()
            invariant
                i <= have@.len(),
                before == old(self)@,
                before.sound(),
                have@.len() == before.params.piece_count,
                goal == Seq::new(have@.len(), |j: int| before.picker.have[j] || have@[j]),
                self.sound(),
                self.picker@.have.len() == have@.len(),
                forall|j: int| 0 <= j < i ==> self.picker@.have[j] == goal[j],
                forall|j: int|
                    i <= j < have@.len() ==> self.picker@.have[j] == before.picker.have[j],
                self@ == (SessionModel {
                    picker: PickerModel { have: self.picker@.have, ..before.picker },
                    ..before
                }),
            decreases have@.len() - i,
        {
            if have[i] {
                self.picker.mark_have(i as u32);
                assert(self@ =~= (SessionModel {
                    picker: PickerModel { have: self.picker@.have, ..before.picker },
                    ..before
                }));
            }
            i = i + 1;
        }
        assert(self.picker@.have =~= goal);
        if self.picker.missing_count() == 0 {
            self.state = TorrentState::Completed;
            self.completion_fired = true;
        }
        assert(self@ =~= old(self)@.with_initial(have@));
    }

    /// The disk is done with a piece.
    pub fn handle_completion(
        &mut self,
        piece: u32,
        result: Result<(), DiskError>,
        out: &mut Vec<Action>,
    )
        requires
            old(self).wf(),
            result is Ok ==> piece < old(self)@.params.piece_count,
        ensures
            final(self).wf(),
            final(self)@ == old(self)@.on_completion(piece, result).0,
            deeds(final(out)@) == deeds(old(out)@) + old(self)@.on_completion(piece, result).1,
    {
        proof {
            law_completion_keeps(self@, piece, result);
        }
        let ghost before = self@;
        let ghost told = deeds(out@);
        self.drop_piece(piece);
        match result {
            Ok(_) => {
                self.picker.mark_have(piece);
                act(
                    out,
                    Action::Raise(Alert::PieceCompleted { torrent: self.torrent_id, piece }),
                );
                let ghost next = before.without_piece(piece);
                let ghost news = seq![
                    Deed::Raise(Alert::PieceCompleted { torrent: before.id, piece }),
                ];
                let ghost marked = SessionModel {
                    picker: next.picker.marked(piece as int),
                    ..next
                };
                assert(self@ =~= marked);
                let mut i: usize = 0;
                assert(deeds(out@) =~= told + (news + next.to_all(PeerNote::Have(piece)).take(0)));
                while i < self.peers.len()
                    invariant
                        i <= self.peers@.len(),
                        self@ == marked,
                        marked.peers == next.peers,
                        deeds(out@) == told + (news + next.to_all(PeerNote::Have(piece)).take(
                            i as int,
                        )),
                    decreases self.peers@.len() - i,
                {
                    let ghost all = next.to_all(PeerNote::Have(piece));
                    tell(out, self.peers[i].0, SessionToPeer::Have(piece));
                    assert(all.take(i + 1) =~= all.take(i as int).push(all[i as int]));
                    assert(deeds(out@) =~= told + (news + all.take(i + 1)));
                    i = i + 1;
                }
                let ghost all = next.to_all(PeerNote::Have(piece));
                assert(all.take(i as int) =~= all);
                if self.picker.missing_count() == 0 {
                    self.state = TorrentState::Completed;
                    let ghost mid = SessionModel { state: TorrentState::Completed, ..marked };
                    assert(self@ =~= mid);
                    self.maybe_fire_completion_transition(out);
                    assert(deeds(out@) =~= told + before.on_completion(piece, result).1);
                }
            },
            Err(DiskError::HashMismatch) => {
                act(
                    out,
                    Action::Raise(
                        Alert::Error {
                            torrent: self.torrent_id,
                            code: AlertErrorCode::HashMismatch,
                        },
                    ),
                );
                assert(deeds(out@) =~= told + before.on_completion(piece, result).1);
            },
            Err(DiskError::Io) => {
                act(
                    out,
                    Action::Raise(
                        Alert::Error { torrent: self.torrent_id, code: AlertErrorCode::StorageIo },
                    ),
                );
                assert(deeds(out@) =~= told + before.on_completion(piece, result).1);
            },
        }
    }

    /// Gives up the entry of a piece, if there is one.
    fn drop_piece(&mut self, piece: u32)
        requires
            old(self).wf(),
        ensures
            final(self).wf(),
            final(self)@ == old(self)@.without_piece(piece),
    {
        proof {
            lemma_without_piece_keeps(self@, piece);
        }
        if let Some(k) = self.find_piece(piece) {
            let ghost before = self.in_progress@;
            let _gone = self.in_progress.remove(k);
            assert(self@ =~= old(self)@.without_piece(piece));
            assert forall|j: int| 0 <= j < self.in_progress@.len() implies (
            #[trigger] self.in_progress@[j]).1.counted() by {
                let o: int = if j < k {
                    j
                } else {
                    j + 1
                };
                assert(before[o].1.counted());
            }
        }
    }

    /// The disk could not be reached with a piece.
    pub fn handle_disk_gone(&mut self, piece: u32, out: &mut Vec<Action>)
        requires
            old(self).wf(),
        ensures
            final(self).wf(),
            final(self)@ == old(self)@.on_disk_gone(piece).0,
            deeds(final(out)@) == deeds(old(out)@) + old(self)@.on_disk_gone(piece).1,
    {
        self.drop_piece(piece);
        act(
            out,
            Action::Raise(
                Alert::Error { torrent: self.torrent_id, code: AlertErrorCode::StorageIo },
            ),
        );
        assert(deeds(out@) =~= deeds(old(out)@) + old(self)@.on_disk_gone(piece).1);
    }

    /// Announces completion, once.
    fn maybe_fire_completion_transition(&mut self, out: &mut Vec<Action>)
        requires
            old(self).picker.wf(),
            forall|k: int|
                0 <= k < old(self).in_progress@.len() ==> (
                #[trigger] old(self).in_progress@[k]).1.counted(),
            old(self)@.completed().0.wf(),
        ensures
            final(self).wf(),
            final(self)@ == old(self)@.completed().0,
            deeds(final(out)@) == deeds(old(out)@) + old(self)@.completed().1,
    {
        if self.completion_fired {
            assert(deeds(out@) =~= deeds(out@) + Seq::<Deed>::empty());
            return;
        }
        let ghost before = self@;
        let ghost told = deeds(out@);
        self.completion_fired = true;
        act(out, Action::Raise(Alert::TorrentComplete { torrent: self.torrent_id }));
        let ghost head = seq![Deed::Raise(Alert::TorrentComplete { torrent: before.id })];
        let ghost goal = before.completed().0.peers;
        let mut i: usize = 0;
        assert(before.peers.take(0) =~= Seq::<(PeerSlot, PeerModel)>::empty());
        assert(deeds(out@) =~= told + (head + not_interested(before.peers.take(0))));
        while i < self.peers.len()
            invariant
                i <= self.peers@.len(),
                before == old(self)@,
                self.peers@.len() == before.peers.len(),
                goal == before.completed().0.peers,
                !before.completion_fired,
                forall|j: int| 0 <= j < i ==> (#[trigger] self@.peers[j]) == goal[j],
                forall|j: int|
                    i <= j < self.peers@.len() ==> (#[trigger] self@.peers[j]) == before.peers[j],
                self@ == (SessionModel {
                    completion_fired: true,
                    peers: self@.peers,
                    ..before
                }),
                self.picker == old(self).picker,
                self.in_progress == old(self).in_progress,
                deeds(out@) == told + (head + not_interested(before.peers.take(i as int))),
            decreases self.peers@.len() - i,
        {
            let ghost prior = self@;
            assert(before.peers.take(i + 1).drop_last() =~= before.peers.take(i as int));
            assert(self@.peers[i as int] == before.peers[i as int]);
            if self.peers[i].1.we_are_interested {
                self.peers[i].1.we_are_interested = false;
                tell(out, self.peers[i].0, SessionToPeer::SetInterested(false));
                assert(deeds(out@) =~= told + (head + not_interested(before.peers.take(i + 1))));
            }
            assert(self@.peers[i as int] =~= goal[i as int]);
            assert(forall|j: int|
                0 <= j < self.peers@.len() && j != i ==> (#[trigger] self@.peers[j])
                    == prior.peers[j]);
            assert(self@ =~= (SessionModel {
                completion_fired: true,
                peers: self@.peers,
                ..before
            }));
            i = i + 1;
        }
        assert(before.peers.take(i as int) =~= before.peers);
        assert(self@.peers =~= goal);
        assert(self@ =~= before.completed().0);
        assert(deeds(out@) =~= told + before.completed().1);
    }

    /// Ends the connection to a peer and raises an alert that says why.
    fn kick_peer(&self, slot: PeerSlot, code: AlertErrorCode, out: &mut Vec<Action>)
        ensures
            deeds(final(out)@) == deeds(old(out)@) + self@.kick(slot, code),
    {
        if self.find_peer(slot).is_some() {
            tell(out, slot, SessionToPeer::Shutdown);
        }
        act(out, Action::Raise(Alert::Error { torrent: self.torrent_id, code }));
        assert(deeds(out@) =~= deeds(old(out)@) + self@.kick(slot, code));
    }

    /// Whether a peer has a piece that is missing here.
    fn wants_from(&self, i: usize) -> (r: bool)
        requires
            self.wf(),
            i < self.peers@.len(),
        ensures
            r == self@.wants(self@.peers[i as int].1.have),
    {
        let have = &self.peers[i].1.have;
        let ghost mine = self@.picker.have;
        assert(have@ == self@.peers[i as int].1.have);
        let mut j: usize = 0;
        while j < have.len()
            invariant
                j <= have@.len(),
                have@ == self@.peers[i as int].1.have,
                have@.len() == mine.len(),
                mine == self@.picker.have,
                mine.len() <= u32::MAX,
                forall|x: int| 0 <= x < j ==> !(#[trigger] have@[x] && !mine[x]),
            decreases have@.len() - j,
        {
            if have[j] && !self.picker.has_piece(j as u32) {
                assert(have@[j as int] && !mine[j as int]);
                return true;
            }
            j = j + 1;
        }
        false
    }

    /// Sets our interest in a peer by whether it has anything missing here.
    fn maybe_express_interest(&mut self, slot: PeerSlot, out: &mut Vec<Action>)
        requires
            old(self).wf(),
        ensures
            final(self).wf(),
            final(self)@ == old(self)@.interest(slot).0,
            deeds(final(out)@) == deeds(old(out)@) + old(self)@.interest(slot).1,
    {
        proof {
            lemma_interest_keeps(self@, slot);
            assert(deeds(out@) =~= deeds(out@) + Seq::<Deed>::empty());
        }
        if let Some(i) = self.find_peer(slot) {
            let want = self.wants_from(i);
            if want != self.peers[i].1.we_are_interested {
                self.peers[i].1.we_are_interested = want;
                tell(out, slot, SessionToPeer::SetInterested(want));
                assert(self@ =~= old(self)@.interest(slot).0);
                assert(deeds(out@) =~= deeds(old(out)@) + old(self)@.interest(slot).1);
            }
        }
    }

    /// Sets which pieces a peer has.
    fn set_peer_have(&mut self, slot: PeerSlot, have: Vec<bool>, all: bool)
        requires
            old(self).wf(),
            have@.len() == old(self)@.params.piece_count,
        ensures
            final(self).wf(),
            final(self)@ == old(self)@.peer_has(slot, have@, all),
    {
        proof {
            lemma_peer_has_keeps(self@, slot, have@, all);
            lemma_find(self@.peers, slot);
        }
        if let Some(i) = self.find_peer(slot) {
            assert(self@.peers[i as int].1.have.len() == self@.params.piece_count);
            self.picker.forget_peer_bitfield(self.peers[i].1.have.as_slice());
            self.picker.observe_peer_bitfield(have.as_slice());
            self.peers[i].1.have = have;
            if all {
                self.peers[i].1.announced_have_all = true;
            }
            assert(self@ =~= old(self)@.peer_has(slot, have@, all));
        }
    }

    /// Notes that a peer has one more piece.
    fn peer_gains(&mut self, slot: PeerSlot, piece: u32)
        requires
            old(self).wf(),
            piece < old(self)@.params.piece_count,
        ensures
            final(self).wf(),
            final(self)@ == old(self)@.peer_gains(slot, piece),
    {
        proof {
            lemma_one_more_piece(self@, slot, piece);
            lemma_find(self@.peers, slot);
        }
        if let Some(i) = self.find_peer(slot) {
            assert(self@.peers[i as int].1.have.len() == self@.params.piece_count);
            if !self.peers[i].1.have[piece as usize] {
                let bits = single_bit(piece, self.peers[i].1.have.len());
                self.peers[i].1.have.set(piece as usize, true);
                self.picker.observe_peer_bitfield(bits.as_slice());
                assert(self@ =~= old(self)@.peer_gains(slot, piece));
            }
        }
    }

    /// A peer has one more piece.
    fn handle_have(&mut self, slot: PeerSlot, piece: u32, out: &mut Vec<Action>)
        requires
            old(self).wf(),
        ensures
            final(self).wf(),
            final(self)@ == old(self)@.on_have(slot, piece).0,
            deeds(final(out)@) == deeds(old(out)@) + old(self)@.on_have(slot, piece).1,
    {
        if piece >= self.params.piece_count {
            self.kick_peer(slot, AlertErrorCode::PeerProtocol, out);
            return;
        }
        self.peer_gains(slot, piece);
        self.maybe_express_interest(slot, out);
    }

    /// A peer came through its handshake.
    fn handle_connected(
        &mut self,
        slot: PeerSlot,
        supports_fast: bool,
        addr: Option<PeerAddr>,
        out: &mut Vec<Action>,
    )
        requires
            old(self).wf(),
        ensures
            final(self).wf(),
            final(self)@ == old(self)@.on_connected(slot, supports_fast, addr).0,
            deeds(final(out)@) == deeds(old(out)@) + old(self)@.on_connected(
                slot,
                supports_fast,
                addr,
            ).1,
    {
        if let Some(i) = self.find_peer(slot) {
            self.peers[i].1.supports_fast = supports_fast;
            self.peers[i].1.addr = addr;
            proof {
                assert(self@ =~= old(self)@.on_connected(slot, supports_fast, addr).0);
                lemma_find(old(self)@.peers, slot);
                lemma_set_peer_keeps(old(self)@, i as int, self@.peers[i as int].1);
            }
        }
        act(out, Action::Raise(Alert::PeerConnected { torrent: self.torrent_id, peer: slot }));
        assert(deeds(out@) =~= deeds(old(out)@) + old(self)@.on_connected(
            slot,
            supports_fast,
            addr,
        ).1);
    }

    /// A peer went.
    fn handle_disconnected(&mut self, slot: PeerSlot, out: &mut Vec<Action>)
        requires
            old(self).wf(),
        ensures
            final(self).wf(),
            final(self)@ == old(self)@.on_disconnected(slot).0,
            deeds(final(out)@) == deeds(old(out)@) + old(self)@.on_disconnected(slot).1,
    {
        proof {
            law_disconnect_keeps(self@, slot);
            lemma_find(self@.peers, slot);
        }
        if let Some(i) = self.find_peer(slot) {
            self.release_claims(slot);
            assert(self@.peers == old(self)@.peers);
            assert(self@.peers[i as int].1.have.len() == self@.params.piece_count);
            let (_gone, peer) = self.peers.remove(i);
            self.picker.forget_peer_bitfield(peer.have.as_slice());
            assert(self@.peers =~= old(self)@.peers.remove(i as int));
        }
        self.pex.peer_disconnected(slot);
        assert(self@ =~= old(self)@.on_disconnected(slot).0);
        act(out, Action::Raise(Alert::PeerDisconnected { torrent: self.torrent_id, peer: slot }));
        assert(deeds(out@) =~= deeds(old(out)@) + old(self)@.on_disconnected(slot).1);
    }

    /// Gives up every claim of a peer.
    fn release_claims(&mut self, slot: PeerSlot)
        requires
            old(self).wf(),
        ensures
            final(self).wf(),
            final(self)@ == old(self)@.released(slot),
    {
        proof {
            lemma_released_keeps(self@, slot);
        }
        let ghost before = self@;
        let ghost goal = before.released(slot).in_progress;
        let mut k: usize = 0;
        while k < self.in_progress.len()
            invariant
                k <= self.in_progress@.len(),
                before == old(self)@,
                before.wf(),
                goal == before.released(slot).in_progress,
                self.picker == old(self).picker,
                self.in_progress@.len() == before.in_progress.len(),
                forall|j: int| 0 <= j < k ==> (#[trigger] self@.in_progress[j]) == goal[j],
                forall|j: int|
                    k <= j < self.in_progress@.len() ==> (#[trigger] self@.in_progress[j])
                        == before.in_progress[j],
                forall|j: int|
                    0 <= j < self.in_progress@.len() ==> (
                    #[trigger] self.in_progress@[j]).1.counted(),
                self@ == (SessionModel { in_progress: self@.in_progress, ..before }),
            decreases self.in_progress@.len() - k,
        {
            let ghost prior = self.in_progress@;
            let ghost seen = self@.in_progress;
            assert(self@.in_progress[k as int] == before.in_progress[k as int]);
            assert(before.in_progress[k as int].1.wf(
                before.params.size_of(before.in_progress[k as int].0 as int),
            ));
            let n: usize = self.in_progress[k].1.claimed.len();
            let mut b: usize = 0;
            while b < n
                invariant
                    b <= n,
                    k < self.in_progress@.len(),
                    self.in_progress@.len() == prior.len(),
                    before == old(self)@,
                    self.picker == old(self).picker,
                    n == prior[k as int].1.claimed@.len(),
                    self.in_progress@[k as int].0 == prior[k as int].0,
                    self.in_progress@[k as int].1.buffer == prior[k as int].1.buffer,
                    self.in_progress@[k as int].1.received == prior[k as int].1.received,
                    self.in_progress@[k as int].1.received_count
                        == prior[k as int].1.received_count,
                    self.in_progress@[k as int].1.claimed@.len() == n,
                    forall|j: int|
                        0 <= j < self.in_progress@.len() && j != k ==> (
                        #[trigger] self.in_progress@[j]) == prior[j],
                    forall|c: int|
                        0 <= c < b ==> (#[trigger] self.in_progress@[k as int].1.claimed@[c])
                            == prior[k as int].1@.unclaimed(slot).claimed[c],
                    forall|c: int|
                        b <= c < n ==> (#[trigger] self.in_progress@[k as int].1.claimed@[c])
                            == prior[k as int].1.claimed@[c],
                    self@ == (SessionModel { in_progress: self@.in_progress, ..before }),
                decreases n - b,
            {
                if self.in_progress[k].1.claimed[b] == Some(slot) {
                    self.in_progress[k].1.claimed[b] = None;
                }
                assert(self@ =~= (SessionModel { in_progress: self@.in_progress, ..before }));
                b = b + 1;
            }
            assert(self.in_progress@[k as int].1.claimed@ =~= prior[k as int].1@.unclaimed(
                slot,
            ).claimed);
            assert(self@.in_progress[k as int] =~= goal[k as int]);
            assert forall|j: int|
                0 <= j < self.in_progress@.len() && j != k implies (#[trigger] self@.in_progress[j])
                == seen[j] by {
                assert(self.in_progress@[j] == prior[j]);
            }
            assert forall|j: int| 0 <= j < k + 1 implies (#[trigger] self@.in_progress[j])
                == goal[j] by {
                if j < k {
                    assert(seen[j] == goal[j]);
                }
            }
            assert forall|j: int| k + 1 <= j < self.in_progress@.len() implies (
            #[trigger] self@.in_progress[j]) == before.in_progress[j] by {
                assert(seen[j] == before.in_progress[j]);
            }
            assert forall|j: int| 0 <= j < self.in_progress@.len() implies (
            #[trigger] self.in_progress@[j]).1.counted() by {
                assert(prior[j].1.counted());
            }
            k = k + 1;
        }
        assert(self@.in_progress =~= goal);
        assert(self@ =~= before.released(slot));
    }
}


impl TorrentSession {
    /// A peer chokes us.
    fn handle_choked(&mut self, slot: PeerSlot)
        requires
            old(self).wf(),
        ensures
            final(self).wf(),
            final(self)@ == old(self)@.on_choked(slot),
    {
        if let Some(i) = self.find_peer(slot) {
            self.peers[i].1.choking_us = true;
            self.peers[i].1.in_flight = 0;
            proof {
                lemma_find(old(self)@.peers, slot);
                let p = PeerModel {
                    choking_us: true,
                    in_flight: 0,
                    ..old(self)@.peers[i as int].1
                };
                assert(self@ =~= old(self)@.set_peer(i as int, p));
                lemma_set_peer_keeps(old(self)@, i as int, p);
            }
        }
        self.release_claims(slot);
    }

    /// A peer no longer chokes us.
    fn handle_unchoked(&mut self, slot: PeerSlot)
        requires
            old(self).wf(),
        ensures
            final(self).wf(),
            final(self)@ == old(self)@.on_unchoked(slot),
    {
        if let Some(i) = self.find_peer(slot) {
            self.peers[i].1.choking_us = false;
            assert(self@ =~= old(self)@.on_unchoked(slot));
            proof {
                lemma_find(old(self)@.peers, slot);
                lemma_set_peer_keeps(old(self)@, i as int, self@.peers[i as int].1);
            }
        }
    }

    /// A peer told all its pieces.
    fn handle_bitfield(&mut self, slot: PeerSlot, bytes: &[u8], out: &mut Vec<Action>)
        requires
            old(self).wf(),
        ensures
            final(self).wf(),
            final(self)@ == old(self)@.on_bitfield(
                slot,
                unpacked(bytes@, old(self)@.params.piece_count),
            ).0,
            deeds(final(out)@) == deeds(old(out)@) + old(self)@.on_bitfield(
                slot,
                unpacked(bytes@, old(self)@.params.piece_count),
            ).1,
    {
        proof {
            lemma_unpacked(bytes@, self@.params.piece_count);
        }
        match decode_bitfield_strict(bytes, self.params.piece_count) {
            Ok(bits) => {
                proof {
                    law_pack_injective(
                        bytes@,
                        bits@,
                        unpacked(bytes@, self@.params.piece_count)->0,
                    );
                }
                self.set_peer_have(slot, bits, false);
                self.maybe_express_interest(slot, out);
            },
            Err(_) => {
                self.kick_peer(slot, AlertErrorCode::PeerProtocol, out);
            },
        }
    }

    /// A peer's interest in us changed.
    fn handle_peer_interest(&mut self, slot: PeerSlot, interested: bool, out: &mut Vec<Action>)
        requires
            old(self).wf(),
        ensures
            final(self).wf(),
            final(self)@ == old(self)@.on_interest(slot, interested).0,
            deeds(final(out)@) == deeds(old(out)@) + old(self)@.on_interest(slot, interested).1,
    {
        proof {
            assert(deeds(out@) =~= deeds(out@) + Seq::<Deed>::empty());
            lemma_find(self@.peers, slot);
        }
        if let Some(i) = self.find_peer(slot) {
            self.peers[i].1.peer_interested = interested;
            if interested && self.peers[i].1.we_choking && !self.paused {
                self.peers[i].1.we_choking = false;
                tell(out, slot, SessionToPeer::Unchoke);
                assert(deeds(out@) =~= deeds(old(out)@) + old(self)@.on_interest(
                    slot,
                    interested,
                ).1);
            }
            proof {
                assert(self@ =~= old(self)@.on_interest(slot, interested).0);
                lemma_set_peer_keeps(old(self)@, i as int, self@.peers[i as int].1);
            }
        }
    }

    /// A peer asks for a block.
    fn handle_block_request(&self, slot: PeerSlot, req: BlockRequest, out: &mut Vec<Action>)
        requires
            self.wf(),
        ensures
            deeds(final(out)@) == deeds(old(out)@) + self@.on_block_requested(slot, req),
    {
        proof {
            assert(deeds(out@) =~= deeds(out@) + Seq::<Deed>::empty());
        }
        if req.piece >= self.params.piece_count || req.length > BLOCK_SIZE {
            self.kick_peer(slot, AlertErrorCode::PeerProtocol, out);
            return;
        }
        if let Some(i) = self.find_peer(slot) {
            let peer = &self.peers[i].1;
            if peer.we_choking || !self.picker.has_piece(req.piece) {
                if peer.supports_fast {
                    tell(out, slot, SessionToPeer::RejectRequest(req));
                    assert(deeds(out@) =~= deeds(old(out)@) + self@.on_block_requested(slot, req));
                }
                return;
            }
            proof {
                lemma_workable(self@.params, req.piece as int);
            }
            let piece_size: u32 = self.params.piece_size(req.piece);
            if req.offset > piece_size || req.length > piece_size - req.offset {
                self.kick_peer(slot, AlertErrorCode::PeerProtocol, out);
                return;
            }
            act(
                out,
                Action::ServeBlock {
                    slot,
                    supports_fast: peer.supports_fast,
                    piece_offset: self.params.piece_offset(req.piece),
                    piece_size,
                    req,
                },
            );
            assert(deeds(out@) =~= deeds(old(out)@) + self@.on_block_requested(slot, req));
        }
    }

    /// One request less is under way on a peer.
    fn lower_in_flight(&mut self, slot: PeerSlot)
        requires
            old(self).wf(),
        ensures
            final(self).wf(),
            final(self)@ == old(self)@.one_less_in_flight(slot),
            final(self).in_progress == old(self).in_progress,
    {
        proof {
            lemma_one_less_keeps(self@, slot);
        }
        if let Some(i) = self.find_peer(slot) {
            let n: u32 = self.peers[i].1.in_flight.saturating_sub(1);
            self.peers[i].1.in_flight = n;
            assert(self@ =~= old(self)@.one_less_in_flight(slot));
        }
    }

    /// Takes one request back.
    fn release_block_claim(&mut self, slot: PeerSlot, req: BlockRequest)
        requires
            old(self).wf(),
        ensures
            final(self).wf(),
            final(self)@ == old(self)@.release_block(slot, req),
    {
        proof {
            lemma_release_block_keeps(self@, slot, req);
        }
        self.lower_in_flight(slot);
        let ghost mid = self@;
        let idx: usize = (req.offset / BLOCK_SIZE) as usize;
        if let Some(k) = self.find_piece(req.piece) {
            let ghost before = self.in_progress@;
            if idx < self.in_progress[k].1.claimed.len() && self.in_progress[k].1.claimed[idx]
                == Some(slot) {
                self.in_progress[k].1.claimed[idx] = None;
                assert(self@ =~= old(self)@.release_block(slot, req));
                assert forall|j: int| 0 <= j < self.in_progress@.len() implies (
                #[trigger] self.in_progress@[j]).1.counted() by {
                    assert(before[j].1.counted());
                }
            }
        }
    }

    /// Makes sure that there is an entry for a piece, and says where.
    fn ensure_piece(&mut self, piece: u32) -> (k: usize)
        requires
            old(self).wf(),
            piece < old(self)@.params.piece_count,
        ensures
            final(self).wf(),
            final(self)@ == old(self)@.with_piece(piece),
            find_key(final(self)@.in_progress, piece) == Some(k as int),
            k < final(self).in_progress@.len(),
            final(self).in_progress@[k as int].0 == piece,
    {
        proof {
            lemma_with_piece_keeps(self@, piece);
            lemma_workable(self@.params, piece as int);
        }
        if let Some(k) = self.find_piece(piece) {
            return k;
        }
        let size: u32 = self.params.piece_size(piece);
        let k: usize = self.in_progress.len();
        let ghost before = self.in_progress@;
        let entry = InProgressPiece::new(size);
        self.in_progress.push((piece, entry));
        assert(self@ =~= old(self)@.with_piece(piece));
        assert forall|j: int| 0 <= j < self.in_progress@.len() implies (
        #[trigger] self.in_progress@[j]).1.counted() by {
            if j < before.len() {
                assert(before[j].1.counted());
            }
        }
        k
    }

    /// Writes a block into the buffer of a piece and marks it as here.
    fn store_block(&mut self, k: usize, idx: usize, offset: usize, data: &[u8])
        requires
            k < old(self).in_progress@.len(),
            idx < old(self).in_progress@[k as int].1.received@.len(),
            old(self).in_progress@[k as int].1.received@.len()
                == old(self).in_progress@[k as int].1.claimed@.len(),
            !old(self).in_progress@[k as int].1.received@[idx as int],
            offset + data@.len() <= old(self).in_progress@[k as int].1.buffer@.len(),
            forall|j: int|
                0 <= j < old(self).in_progress@.len() ==> (
                #[trigger] old(self).in_progress@[j]).1.counted(),
        ensures
            final(self)@ == old(self)@.set_piece(
                k as int,
                old(self)@.in_progress[k as int].1.filled(idx as int, offset as int, data@),
            ),
            final(self).picker == old(self).picker,
            final(self).in_progress@.len() == old(self).in_progress@.len(),
            forall|j: int|
                0 <= j < final(self).in_progress@.len() ==> (
                #[trigger] final(self).in_progress@[j]).1.counted(),
    {
        let ghost before = self.in_progress@;
        let ghost q = self@.in_progress[k as int].1;
        let ghost want = q.filled(idx as int, offset as int, data@);
        let room: usize = self.in_progress[k].1.buffer.len();
        let blocks: usize = self.in_progress[k].1.received.len();
        let mut i: usize = 0;
        while i < data.len()
            invariant
                i <= data@.len(),
                room == q.buffer.len(),
                k < self.in_progress@.len(),
                before == old(self).in_progress@,
                before.len() == self.in_progress@.len(),
                q == before[k as int].1@,
                offset + data@.len() <= q.buffer.len(),
                self.picker == old(self).picker,
                self.in_progress@[k as int].0 == before[k as int].0,
                self.in_progress@[k as int].1.received == before[k as int].1.received,
                self.in_progress@[k as int].1.claimed == before[k as int].1.claimed,
                self.in_progress@[k as int].1.received_count == before[k as int].1.received_count,
                self.in_progress@[k as int].1.buffer@ == q.buffer.take(offset as int) + data@.take(
                    i as int,
                ) + q.buffer.skip(offset + i),
                forall|j: int|
                    0 <= j < self.in_progress@.len() && j != k ==> (#[trigger] self.in_progress@[j])
                        == before[j],
                self@ == (SessionModel { in_progress: self@.in_progress, ..old(self)@ }),
            decreases data@.len() - i,
        {
            let at: usize = offset + i;
            self.in_progress[k].1.buffer[at] = data[i];
            assert(self.in_progress@[k as int].1.buffer@ =~= q.buffer.take(offset as int)
                + data@.take(i + 1) + q.buffer.skip(offset + i + 1));
            assert(self@ =~= (SessionModel { in_progress: self@.in_progress, ..old(self)@ }));
            i = i + 1;
        }
        assert(data@.take(i as int) =~= data@);
        proof {
            lemma_count_received_set(q.received, idx as int);
            lemma_count_received(q.received.update(idx as int, true));
            assert(before[k as int].1.counted());
        }
        assert(self.in_progress@[k as int].1.received_count < blocks);
        self.in_progress[k].1.received[idx] = true;
        self.in_progress[k].1.claimed[idx] = None;
        let n: usize = self.in_progress[k].1.received_count + 1;
        self.in_progress[k].1.received_count = n;
        assert(self@.in_progress[k as int].1 =~= want);
        assert(self@.in_progress =~= old(self)@.in_progress.update(
            k as int,
            (before[k as int].0, want),
        ));
        assert(self@ =~= old(self)@.set_piece(k as int, want));
        assert forall|j: int| 0 <= j < self.in_progress@.len() implies (
        #[trigger] self.in_progress@[j]).1.counted() by {
            if j != k {
                assert(before[j].1.counted());
            }
        }
    }

    /// A block came.
    fn handle_block(
        &mut self,
        slot: PeerSlot,
        piece: u32,
        offset: u32,
        data: &[u8],
        out: &mut Vec<Action>,
    )
        requires
            old(self).wf(),
        ensures
            final(self).wf(),
            final(self)@ == old(self)@.on_block(slot, piece, offset, data@).0,
            deeds(final(out)@) == deeds(old(out)@) + old(self)@.on_block(
                slot,
                piece,
                offset,
                data@,
            ).1,
    {
        proof {
            law_block_keeps(self@, slot, piece, offset, data@);
            assert(deeds(out@) =~= deeds(out@) + Seq::<Deed>::empty());
        }
        if piece >= self.params.piece_count || offset % BLOCK_SIZE != 0 {
            self.kick_peer(slot, AlertErrorCode::PeerProtocol, out);
            return;
        }
        let ghost before = self@;
        let k: usize = self.ensure_piece(piece);
        let ghost next = self@;
        let ghost q = next.in_progress[k as int].1;
        assert(q.wf(next.params.size_of(next.in_progress[k as int].0 as int)));
        let idx: usize = (offset / BLOCK_SIZE) as usize;
        if idx >= self.in_progress[k].1.received.len() {
            self.kick_peer(slot, AlertErrorCode::PeerProtocol, out);
            return;
        }
        if self.in_progress[k].1.received[idx] {
            return;
        }
        let room: usize = self.in_progress[k].1.buffer.len();
        let start: usize = offset as usize;
        if self.in_progress[k].1.claimed[idx] != Some(slot) || start > room || data.len() > room
            - start {
            self.kick_peer(slot, AlertErrorCode::PeerProtocol, out);
            return;
        }
        self.lower_in_flight(slot);
        self.store_block(k, idx, start, data);
        let ghost filled = q.filled(idx as int, offset as int, data@);
        let ghost taken = next.one_less_in_flight(slot).set_piece(k as int, filled);
        proof {
            lemma_count_received(filled.received);
            assert(self@ == taken);
            assert(self.in_progress@[k as int].1.counted());
        }
        if self.in_progress[k].1.received_count == self.in_progress[k].1.received.len() {
            self.finalise_piece(piece, k, out);
            assert(deeds(out@) =~= deeds(old(out)@) + before.on_block(slot, piece, offset, data@).1);
        }
    }

    /// Hands a piece that is all here to the disk. The entry stays, without the
    /// bytes, until the disk has answered.
    fn finalise_piece(&mut self, piece: u32, k: usize, out: &mut Vec<Action>)
        requires
            old(self).picker.wf(),
            old(self)@.params.workable(),
            piece < old(self)@.params.piece_count,
            k < old(self).in_progress@.len(),
            forall|j: int|
                0 <= j < old(self).in_progress@.len() ==> (
                #[trigger] old(self).in_progress@[j]).1.counted(),
            old(self)@.set_piece(
                k as int,
                PieceModel { buffer: Seq::empty(), ..old(self)@.in_progress[k as int].1 },
            ).wf(),
        ensures
            final(self).wf(),
            final(self)@ == old(self)@.set_piece(
                k as int,
                PieceModel { buffer: Seq::empty(), ..old(self)@.in_progress[k as int].1 },
            ),
            deeds(final(out)@) == deeds(old(out)@).push(
                Deed::VerifyAndWrite {
                    piece,
                    offset: old(self)@.params.offset_of(piece as int) as u64,
                    buffer: old(self)@.in_progress[k as int].1.buffer,
                    expected_hash: old(self)@.params.hash_of(piece as int),
                },
            ),
    {
        proof {
            lemma_workable(self@.params, piece as int);
        }
        let ghost before = self.in_progress@;
        let mut taken: Vec<u8> = Vec::new();
        taken.append(&mut self.in_progress[k].1.buffer);
        assert(taken@ =~= before[k as int].1.buffer@);
        act(
            out,
            Action::VerifyAndWrite {
                piece,
                offset: self.params.piece_offset(piece),
                buffer: blob_from_vec(taken),
                expected_hash: self.params.piece_hash(piece),
            },
        );
        assert(self@.in_progress =~= old(self)@.set_piece(
            k as int,
            PieceModel { buffer: Seq::empty(), ..old(self)@.in_progress[k as int].1 },
        ).in_progress);
        assert(self@ =~= old(self)@.set_piece(
            k as int,
            PieceModel { buffer: Seq::empty(), ..old(self)@.in_progress[k as int].1 },
        ));
        assert forall|j: int| 0 <= j < self.in_progress@.len() implies (
        #[trigger] self.in_progress@[j]).1.counted() by {
            assert(before[j].1.counted());
        }
    }
}

/// The flags that a bitfield from the wire holds, if it has the right form.
pub open spec fn unpacked(bytes: Seq<u8>, piece_count: u32) -> Option<Seq<bool>> {
    if exists|have: Seq<bool>| have.len() == piece_count && #[trigger] packs(bytes, have) {
        Some(choose|have: Seq<bool>| have.len() == piece_count && #[trigger] packs(bytes, have))
    } else {
        None
    }
}

/// Which bitfields have the right form, and what they hold.
pub proof fn lemma_unpacked(bytes: Seq<u8>, piece_count: u32)
    ensures
        unpacked(bytes, piece_count) is Some <==> bytes.len() == (piece_count + 7) / 8
            && spare_clear(bytes, piece_count as int),
        unpacked(bytes, piece_count) is Some ==> {
            &&& unpacked(bytes, piece_count)->0.len() == piece_count
            &&& packs(bytes, unpacked(bytes, piece_count)->0)
        },
{
    if bytes.len() == (piece_count + 7) / 8 && spare_clear(bytes, piece_count as int) {
        let have = Seq::new(piece_count as nat, |i: int| bit_at(bytes, i));
        assert(packs(bytes, have));
    }
    if let Some(have) = unpacked(bytes, piece_count) {
        law_unpack_undoes_pack(bytes, have);
    }
}


impl TorrentSession {
    /// The requests for all blocks that are asked for, and of whom.
    fn outstanding(&self) -> (r: Vec<(PeerSlot, BlockRequest)>)
        requires
            self.wf(),
        ensures
            r@ == all_claims(self@.in_progress, self@.params),
    {
        let mut list: Vec<(PeerSlot, BlockRequest)> = Vec::new();
        let ghost pieces = self@.in_progress;
        let mut k: usize = 0;
        assert(pieces.take(0) =~= Seq::<(u32, PieceModel)>::empty());
        while k < self.in_progress.len()
            invariant
                self.wf(),
                k <= self.in_progress@.len(),
                pieces == self@.in_progress,
                list@ == all_claims(pieces.take(k as int), self@.params),
            decreases self.in_progress@.len() - k,
        {
            let piece: u32 = self.in_progress[k].0;
            let claimed = &self.in_progress[k].1.claimed;
            let ghost q = pieces[k as int].1;
            proof {
                assert(pieces[k as int].0 < self@.params.piece_count);
                assert(q.wf(self@.params.size_of(pieces[k as int].0 as int)));
                lemma_workable(self@.params, piece as int);
                assert(pieces.take(k + 1).drop_last() =~= pieces.take(k as int));
            }
            let size: u32 = self.params.piece_size(piece);
            let ghost head = list@;
            let mut b: usize = 0;
            assert(claimed@.take(0) =~= Seq::<Option<PeerSlot>>::empty());
            assert(list@ =~= head + piece_claims(piece, claimed@.take(0), size));
            while b < claimed.len()
                invariant
                    b <= claimed@.len(),
                    claimed@ == q.claimed,
                    q.wf(size),
                    list@ == head + piece_claims(piece, claimed@.take(b as int), size),
                decreases claimed@.len() - b,
            {
                assert(claimed@.take(b + 1).drop_last() =~= claimed@.take(b as int));
                assert(b * BLOCK_SIZE < size) by {
                    assert(b <= q.received.len() - 1);
                }
                if let Some(slot) = claimed[b] {
                    let idx: u32 = b as u32;
                    let len: u32 = InProgressPiece::block_size_at(idx, size);
                    list.push((slot, BlockRequest::new(piece, idx * BLOCK_SIZE, len)));
                    assert(list@ =~= head + piece_claims(piece, claimed@.take(b + 1), size));
                }
                b = b + 1;
            }
            assert(claimed@.take(b as int) =~= claimed@);
            k = k + 1;
        }
        assert(pieces.take(k as int) =~= pieces);
        list
    }

    /// Pauses the session or lets it go on. Nothing happens where that is so
    /// already. Pausing chokes every peer and takes every request back; going on
    /// unchokes the peers that are interested.
    pub fn set_paused(&mut self, want_paused: bool, out: &mut Vec<Action>)
        requires
            old(self).wf(),
        ensures
            final(self).wf(),
            final(self)@ == old(self)@.pausing(want_paused).0,
            deeds(final(out)@) == deeds(old(out)@) + old(self)@.pausing(want_paused).1,
    {
        proof {
            law_pausing_keeps(self@, want_paused);
            assert(deeds(out@) =~= deeds(out@) + Seq::<Deed>::empty());
        }
        if self.paused == want_paused {
            return;
        }
        if want_paused {
            self.pause(out);
        } else {
            self.resume(out);
        }
    }

    fn pause(&mut self, out: &mut Vec<Action>)
        requires
            old(self).wf(),
            !old(self)@.paused,
        ensures
            final(self).wf(),
            final(self)@ == old(self)@.pausing(true).0,
            deeds(final(out)@) == deeds(old(out)@) + old(self)@.pausing(true).1,
    {
        let ghost before = self@;
        let ghost told = deeds(out@);
        let list = self.outstanding();
        self.paused = true;
        let ghost choked = SessionModel {
            paused: true,
            peers: Seq::new(
                before.peers.len(),
                |i: int| (before.peers[i].0, PeerModel { we_choking: true, ..before.peers[i].1 }),
            ),
            ..before
        };
        let mut i: usize = 0;
        assert(before.peers.take(0) =~= Seq::<(PeerSlot, PeerModel)>::empty());
        assert(deeds(out@) =~= told + chokes(before.peers.take(0)));
        while i < self.peers.len()
            invariant
                i <= self.peers@.len(),
                before == old(self)@,
                self.peers@.len() == before.peers.len(),
                self.picker == old(self).picker,
                self.in_progress == old(self).in_progress,
                choked.peers.len() == before.peers.len(),
                forall|j: int|
                    0 <= j < before.peers.len() ==> (#[trigger] choked.peers[j]) == (
                        before.peers[j].0,
                        PeerModel { we_choking: true, ..before.peers[j].1 },
                    ),
                forall|j: int| 0 <= j < i ==> (#[trigger] self@.peers[j]) == choked.peers[j],
                forall|j: int|
                    i <= j < self.peers@.len() ==> (#[trigger] self@.peers[j]) == before.peers[j],
                self@ == (SessionModel { paused: true, peers: self@.peers, ..before }),
                deeds(out@) == told + chokes(before.peers.take(i as int)),
            decreases self.peers@.len() - i,
        {
            let ghost prior = self@;
            assert(before.peers.take(i + 1).drop_last() =~= before.peers.take(i as int));
            assert(self@.peers[i as int] == before.peers[i as int]);
            if !self.peers[i].1.we_choking {
                self.peers[i].1.we_choking = true;
                tell(out, self.peers[i].0, SessionToPeer::Choke);
                assert(deeds(out@) =~= told + chokes(before.peers.take(i + 1)));
            }
            assert(self@.peers[i as int] =~= choked.peers[i as int]);
            assert(forall|j: int|
                0 <= j < self.peers@.len() && j != i ==> (#[trigger] self@.peers[j])
                    == prior.peers[j]);
            assert(self@ =~= (SessionModel { paused: true, peers: self@.peers, ..before }));
            i = i + 1;
        }
        assert(before.peers.take(i as int) =~= before.peers);
        assert(self@ =~= choked);
        proof {
            lemma_set_peers_keeps(before, choked.peers);
        }
        let ghost base = deeds(out@);
        let mut n: usize = 0;
        assert(list@.take(0) =~= Seq::<(PeerSlot, BlockRequest)>::empty());
        assert(deeds(out@) =~= base + choked.cancel_all(list@.take(0)).1);
        while n < list.len()
            invariant
                n <= list@.len(),
                self.wf(),
                self@ == choked.cancel_all(list@.take(n as int)).0,
                deeds(out@) == base + choked.cancel_all(list@.take(n as int)).1,
            decreases list@.len() - n,
        {
            let (slot, req) = list[n];
            assert(list@.take(n + 1).drop_last() =~= list@.take(n as int));
            if self.find_peer(slot).is_some() {
                tell(out, slot, SessionToPeer::Cancel(req));
            }
            self.release_block_claim(slot, req);
            assert(deeds(out@) =~= base + choked.cancel_all(list@.take(n + 1)).1);
            n = n + 1;
        }
        assert(list@.take(n as int) =~= list@);
        assert(deeds(out@) =~= told + before.pausing(true).1);
    }

    fn resume(&mut self, out: &mut Vec<Action>)
        requires
            old(self).wf(),
            old(self)@.paused,
        ensures
            final(self).wf(),
            final(self)@ == old(self)@.pausing(false).0,
            deeds(final(out)@) == deeds(old(out)@) + old(self)@.pausing(false).1,
    {
        let ghost before = self@;
        let ghost told = deeds(out@);
        let ghost goal = before.pausing(false).0;
        proof {
            law_pausing_keeps(before, false);
        }
        self.paused = false;
        let mut i: usize = 0;
        assert(before.peers.take(0) =~= Seq::<(PeerSlot, PeerModel)>::empty());
        assert(deeds(out@) =~= told + unchokes(before.peers.take(0)));
        while i < self.peers.len()
            invariant
                i <= self.peers@.len(),
                before == old(self)@,
                self.peers@.len() == before.peers.len(),
                self.picker == old(self).picker,
                self.in_progress == old(self).in_progress,
                goal.peers.len() == before.peers.len(),
                forall|j: int|
                    0 <= j < before.peers.len() ==> (#[trigger] goal.peers[j]) == (
                        before.peers[j].0,
                        PeerModel {
                            we_choking: before.peers[j].1.we_choking
                                && !before.peers[j].1.peer_interested,
                            ..before.peers[j].1
                        },
                    ),
                forall|j: int| 0 <= j < i ==> (#[trigger] self@.peers[j]) == goal.peers[j],
                forall|j: int|
                    i <= j < self.peers@.len() ==> (#[trigger] self@.peers[j]) == before.peers[j],
                self@ == (SessionModel { paused: false, peers: self@.peers, ..before }),
                deeds(out@) == told + unchokes(before.peers.take(i as int)),
            decreases self.peers@.len() - i,
        {
            let ghost prior = self@;
            assert(before.peers.take(i + 1).drop_last() =~= before.peers.take(i as int));
            assert(self@.peers[i as int] == before.peers[i as int]);
            if self.peers[i].1.peer_interested && self.peers[i].1.we_choking {
                self.peers[i].1.we_choking = false;
                tell(out, self.peers[i].0, SessionToPeer::Unchoke);
                assert(deeds(out@) =~= told + unchokes(before.peers.take(i + 1)));
            }
            assert(self@.peers[i as int] =~= goal.peers[i as int]);
            assert(forall|j: int|
                0 <= j < self.peers@.len() && j != i ==> (#[trigger] self@.peers[j])
                    == prior.peers[j]);
            assert(self@ =~= (SessionModel { paused: false, peers: self@.peers, ..before }));
            i = i + 1;
        }
        assert(before.peers.take(i as int) =~= before.peers);
        assert(self@ =~= goal);
    }

    /// Whether the peer at place `i` can be asked for a block of piece `p`.
    fn is_eligible(&self, i: usize, p: u32) -> (r: bool)
        requires
            self.wf(),
            i < self.peers@.len(),
            p < self@.params.piece_count,
        ensures
            r == self@.eligible(self@.peers[i as int].1.have, p as int),
    {
        let ghost have = self@.peers[i as int].1.have;
        assert(have.len() == self@.params.piece_count);
        if !self.peers[i].1.have[p as usize] || self.picker.has_piece(p) {
            return false;
        }
        proof {
            lemma_workable(self@.params, p as int);
        }
        let size: u32 = self.params.piece_size(p);
        let k: usize = match self.find_piece(p) {
            None => {
                return size > 0;
            },
            Some(k) => k,
        };
        let ghost q = self@.in_progress[k as int].1;
        let count: u32 = if size % BLOCK_SIZE == 0 {
            size / BLOCK_SIZE
        } else {
            size / BLOCK_SIZE + 1
        };
        assert(count == self@.params.blocks_of(p as int));
        let piece = &self.in_progress[k].1;
        assert(self@.eligible(have, p as int) == self@.has_open_block(q, p as int));
        let mut b: u32 = 0;
        while b < count
            invariant
                b <= count,
                q == piece@,
                have == self@.peers[i as int].1.have,
                self@.eligible(have, p as int) == self@.has_open_block(q, p as int),
                count == self@.params.blocks_of(p as int),
                forall|c: int| 0 <= c < b ==> !#[trigger] open_block(q, c),
            decreases count - b,
        {
            let idx: usize = b as usize;
            let claimed: bool = idx < piece.claimed.len() && piece.claimed[idx].is_some();
            let received: bool = idx < piece.received.len() && piece.received[idx];
            if !claimed && !received {
                assert(open_block(q, b as int));
                assert(self@.has_open_block(q, p as int));
                return true;
            }
            b = b + 1;
        }
        assert(!self@.has_open_block(q, p as int));
        false
    }

    /// The first piece that the peer at place `i` can be asked for.
    fn find_eligible(&self, i: usize) -> (r: Option<u32>)
        requires
            self.wf(),
            i < self.peers@.len(),
        ensures
            match (r, self@.first_eligible(self@.peers[i as int].1.have, 0)) {
                (Some(a), Some(b)) => a == b,
                (None, None) => true,
                _ => false,
            },
    {
        let ghost have = self@.peers[i as int].1.have;
        let count: u32 = self.params.piece_count;
        let mut p: u32 = 0;
        while p < count
            invariant
                self.wf(),
                i < self.peers@.len(),
                have == self@.peers[i as int].1.have,
                count == self@.params.piece_count,
                p <= count,
                self@.first_eligible(have, 0) == self@.first_eligible(have, p as int),
            decreases count - p,
        {
            if self.is_eligible(i, p) {
                return Some(p);
            }
            p = p + 1;
        }
        None
    }

    /// The first block of the piece at place `k` that is neither here nor asked
    /// for.
    fn find_free(&self, k: usize) -> (r: Option<usize>)
        requires
            k < self.in_progress@.len(),
            self.in_progress@[k as int].1.received@.len()
                == self.in_progress@[k as int].1.claimed@.len(),
        ensures
            match (r, self@.in_progress[k as int].1.first_free(0)) {
                (Some(a), Some(b)) => a == b && b < self.in_progress@[k as int].1.received@.len(),
                (None, None) => true,
                _ => false,
            },
    {
        let piece = &self.in_progress[k].1;
        let ghost q = piece@;
        let mut b: usize = 0;
        while b < piece.received.len()
            invariant
                q == piece@,
                q == self@.in_progress[k as int].1,
                piece.received@ == self.in_progress@[k as int].1.received@,
                b <= piece.received@.len(),
                piece.received@.len() == piece.claimed@.len(),
                q.first_free(0) == q.first_free(b as int),
            decreases piece.received@.len() - b,
        {
            if !piece.received[b] && piece.claimed[b].is_none() {
                return Some(b);
            }
            b = b + 1;
        }
        None
    }

    /// Asks one block of a peer, if it can. `false` where nothing was found to ask
    /// for.
    fn assign_one_block(&mut self, slot: PeerSlot, out: &mut Vec<Action>) -> (r: bool)
        requires
            old(self).wf(),
            match find_key(old(self)@.peers, slot) {
                Some(i) => old(self)@.peers[i].1.can_request(),
                None => true,
            },
        ensures
            final(self).wf(),
            match old(self)@.assign(slot) {
                None => !r && final(self)@ == old(self)@ && deeds(final(out)@) == deeds(old(out)@),
                Some((next, told)) => r && final(self)@ == next && deeds(final(out)@) == deeds(
                    old(out)@,
                ) + told,
            },
    {
        proof {
            lemma_assign_keeps(self@, slot);
            lemma_find(self@.peers, slot);
        }
        let i: usize = match self.find_peer(slot) {
            None => {
                return false;
            },
            Some(i) => i,
        };
        proof {
            lemma_first_eligible(self@, self@.peers[i as int].1.have, 0);
        }
        let piece: u32 = match self.find_eligible(i) {
            None => {
                return false;
            },
            Some(p) => p,
        };
        proof {
            lemma_with_piece_keeps(self@, piece);
            lemma_workable(self@.params, piece as int);
        }
        let ghost before = self@;
        let k: usize = self.ensure_piece(piece);
        let ghost next = self@;
        let ghost q = next.in_progress[k as int].1;
        assert(q.wf(next.params.size_of(next.in_progress[k as int].0 as int)));
        proof {
            lemma_first_free(q, 0);
            if find_key(before.in_progress, piece) is None {
                assert(q.free(0));
            }
        }
        let idx: usize = match self.find_free(k) {
            None => {
                return false;
            },
            Some(b) => b,
        };
        let piece_size: u32 = self.params.piece_size(piece);
        assert(idx * BLOCK_SIZE < piece_size) by {
            assert(idx <= q.received.len() - 1);
        }
        let b: u32 = idx as u32;
        let len: u32 = InProgressPiece::block_size_at(b, piece_size);
        let ghost prior = self.in_progress@;
        self.in_progress[k].1.claimed[idx] = Some(slot);
        let in_flight: u32 = self.peers[i].1.in_flight + 1;
        self.peers[i].1.in_flight = in_flight;
        tell(out, slot, SessionToPeer::Request(BlockRequest::new(piece, b * BLOCK_SIZE, len)));
        let ghost goal = before.assign(slot)->0;
        assert(self@.in_progress =~= goal.0.in_progress);
        assert(self@.peers =~= goal.0.peers);
        assert(self@ =~= goal.0);
        assert(deeds(out@) =~= deeds(old(out)@) + goal.1);
        assert forall|j: int| 0 <= j < self.in_progress@.len() implies (
        #[trigger] self.in_progress@[j]).1.counted() by {
            assert(prior[j].1.counted());
        }
        true
    }

    /// Whether a peer may be asked for one more block.
    fn peer_can_request(&self, slot: PeerSlot) -> (r: bool)
        ensures
            r == (match find_key(self@.peers, slot) {
                Some(i) => self@.peers[i].1.can_request(),
                None => false,
            }),
    {
        match self.find_peer(slot) {
            Some(i) => self.peers[i].1.can_request(),
            None => false,
        }
    }

    /// Asks a peer for as many blocks as it may have under way.
    fn fill_peer(&mut self, slot: PeerSlot, out: &mut Vec<Action>)
        requires
            old(self).wf(),
        ensures
            final(self).wf(),
            final(self)@ == old(self)@.fill(slot, old(self)@.room(slot)).0,
            deeds(final(out)@) == deeds(old(out)@) + old(self)@.fill(
                slot,
                old(self)@.room(slot),
            ).1,
    {
        let ghost told = deeds(out@);
        let ghost goal = self@.fill(slot, self@.room(slot));
        let mut more: bool = self.peer_can_request(slot);
        proof {
            lemma_find(self@.peers, slot);
            assert(told + goal.1 =~= deeds(out@) + self@.fill(slot, self@.room(slot)).1);
        }
        while more
            invariant
                self.wf(),
                goal.0 == self@.fill(slot, self@.room(slot)).0,
                told + goal.1 == deeds(out@) + self@.fill(slot, self@.room(slot)).1,
                more ==> (match find_key(self@.peers, slot) {
                    Some(i) => self@.peers[i].1.can_request(),
                    None => false,
                }),
                !more ==> self@.fill(slot, self@.room(slot)) == (self@, Seq::<Deed>::empty()),
            decreases self@.room(slot) + (if more {
                1int
            } else {
                0
            }),
        {
            let ghost before = self@;
            let ghost out_before = deeds(out@);
            proof {
                lemma_find(before.peers, slot);
            }
            if self.assign_one_block(slot, out) {
                proof {
                    lemma_assign_room(before, slot);
                    let (next, first) = before.assign(slot)->0;
                    let (end, rest) = next.fill(slot, next.room(slot));
                    assert(before.fill(slot, before.room(slot)) == (end, first + rest));
                    assert(told + goal.1 =~= deeds(out@) + rest) by {
                        assert(out_before + (first + rest) =~= (out_before + first) + rest);
                    }
                }
                more = self.peer_can_request(slot);
            } else {
                more = false;
            }
        }
        assert(deeds(out@) + Seq::<Deed>::empty() =~= deeds(out@));
    }

    /// Asks all peers for blocks that are missing.
    pub fn schedule(&mut self, out: &mut Vec<Action>)
        requires
            old(self).wf(),
        ensures
            final(self).wf(),
            final(self)@ == old(self)@.scheduled().0,
            deeds(final(out)@) == deeds(old(out)@) + old(self)@.scheduled().1,
    {
        proof {
            assert(deeds(out@) =~= deeds(out@) + Seq::<Deed>::empty());
        }
        if self.state == TorrentState::Completed {
            return;
        }
        let slots = self.slots();
        let ghost before = self@;
        let mut i: usize = 0;
        assert(slots@.take(0) =~= Seq::<PeerSlot>::empty());
        while i < slots.len()
            invariant
                i <= slots@.len(),
                self.wf(),
                self@ == before.fill_all(slots@.take(i as int)).0,
                deeds(out@) == deeds(old(out)@) + before.fill_all(slots@.take(i as int)).1,
            decreases slots@.len() - i,
        {
            assert(slots@.take(i + 1).drop_last() =~= slots@.take(i as int));
            self.fill_peer(slots[i], out);
            assert(deeds(out@) =~= deeds(old(out)@) + before.fill_all(slots@.take(i + 1)).1);
            i = i + 1;
        }
        assert(slots@.take(i as int) =~= slots@);
    }

    /// The connections, in order.
    fn slots(&self) -> (r: Vec<PeerSlot>)
        ensures
            r@ == self@.slots(),
    {
        let mut out: Vec<PeerSlot> = Vec::new();
        let mut i: usize = 0;
        while i < self.peers.len()
            invariant
                i <= self.peers@.len(),
                out@ == self@.slots().take(i as int),
            decreases self.peers@.len() - i,
        {
            out.push(self.peers[i].0);
            assert(out@ =~= self@.slots().take(i + 1));
            i = i + 1;
        }
        assert(self@.slots().take(i as int) =~= self@.slots());
        out
    }
}

/// An assigned block takes up one of the peer's requests.
proof fn lemma_assign_room(m: SessionModel, slot: PeerSlot)
    requires
        m.wf(),
        m.assign(slot) is Some,
        match find_key(m.peers, slot) {
            Some(i) => m.peers[i].1.can_request(),
            None => false,
        },
    ensures
        ({
            let (next, _) = m.assign(slot)->0;
            next.room(slot) == m.room(slot) - 1
        }),
{
    lemma_assign_keeps(m, slot);
    lemma_find(m.peers, slot);
    let i = find_key(m.peers, slot)->0;
    let (next, _) = m.assign(slot)->0;
    assert forall|j: int| 0 <= j < m.peers.len() implies (#[trigger] next.peers[j]).0
        == m.peers[j].0 by {}
    lemma_find_same_keys(next.peers, m.peers, slot);
}


/// The first piece of metadata that is needed is the only one.
proof fn lemma_next_needed(m: AssemblerModel, p: Option<u32>)
    requires
        m.wf(),
        m.first_needed(p),
    ensures
        next_needed(m) == p,
{
    let c = next_needed(m);
    assert(m.first_needed(c));
    match (c, p) {
        (Some(a), Some(b)) => {
            assert(m.needs(a as int) && m.needs(b as int));
        },
        (Some(a), None) => {
            assert(m.needs(a as int));
        },
        (None, Some(b)) => {
            assert(m.needs(b as int));
        },
        (None, None) => {},
    }
}

impl TorrentSession {
    /// Tells the assembler the size of the metadata.
    fn learn_metadata_size(&mut self, size: Option<u64>)
        requires
            old(self).wf(),
        ensures
            final(self).wf(),
            final(self)@ == old(self)@.told_size(size),
    {
        if let Some(n) = size {
            if let Some(assembler) = &mut self.metadata_assembler {
                assembler.set_total_size(n);
            }
        }
        assert(self@ =~= old(self)@.told_size(size));
    }

    /// Puts the port that a peer listens on into its address.
    fn learn_listen_port(&mut self, slot: PeerSlot, port: Option<u16>)
        requires
            old(self).wf(),
        ensures
            final(self).wf(),
            final(self)@ == old(self)@.told_port(slot, port),
    {
        if let Some(n) = port {
            if let Some(i) = self.find_peer(slot) {
                if let Some(current) = self.peers[i].1.addr {
                    self.peers[i].1.addr = Some(PeerAddr { ip: current.ip, port: n });
                    proof {
                        lemma_find(old(self)@.peers, slot);
                        assert(self@ =~= old(self)@.told_port(slot, port));
                        lemma_set_peer_keeps(old(self)@, i as int, self@.peers[i as int].1);
                    }
                }
            }
        }
    }

    /// Asks a peer for up to a few pieces of metadata.
    fn request_metadata_from_peer(&mut self, slot: PeerSlot, out: &mut Vec<Action>)
        requires
            old(self).wf(),
        ensures
            final(self).wf(),
            final(self)@ == old(self)@.ask_metadata_of(slot).0,
            deeds(final(out)@) == deeds(old(out)@) + old(self)@.ask_metadata_of(slot).1,
    {
        let ghost told = deeds(out@);
        let ghost goal = self@.ask_metadata_of(slot);
        proof {
            lemma_ask_metadata_keeps(self@, slot, METADATA_REQUESTS as nat);
            assert(deeds(out@) + Seq::<Deed>::empty() =~= deeds(out@));
        }
        let sized: bool = match &self.metadata_assembler {
            Some(a) => a.has_size(),
            None => false,
        };
        if !sized {
            return;
        }
        let mut left: u32 = METADATA_REQUESTS;
        let mut more: bool = true;
        assert(told + goal.1 =~= deeds(out@) + self@.ask_metadata(slot, left as nat).1);
        while left > 0 && more
            invariant
                self.wf(),
                more ==> goal.0 == self@.ask_metadata(slot, left as nat).0,
                more ==> told + goal.1 == deeds(out@) + self@.ask_metadata(slot, left as nat).1,
                !more ==> goal.0 == self@ && told + goal.1 == deeds(out@),
            decreases left + (if more {
                1int
            } else {
                0
            }),
        {
            let next: Option<u32> = match &self.metadata_assembler {
                Some(a) => {
                    let p = a.next_needed_piece();
                    proof {
                        lemma_next_needed(a@, p);
                    }
                    p
                },
                None => None,
            };
            let ghost before = self@;
            let ghost out_before = deeds(out@);
            match next {
                None => {
                    proof {
                        assert(before.ask_metadata(slot, left as nat) == (before, Seq::<Deed>::empty()));
                        assert(deeds(out@) + Seq::<Deed>::empty() =~= deeds(out@));
                    }
                    more = false;
                },
                Some(piece) => {
                    if let Some(assembler) = &mut self.metadata_assembler {
                        assembler.mark_pending(piece, slot);
                    }
                    let ghost asked = SessionModel {
                        metadata: Some(before.metadata->0.asked(piece, slot)),
                        ..before
                    };
                    assert(self@ =~= asked);
                    let known: bool = self.find_peer(slot).is_some();
                    if known {
                        tell(
                            out,
                            slot,
                            SessionToPeer::SendExtended {
                                payload: ExtensionPayload::Metadata(
                                    MetadataMessage::Request { piece },
                                ),
                            },
                        );
                    }
                    proof {
                        let (end, rest) = asked.ask_metadata(slot, (left - 1) as nat);
                        let first = if known {
                            seq![
                                Deed::Send(
                                    slot,
                                    PeerNote::SendExtended(
                                        ExtensionNote::Metadata(MetadataNote::Request { piece }),
                                    ),
                                ),
                            ]
                        } else {
                            Seq::<Deed>::empty()
                        };
                        assert(before.ask_metadata(slot, left as nat) == (end, first + rest));
                        assert(deeds(out@) =~= out_before + first);
                        assert(told + goal.1 =~= deeds(out@) + rest) by {
                            assert(out_before + (first + rest) =~= (out_before + first) + rest);
                        }
                    }
                    left = left - 1;
                },
            }
        }
        assert(deeds(out@) + Seq::<Deed>::empty() =~= deeds(out@));
    }

    /// Asks the peers in turn for metadata, until nothing is needed.
    fn request_metadata_from_any_peer(&mut self, out: &mut Vec<Action>)
        requires
            old(self).wf(),
        ensures
            final(self).wf(),
            final(self)@ == old(self)@.ask_metadata_all(old(self)@.slots()).0,
            deeds(final(out)@) == deeds(old(out)@) + old(self)@.ask_metadata_all(
                old(self)@.slots(),
            ).1,
    {
        let slots = self.slots();
        let ghost told = deeds(out@);
        let ghost goal = self@.ask_metadata_all(slots@);
        let mut i: usize = 0;
        assert(slots@.skip(0) =~= slots@);
        assert(told + goal.1 =~= deeds(out@) + self@.ask_metadata_all(slots@.skip(0)).1);
        while i < slots.len()
            invariant
                i <= slots@.len(),
                self.wf(),
                goal.0 == self@.ask_metadata_all(slots@.skip(i as int)).0,
                told + goal.1 == deeds(out@) + self@.ask_metadata_all(slots@.skip(i as int)).1,
                old(self)@.slots() == slots@,
                told == deeds(old(out)@),
                goal == old(self)@.ask_metadata_all(slots@),
            decreases slots@.len() - i,
        {
            let needed: bool = match &self.metadata_assembler {
                Some(a) => {
                    let p = a.next_needed_piece();
                    proof {
                        lemma_next_needed(a@, p);
                    }
                    p.is_some()
                },
                None => false,
            };
            if !needed {
                proof {
                    assert(self@.ask_metadata_all(slots@.skip(i as int)) == (
                        self@,
                        Seq::<Deed>::empty(),
                    ));
                    assert(deeds(out@) + Seq::<Deed>::empty() =~= deeds(out@));
                }
                return;
            }
            let ghost before = self@;
            let ghost out_before = deeds(out@);
            self.request_metadata_from_peer(slots[i], out);
            proof {
                assert(slots@.skip(i as int)[0] == slots@[i as int]);
                assert(slots@.skip(i as int).drop_first() =~= slots@.skip(i + 1));
                let (mid, first) = before.ask_metadata_of(slots@[i as int]);
                let (end, rest) = mid.ask_metadata_all(slots@.skip(i + 1));
                assert(before.ask_metadata_all(slots@.skip(i as int)) == (end, first + rest));
                assert(told + goal.1 =~= deeds(out@) + rest) by {
                    assert(out_before + (first + rest) =~= (out_before + first) + rest);
                }
            }
            i = i + 1;
        }
        proof {
            assert(self@.ask_metadata_all(slots@.skip(i as int)) == (self@, Seq::<Deed>::empty()));
            assert(deeds(out@) + Seq::<Deed>::empty() =~= deeds(out@));
        }
    }

    /// A peer told about its extensions.
    fn handle_extension_handshake(
        &mut self,
        slot: PeerSlot,
        metadata_size: Option<u64>,
        listen_port: Option<u16>,
        out: &mut Vec<Action>,
    )
        requires
            old(self).wf(),
        ensures
            final(self).wf(),
            final(self)@ == old(self)@.on_extension_handshake(
                slot,
                metadata_size,
                listen_port,
            ).0,
            deeds(final(out)@) == deeds(old(out)@) + old(self)@.on_extension_handshake(
                slot,
                metadata_size,
                listen_port,
            ).1,
    {
        self.learn_metadata_size(metadata_size);
        self.learn_listen_port(slot, listen_port);
        self.request_metadata_from_peer(slot, out);
    }

    /// A metadata message came.
    fn handle_ut_metadata(&mut self, slot: PeerSlot, msg: MetadataMessage, out: &mut Vec<Action>)
        requires
            old(self).wf(),
        ensures
            final(self).wf(),
            final(self)@ == old(self)@.on_metadata_message(slot, msg@).0,
            deeds(final(out)@) == deeds(old(out)@) + old(self)@.on_metadata_message(slot, msg@).1,
    {
        proof {
            assert(deeds(out@) + Seq::<Deed>::empty() =~= deeds(out@));
        }
        match msg {
            MetadataMessage::Data { piece, total_size, data } => {
                let ghost before = self@;
                if let Some(assembler) = &mut self.metadata_assembler {
                    assembler.set_total_size(total_size);
                    let stored = assembler.receive_piece(piece, data);
                    if stored.is_ok() {
                        if let Some(metadata) = assembler.try_assemble() {
                            act(out, Action::VerifyMetadata { metadata });
                        }
                    }
                    proof {
                        let goal = before.on_metadata_message(
                            slot,
                            MetadataNote::Data { piece, total_size, data: blob(data) },
                        );
                        assert(deeds(out@) =~= deeds(old(out)@) + goal.1);
                    }
                }
                assert(self@ =~= before.on_metadata_message(
                    slot,
                    MetadataNote::Data { piece, total_size, data: blob(data) },
                ).0);
            },
            MetadataMessage::Reject { piece } => {
                let ghost before = self@;
                if let Some(assembler) = &mut self.metadata_assembler {
                    assembler.receive_reject(piece);
                }
                assert(self@ =~= if before.metadata is Some {
                    SessionModel { metadata: Some(before.metadata->0.unasked(piece)), ..before }
                } else {
                    before
                });
                self.request_metadata_from_any_peer(out);
            },
            MetadataMessage::Request { piece } => {
                self.serve_metadata_piece(slot, piece, out);
            },
        }
    }

    /// Answers a request for a piece of metadata.
    fn serve_metadata_piece(&self, slot: PeerSlot, piece: u32, out: &mut Vec<Action>)
        ensures
            deeds(final(out)@) == deeds(old(out)@) + self@.serve_metadata(slot, piece),
    {
        proof {
            assert(deeds(out@) + Seq::<Deed>::empty() =~= deeds(out@));
        }
        if self.find_peer(slot).is_none() {
            return;
        }
        let start: u64 = (piece as u64) * METADATA_PIECE_SIZE;
        let payload = match &self.info_dict_bytes {
            None => MetadataMessage::Reject { piece },
            Some(info) => {
                let total: u64 = info.len() as u64;
                if start >= total {
                    MetadataMessage::Reject { piece }
                } else {
                    let end: u64 = if METADATA_PIECE_SIZE <= total - start {
                        start + METADATA_PIECE_SIZE
                    } else {
                        total
                    };
                    let part = slice_subrange(info.as_slice(), start as usize, end as usize);
                    MetadataMessage::Data { piece, total_size: total, data: blob_copy(part) }
                }
            },
        };
        tell(out, slot, SessionToPeer::SendExtended { payload: ExtensionPayload::Metadata(payload) });
        assert(deeds(out@) =~= deeds(old(out)@) + self@.serve_metadata(slot, piece));
    }

    /// Whether the session can go on from metadata that was hashed and parsed.
    pub fn can_take_metadata(&self, digest: &[u8; 20], parsed: &Result<Info, String>) -> (r: bool)
        requires
            self.wf(),
        ensures
            r == metadata_fits(self@, digest@, by_ref(*parsed)),
    {
        if self.metadata_verify_failures == u32::MAX {
            return false;
        }
        let info = match parsed {
            Ok(info) => info,
            Err(_) => {
                return true;
            },
        };
        if let Some(v1) = &info.v1 {
            if v1.files.checked_length().is_none() {
                return false;
            }
        }
        match &self.metadata_assembler {
            None => true,
            Some(a) => match a.verify_and_parse(digest, Ok(info)) {
                Err(_) => true,
                Ok((_, params)) => params.is_workable() && self.pieces_fit(&params),
            },
        }
    }

    /// Whether the pieces being downloaded are pieces of a torrent with these
    /// parameters.
    fn pieces_fit(&self, params: &TorrentParams) -> (r: bool)
        requires
            self.wf(),
            params@.workable(),
        ensures
            r == self@.pieces_wf(params@),
    {
        let ghost have = self@.in_progress;
        let mut k: usize = 0;
        while k < self.in_progress.len()
            invariant
                k <= self.in_progress@.len(),
                self.wf(),
                params@.workable(),
                have == self@.in_progress,
                forall|j: int|
                    0 <= j < k ==> (#[trigger] have[j]).0 < params@.piece_count && have[j].1.wf(
                        params@.size_of(have[j].0 as int),
                    ),
            decreases self.in_progress@.len() - k,
        {
            let piece: u32 = self.in_progress[k].0;
            assert(have[k as int].0 == piece);
            assert(have[k as int].1 == self.in_progress@[k as int].1@);
            if piece >= params.piece_count {
                return false;
            }
            proof {
                lemma_workable(params@, piece as int);
                assert(have[k as int].1.wf(self@.params.size_of(piece as int)));
            }
            let size: u32 = params.piece_size(piece);
            let blocks: usize = self.in_progress[k].1.received.len();
            assert(blocks == have[k as int].1.received.len());
            if blocks > 0 && (blocks - 1) as u64 * BLOCK_SIZE as u64 >= size as u64 {
                return false;
            }
            k = k + 1;
        }
        true
    }

    /// The metadata that was handed out was hashed and parsed: `digest` is its
    /// SHA-1, `parsed` what parsing it gave. The session goes on with its
    /// parameters, fetches it anew, or gives up.
    pub fn handle_metadata_verified(
        &mut self,
        digest: &[u8; 20],
        parsed: Result<&Info, String>,
        out: &mut Vec<Action>,
    )
        requires
            old(self).wf(),
            metadata_fits(old(self)@, digest@, parsed),
        ensures
            final(self).wf(),
            final(self)@ == old(self)@.on_metadata_verified(digest@, parsed).0,
            deeds(final(out)@) == deeds(old(out)@) + old(self)@.on_metadata_verified(
                digest@,
                parsed,
            ).1,
    {
        proof {
            assert(deeds(out@) + Seq::<Deed>::empty() =~= deeds(out@));
        }
        let ghost before = self@;
        let verdict = match &self.metadata_assembler {
            None => {
                return;
            },
            Some(a) => a.verify_and_parse(digest, parsed),
        };
        match verdict {
            Ok((info_bytes, params)) => {
                self.start_over(info_bytes, params);
                let ghost next = self@;
                act(out, Action::Raise(Alert::MetadataReceived { torrent: self.torrent_id }));
                let ghost base = deeds(out@);
                let slots = self.slots();
                let mut i: usize = 0;
                assert(slots@.take(0) =~= Seq::<PeerSlot>::empty());
                assert(deeds(out@) =~= base + next.interest_all(slots@.take(0)).1);
                while i < slots.len()
                    invariant
                        i <= slots@.len(),
                        self.wf(),
                        self@ == next.interest_all(slots@.take(i as int)).0,
                        deeds(out@) == base + next.interest_all(slots@.take(i as int)).1,
                    decreases slots@.len() - i,
                {
                    assert(slots@.take(i + 1).drop_last() =~= slots@.take(i as int));
                    self.maybe_express_interest(slots[i], out);
                    assert(deeds(out@) =~= base + next.interest_all(slots@.take(i + 1)).1);
                    i = i + 1;
                }
                assert(slots@.take(i as int) =~= slots@);
                assert(deeds(out@) =~= deeds(old(out)@) + before.on_metadata_verified(
                    digest@,
                    parsed,
                ).1);
            },
            Err(_) => {
                self.metadata_verify_failures = self.metadata_verify_failures + 1;
                if self.metadata_verify_failures > METADATA_ATTEMPTS {
                    self.metadata_assembler = None;
                    act(
                        out,
                        Action::Raise(
                            Alert::Error {
                                torrent: self.torrent_id,
                                code: AlertErrorCode::MetadataVerifyExhausted,
                            },
                        ),
                    );
                    assert(self@ =~= before.on_metadata_verified(digest@, parsed).0);
                    assert(deeds(out@) =~= deeds(old(out)@) + before.on_metadata_verified(
                        digest@,
                        parsed,
                    ).1);
                    return;
                }
                let total_size: Option<u64> = match &self.metadata_assembler {
                    Some(a) => a.total_size(),
                    None => None,
                };
                let mut clean = MetadataAssembler::new(self.info_hash);
                if let Some(size) = total_size {
                    clean.set_total_size(size);
                }
                self.metadata_assembler = Some(clean);
                let ghost again = AssemblerModel::fresh(before.info_hash);
                assert(self@ =~= (SessionModel {
                    failures: (before.failures + 1) as u32,
                    metadata: Some(
                        match before.metadata->0.total_size {
                            Some(size) => again.sized(size),
                            None => again,
                        },
                    ),
                    ..before
                }));
                self.request_metadata_from_any_peer(out);
            },
        }
    }

    /// Starts over with the parameters that the metadata declares.
    fn start_over(&mut self, info_bytes: Vec<u8>, params: TorrentParams)
        requires
            old(self).wf(),
            params@.workable(),
            old(self)@.pieces_wf(params@),
        ensures
            final(self).wf(),
            final(self)@ == old(self)@.with_metadata(info_bytes@, params@),
    {
        let ghost before = self@;
        let ghost goal = before.with_metadata(info_bytes@, params@);
        proof {
            lemma_with_metadata_keeps(before, info_bytes@, params@);
        }
        let count: u32 = params.piece_count;
        let mut picker = Picker::new(count);
        let mut i: usize = 0;
        assert(goal.peers.take(0) =~= Seq::<(PeerSlot, PeerModel)>::empty());
        while i < self.peers.len()
            invariant
                i <= self.peers@.len(),
                before == old(self)@,
                before.wf(),
                count == params@.piece_count,
                self.peers@.len() == before.peers.len(),
                goal.peers.len() == before.peers.len(),
                goal == before.with_metadata(info_bytes@, params@),
                self.picker == old(self).picker,
                self.in_progress == old(self).in_progress,
                picker.wf(),
                picker@.have == PickerModel::fresh(count).have,
                picker@.threshold == PickerModel::fresh(count).threshold,
                picker@.availability.len() == count,
                forall|p: int|
                    0 <= p < count ==> #[trigger] picker@.availability[p] == count_having(
                        goal.peers.take(i as int),
                        p,
                    ),
                forall|j: int| 0 <= j < i ==> (#[trigger] self@.peers[j]) == goal.peers[j],
                forall|j: int|
                    i <= j < self.peers@.len() ==> (#[trigger] self@.peers[j]) == before.peers[j],
                self@ == (SessionModel { peers: self@.peers, ..before }),
            decreases self.peers@.len() - i,
        {
            let ghost prior = self@;
            let ghost seen = picker@.availability;
            assert(self@.peers[i as int] == before.peers[i as int]);
            assert(goal.peers.take(i + 1).drop_last() =~= goal.peers.take(i as int));
            if self.peers[i].1.announced_have_all {
                self.peers[i].1.have = all_pieces(count as usize);
                picker.observe_peer_bitfield(self.peers[i].1.have.as_slice());
            } else {
                self.peers[i].1.have = no_pieces(count as usize);
            }
            assert(self@.peers[i as int].1.have =~= goal.peers[i as int].1.have);
            assert(self@.peers[i as int] =~= goal.peers[i as int]);
            assert(forall|j: int|
                0 <= j < self.peers@.len() && j != i ==> (#[trigger] self@.peers[j])
                    == prior.peers[j]);
            assert forall|p: int| 0 <= p < count implies #[trigger] picker@.availability[p]
                == count_having(goal.peers.take(i + 1), p) by {
                lemma_count_bound(goal.peers.take(i as int), p);
                assert(seen[p] == count_having(goal.peers.take(i as int), p));
            }
            assert(self@ =~= (SessionModel { peers: self@.peers, ..before }));
            i = i + 1;
        }
        assert(goal.peers.take(i as int) =~= goal.peers);
        assert(self@.peers =~= goal.peers);
        self.info_dict_bytes = Some(info_bytes);
        self.params = params;
        self.picker = picker;
        self.metadata_assembler = None;
        assert(self@.picker.availability =~= goal.picker.availability);
        assert(self@ =~= goal);
    }

    /// A peer exchange message came.
    fn handle_pex_inbound(&mut self, slot: PeerSlot, now: u64, msg: Option<&PexMessage>)
        requires
            old(self).wf(),
        ensures
            final(self).wf(),
            final(self)@ == old(self)@.on_pex(
                slot,
                now,
                match msg {
                    Some(m) => Some(m.added@),
                    None => None,
                },
            ),
    {
        if !self.pex.is_enabled() || !self.pex.should_accept_from(slot, now) {
            return;
        }
        let current: usize = self.peers.len();
        if current >= self.peer_cap {
            return;
        }
        if let Some(m) = msg {
            self.pex.record_received(slot, now);
            let room: usize = self.peer_cap - current;
            let n: usize = if m.added.len() <= room {
                m.added.len()
            } else {
                room
            };
            let ghost before = self@;
            let ghost base = self.pex_discovered@;
            let mut i: usize = 0;
            assert(base + Seq::new(0nat, |j: int| m.added@[j].addr) =~= base);
            while i < n
                invariant
                    i <= n,
                    n <= m.added@.len(),
                    self.wf(),
                    self.pex_discovered@ == base + Seq::new(i as nat, |j: int| m.added@[j].addr),
                    self@ == (SessionModel { discovered: self.pex_discovered@, ..before }),
                decreases n - i,
            {
                self.pex_discovered.push(m.added[i].addr);
                assert(self.pex_discovered@ =~= base + Seq::new(
                    (i + 1) as nat,
                    |j: int| m.added@[j].addr,
                ));
                assert(self@ =~= (SessionModel { discovered: self.pex_discovered@, ..before }));
                i = i + 1;
            }
            assert(self@ =~= old(self)@.on_pex(slot, now, Some(m.added@)));
        }
    }

    /// The peers whose addresses are known.
    fn known_addrs(&self) -> (r: Vec<(PeerSlot, PeerAddr)>)
        ensures
            r@ == self@.known_addrs(),
    {
        let ghost peers = self@.peers;
        let mut out: Vec<(PeerSlot, PeerAddr)> = Vec::new();
        let mut i: usize = 0;
        assert(peers.take(0) =~= Seq::<(PeerSlot, PeerModel)>::empty());
        while i < self.peers.len()
            invariant
                i <= self.peers@.len(),
                peers == self@.peers,
                out@ == addrs_known(peers.take(i as int)),
            decreases self.peers@.len() - i,
        {
            assert(peers.take(i + 1).drop_last() =~= peers.take(i as int));
            if let Some(a) = self.peers[i].1.addr {
                out.push((self.peers[i].0, a));
            }
            i = i + 1;
        }
        assert(peers.take(i as int) =~= peers);
        out
    }

    /// A round of peer exchange: every peer that is due hears what changed.
    pub fn send_pex_round(&mut self, now: u64, out: &mut Vec<Action>)
        requires
            old(self).wf(),
        ensures
            final(self).wf(),
            final(self)@ == old(self)@.pex_round(now).0,
            deeds(final(out)@) == deeds(old(out)@) + old(self)@.pex_round(now).1,
    {
        proof {
            assert(deeds(out@) + Seq::<Deed>::empty() =~= deeds(out@));
        }
        if !self.pex.is_enabled() {
            return;
        }
        let current = self.known_addrs();
        let ghost before = self@;
        let ghost cur = addrs_of(before.known_addrs());
        let msg = match self.pex.build_message(&current) {
            None => {
                assert(self@ =~= before);
                return;
            },
            Some(m) => m,
        };
        let ghost told = SessionModel { pex: before.pex.told(cur), ..before };
        assert(self@ =~= told);
        let ghost note = PeerNote::SendExtended(ExtensionNote::Pex(msg.added@, msg.dropped@));
        let slots = self.slots();
        let mut i: usize = 0;
        assert(slots@.take(0) =~= Seq::<PeerSlot>::empty());
        while i < slots.len()
            invariant
                i <= slots@.len(),
                self.wf(),
                note == PeerNote::SendExtended(ExtensionNote::Pex(msg.added@, msg.dropped@)),
                self@ == told.pex_to(slots@.take(i as int), note, now).0,
                deeds(out@) == deeds(old(out)@) + told.pex_to(slots@.take(i as int), note, now).1,
            decreases slots@.len() - i,
        {
            let slot = slots[i];
            let ghost mid = self@;
            assert(slots@.take(i + 1).drop_last() =~= slots@.take(i as int));
            if self.pex.should_send_to(slot, now) {
                let added = msg.added.clone();
                let dropped = msg.dropped.clone();
                assert(added@ =~= msg.added@);
                assert(dropped@ =~= msg.dropped@);
                tell(
                    out,
                    slot,
                    SessionToPeer::SendExtended {
                        payload: ExtensionPayload::Pex(PexMessage { added, dropped }),
                    },
                );
                self.pex.record_sent(slot, now);
                assert(self@ =~= (SessionModel {
                    pex: PexModel { sent: mid.pex.sent.insert(slot.0, now), ..mid.pex },
                    ..mid
                }));
                assert(deeds(out@) =~= deeds(old(out)@) + told.pex_to(
                    slots@.take(i + 1),
                    note,
                    now,
                ).1);
            }
            i = i + 1;
        }
        assert(slots@.take(i as int) =~= slots@);
        assert(msg.added@ =~= Seq::new(
            before.pex.added(cur).len(),
            |i: int| PexPeer { addr: before.pex.added(cur)[i], flags: 0 },
        ));
    }

    /// What a peer task said, at time `now`.
    pub fn handle(&mut self, msg: PeerToSession, now: u64, out: &mut Vec<Action>)
        requires
            old(self).wf(),
        ensures
            final(self).wf(),
            final(self)@ == on_message(old(self)@, msg, now).0,
            deeds(final(out)@) == deeds(old(out)@) + on_message(old(self)@, msg, now).1,
    {
        proof {
            assert(deeds(out@) + Seq::<Deed>::empty() =~= deeds(out@));
        }
        match msg {
            PeerToSession::Connected { slot, peer_id: _, supports_fast, addr } => {
                self.handle_connected(slot, supports_fast, addr, out);
            },
            PeerToSession::Disconnected { slot, reason: _ } => {
                self.handle_disconnected(slot, out);
            },
            PeerToSession::Choked { slot } => {
                self.handle_choked(slot);
            },
            PeerToSession::Unchoked { slot } => {
                self.handle_unchoked(slot);
            },
            PeerToSession::Have { slot, piece } => {
                self.handle_have(slot, piece, out);
            },
            PeerToSession::Bitfield { slot, bytes } => {
                self.handle_bitfield(slot, blob_bytes(&bytes), out);
            },
            PeerToSession::HaveAll { slot } => {
                let all = all_pieces(self.params.piece_count as usize);
                self.set_peer_have(slot, all, true);
                self.maybe_express_interest(slot, out);
            },
            PeerToSession::HaveNone { slot } => {
                let none = no_pieces(self.params.piece_count as usize);
                self.set_peer_have(slot, none, false);
                self.maybe_express_interest(slot, out);
            },
            PeerToSession::Rejected { slot, req } => {
                self.release_block_claim(slot, req);
            },
            PeerToSession::BlockReceived { slot, piece, offset, data } => {
                self.handle_block(slot, piece, offset, blob_bytes(&data), out);
            },
            PeerToSession::Interested { slot } => {
                self.handle_peer_interest(slot, true, out);
            },
            PeerToSession::NotInterested { slot } => {
                self.handle_peer_interest(slot, false, out);
            },
            PeerToSession::BlockRequested { slot, req } => {
                self.handle_block_request(slot, req, out);
            },
            PeerToSession::RequestCancelled { slot: _, req: _ } => {},
            PeerToSession::ExtensionHandshake { slot, metadata_size, listen_port } => {
                self.handle_extension_handshake(slot, metadata_size, listen_port, out);
            },
            PeerToSession::ExtensionMessage { slot, input } => {
                self.handle_extension_message(slot, input, now, out);
            },
        }
    }

    /// An extension message came.
    fn handle_extension_message(
        &mut self,
        slot: PeerSlot,
        input: ExtensionInput,
        now: u64,
        out: &mut Vec<Action>,
    )
        requires
            old(self).wf(),
        ensures
            final(self).wf(),
            final(self)@ == on_extension(old(self)@, slot, input, now).0,
            deeds(final(out)@) == deeds(old(out)@) + on_extension(old(self)@, slot, input, now).1,
    {
        proof {
            assert(deeds(out@) + Seq::<Deed>::empty() =~= deeds(out@));
        }
        match input {
            ExtensionInput::Metadata(msg) => {
                if let Some(m) = msg {
                    self.handle_ut_metadata(slot, m, out);
                }
            },
            ExtensionInput::Pex(msg) => {
                match msg {
                    Some(m) => self.handle_pex_inbound(slot, now, Some(&m)),
                    None => self.handle_pex_inbound(slot, now, None),
                }
            },
            ExtensionInput::Other => {},
        }
    }
}

/// What an extension message does to a session. One that could not be decoded
/// does nothing, and neither does one of an unknown name.
pub open spec fn on_extension(
    m: SessionModel,
    slot: PeerSlot,
    input: ExtensionInput,
    now: u64,
) -> Step {
    match input {
        ExtensionInput::Metadata(msg) => match msg {
            Some(note) => m.on_metadata_message(slot, note@),
            None => (m, Seq::empty()),
        },
        ExtensionInput::Pex(msg) => (
            m.on_pex(
                slot,
                now,
                match msg {
                    Some(p) => Some(p.added@),
                    None => None,
                },
            ),
            Seq::empty(),
        ),
        ExtensionInput::Other => (m, Seq::empty()),
    }
}

/// What word from a peer task does to a session.
pub open spec fn on_message(m: SessionModel, msg: PeerToSession, now: u64) -> Step {
    match msg {
        PeerToSession::Connected { slot, peer_id: _, supports_fast, addr } => m.on_connected(
            slot,
            supports_fast,
            addr,
        ),
        PeerToSession::Disconnected { slot, reason: _ } => m.on_disconnected(slot),
        PeerToSession::Choked { slot } => (m.on_choked(slot), Seq::empty()),
        PeerToSession::Unchoked { slot } => (m.on_unchoked(slot), Seq::empty()),
        PeerToSession::Have { slot, piece } => m.on_have(slot, piece),
        PeerToSession::Bitfield { slot, bytes } => m.on_bitfield(
            slot,
            unpacked(blob(bytes), m.params.piece_count),
        ),
        PeerToSession::HaveAll { slot } => m.on_have_all(slot),
        PeerToSession::HaveNone { slot } => m.on_have_none(slot),
        PeerToSession::Rejected { slot, req } => (m.release_block(slot, req), Seq::empty()),
        PeerToSession::BlockReceived { slot, piece, offset, data } => m.on_block(
            slot,
            piece,
            offset,
            blob(data),
        ),
        PeerToSession::Interested { slot } => m.on_interest(slot, true),
        PeerToSession::NotInterested { slot } => m.on_interest(slot, false),
        PeerToSession::BlockRequested { slot, req } => (m, m.on_block_requested(slot, req)),
        PeerToSession::RequestCancelled { slot: _, req: _ } => (m, Seq::empty()),
        PeerToSession::ExtensionHandshake { slot, metadata_size, listen_port } =>
            m.on_extension_handshake(slot, metadata_size, listen_port),
        PeerToSession::ExtensionMessage { slot, input } => on_extension(m, slot, input, now),
    }
}

/// The outcome of parsing, borrowed.
pub open spec fn by_ref<'a>(parsed: Result<Info, String>) -> Result<&'a Info, String> {
    match parsed {
        Ok(info) => Ok(&info),
        Err(why) => Err(why),
    }
}

/// The session can go on from metadata that was hashed and parsed: its length
/// can be counted; and where it is good, the session can work with what it
/// declares, and what is being downloaded already are pieces of it.
pub open spec fn metadata_fits(
    m: SessionModel,
    digest: Seq<u8>,
    parsed: Result<&Info, String>,
) -> bool {
    &&& m.failures < u32::MAX
    &&& (parsed is Ok && parsed->Ok_0.v1 is Some) ==> parsed->Ok_0.v1->0.files.total() <= u64::MAX
    &&& (m.metadata is Some && metadata_fault(m.metadata->0, digest, parsed) is None) ==> {
        &&& params_from(*parsed->Ok_0).workable()
        &&& m.pieces_wf(params_from(*parsed->Ok_0))
    }
}

/// Something that happens to a session.
#[derive(Debug)]
pub enum SessionEvent {
    /// The engine said something.
    Command(SessionCommand),
    /// The disk is done with a piece.
    Completion {
        /// Piece index.
        piece: u32,
        /// How it went.
        result: Result<(), DiskError>,
    },
    /// The disk could not be reached with a piece.
    DiskGone {
        /// Piece index.
        piece: u32,
    },
    /// Metadata that was handed out was hashed and parsed.
    MetadataVerified {
        /// Its SHA-1.
        digest: [u8; 20],
        /// What parsing it gave.
        parsed: Result<Info, String>,
    },
    /// A peer task said something.
    Peer(PeerToSession),
    /// It is time for a round of peer exchange.
    PexTick,
    /// One of the session's sources ended.
    Closed,
}

/// How a session goes on after an event.
#[derive(Debug)]
pub enum Turn {
    /// It waits for the next event.
    Go,
    /// It hands out addresses that peer exchange found.
    Discovered(Vec<PeerAddr>),
    /// It hands out which pieces are here.
    Have(Vec<bool>),
    /// It is over, with the torrent in this state.
    Stop(TorrentState),
}

/// The event can happen to this session: there is room for a peer that comes, a
/// piece that was written is one of the torrent's, and metadata fits.
pub open spec fn possible(m: SessionModel, event: SessionEvent) -> bool {
    match event {
        SessionEvent::Command(SessionCommand::RegisterPeer { .. }) => m.peers.len() < u32::MAX,
        SessionEvent::Completion { piece, result } => result is Ok ==> piece < m.params.piece_count,
        SessionEvent::MetadataVerified { digest, parsed } => metadata_fits(
            m,
            digest@,
            by_ref(parsed),
        ),
        _ => true,
    }
}

/// The event ends the session.
pub open spec fn ends(event: SessionEvent) -> bool {
    event is Closed || event == SessionEvent::Command(SessionCommand::Shutdown)
}

/// What an event by itself does to a session.
pub open spec fn on_event(m: SessionModel, event: SessionEvent, now: u64) -> Step {
    match event {
        SessionEvent::Command(SessionCommand::RegisterPeer { slot, max_in_flight, supports_fast }) =>
            m.register(slot, max_in_flight, supports_fast),
        SessionEvent::Command(SessionCommand::Pause) => m.pausing(true),
        SessionEvent::Command(SessionCommand::Resume) => m.pausing(false),
        SessionEvent::Command(SessionCommand::Shutdown) => (m, m.to_all(PeerNote::Shutdown)),
        SessionEvent::Command(SessionCommand::DrainPexDiscovered) => (
            SessionModel { discovered: Seq::empty(), ..m },
            Seq::empty(),
        ),
        SessionEvent::Command(SessionCommand::BitfieldSnapshot) => (m, Seq::empty()),
        SessionEvent::Completion { piece, result } => m.on_completion(piece, result),
        SessionEvent::DiskGone { piece } => m.on_disk_gone(piece),
        SessionEvent::MetadataVerified { digest, parsed } => m.on_metadata_verified(
            digest@,
            by_ref(parsed),
        ),
        SessionEvent::Peer(msg) => on_message(m, msg, now),
        SessionEvent::PexTick => m.pex_round(now),
        SessionEvent::Closed => (m, m.to_all(PeerNote::Shutdown)),
    }
}

/// What an event does to a session, with the scheduling that follows it: blocks
/// are asked for after every event, unless the session is over, complete or
/// paused.
pub open spec fn after_event(m: SessionModel, event: SessionEvent, now: u64) -> Step {
    let (mid, first) = on_event(m, event, now);
    if ends(event) || !(mid.state is Downloading) || mid.paused {
        (mid, first)
    } else {
        let (end, rest) = mid.scheduled();
        (end, first + rest)
    }
}

impl TorrentSession {
    /// Tells every peer task to end.
    fn shut_down(&self, out: &mut Vec<Action>)
        ensures
            deeds(final(out)@) == deeds(old(out)@) + self@.to_all(PeerNote::Shutdown),
    {
        let ghost all = self@.to_all(PeerNote::Shutdown);
        let mut i: usize = 0;
        assert(deeds(out@) =~= deeds(old(out)@) + all.take(0));
        while i < self.peers.len()
            invariant
                i <= self.peers@.len(),
                all == self@.to_all(PeerNote::Shutdown),
                deeds(out@) == deeds(old(out)@) + all.take(i as int),
            decreases self.peers@.len() - i,
        {
            tell(out, self.peers[i].0, SessionToPeer::Shutdown);
            assert(deeds(out@) =~= deeds(old(out)@) + all.take(i + 1));
            i = i + 1;
        }
        assert(all.take(i as int) =~= all);
    }

    /// Takes one event in, at time `now`, and asks for blocks afterwards where
    /// that is in order.
    pub fn advance(&mut self, event: SessionEvent, now: u64, out: &mut Vec<Action>) -> (r: Turn)
        requires
            old(self).wf(),
            possible(old(self)@, event),
        ensures
            final(self).wf(),
            final(self)@ == after_event(old(self)@, event, now).0,
            deeds(final(out)@) == deeds(old(out)@) + after_event(old(self)@, event, now).1,
            match r {
                Turn::Stop(state) => ends(event) && state == old(self)@.state,
                Turn::Discovered(addrs) => event == SessionEvent::Command(
                    SessionCommand::DrainPexDiscovered,
                ) && addrs@ == old(self)@.discovered,
                Turn::Have(have) => event == SessionEvent::Command(
                    SessionCommand::BitfieldSnapshot,
                ) && have@ == old(self)@.picker.have,
                Turn::Go => !ends(event) && event != SessionEvent::Command(
                    SessionCommand::DrainPexDiscovered,
                ) && event != SessionEvent::Command(SessionCommand::BitfieldSnapshot),
            },
    {
        let ghost before = self@;
        let ghost told = deeds(out@);
        proof {
            assert(deeds(out@) + Seq::<Deed>::empty() =~= deeds(out@));
        }
        let turn = match event {
            SessionEvent::Closed => {
                self.shut_down(out);
                return Turn::Stop(self.state);
            },
            SessionEvent::Command(SessionCommand::Shutdown) => {
                self.shut_down(out);
                return Turn::Stop(self.state);
            },
            SessionEvent::Command(SessionCommand::RegisterPeer {
                slot,
                max_in_flight,
                supports_fast,
            }) => {
                let _new = self.register_peer_with(slot, max_in_flight, supports_fast, out);
                Turn::Go
            },
            SessionEvent::Command(SessionCommand::Pause) => {
                self.set_paused(true, out);
                Turn::Go
            },
            SessionEvent::Command(SessionCommand::Resume) => {
                self.set_paused(false, out);
                Turn::Go
            },
            SessionEvent::Command(SessionCommand::DrainPexDiscovered) => {
                Turn::Discovered(self.drain_pex_discovered())
            },
            SessionEvent::Command(SessionCommand::BitfieldSnapshot) => {
                Turn::Have(self.have_snapshot())
            },
            SessionEvent::Completion { piece, result } => {
                self.handle_completion(piece, result, out);
                Turn::Go
            },
            SessionEvent::DiskGone { piece } => {
                self.handle_disk_gone(piece, out);
                Turn::Go
            },
            SessionEvent::MetadataVerified { digest, parsed } => {
                match parsed {
                    Ok(info) => self.handle_metadata_verified(&digest, Ok(&info), out),
                    Err(why) => self.handle_metadata_verified(&digest, Err(why), out),
                }
                Turn::Go
            },
            SessionEvent::Peer(msg) => {
                self.handle(msg, now, out);
                Turn::Go
            },
            SessionEvent::PexTick => {
                self.send_pex_round(now, out);
                Turn::Go
            },
        };
        let ghost (mid, first) = on_event(before, event, now);
        assert(self@ == mid);
        assert(deeds(out@) == told + first);
        if self.state == TorrentState::Downloading && !self.paused {
            self.schedule(out);
            proof {
                let (end, rest) = mid.scheduled();
                assert(deeds(out@) =~= told + (first + rest));
            }
        }
        turn
    }
}

} // verus!
