//! The rules of a torrent session: how each event changes it and what it asks
//! for.
use crate::alerts::category::{Alert, AlertErrorCode};
use crate::ids::{PeerSlot, TorrentId};
use crate::keyed::{find_key, keys_distinct};
use crate::net::PeerAddr;
use crate::picker::{count_missing, PickerModel};
use crate::session::bitfield::packs;
use crate::session::disk::DiskError;
use crate::session::info::Info;
use crate::session::messages::{Deed, ExtensionNote, MetadataNote, PeerNote};
use crate::session::metadata_exchange::{
    metadata_fault, params_from, AssemblerModel, METADATA_PIECE_SIZE,
};
use crate::session::params::{parts, BlockRequest, ParamsModel, BLOCK_SIZE};
use crate::session::pex::{addrs_of, PexModel, PexPeer};
use vstd::prelude::*;

verus! {

/// Whether a torrent is still downloading.
#[derive(Debug, Clone, Copy, PartialEq, Eq, Structural)]
pub enum TorrentState {
    /// Pieces are missing.
    Downloading,
    /// All pieces are verified and written.
    Completed,
}

/// What a session knows of a peer.
#[verifier::ext_equal]
pub struct PeerModel {
    /// The pieces that the peer has.
    pub have: Seq<bool>,
    /// The peer chokes us.
    pub choking_us: bool,
    /// We told the peer that we are interested.
    pub we_are_interested: bool,
    /// Requests under way on this peer.
    pub in_flight: u32,
    /// Most requests that may be under way.
    pub max_in_flight: u32,
    /// The peer is interested in us.
    pub peer_interested: bool,
    /// We choke the peer.
    pub we_choking: bool,
    /// Both sides speak the Fast extension.
    pub supports_fast: bool,
    /// The peer's address, if known.
    pub addr: Option<PeerAddr>,
    /// The peer said that it has every piece.
    pub announced_have_all: bool,
}

/// What a session knows of a piece that it is downloading.
#[verifier::ext_equal]
pub struct PieceModel {
    /// The bytes so far; given away once the piece is complete.
    pub buffer: Seq<u8>,
    /// The blocks that are here.
    pub received: Seq<bool>,
    /// For each block, the peer that was asked for it.
    pub claimed: Seq<Option<PeerSlot>>,
}

/// What a session holds.
#[verifier::ext_equal]
pub struct SessionModel {
    /// The torrent's handle.
    pub id: TorrentId,
    /// The torrent's parameters.
    pub params: ParamsModel,
    /// The torrent's info hash.
    pub info_hash: Seq<u8>,
    /// Which pieces are here, and who has which.
    pub picker: PickerModel,
    /// Pieces being downloaded.
    pub in_progress: Seq<(u32, PieceModel)>,
    /// Connected peers, in the order in which they came.
    pub peers: Seq<(PeerSlot, PeerModel)>,
    /// Downloading or complete.
    pub state: TorrentState,
    /// Completion was announced, or the torrent was complete from the start.
    pub completion_fired: bool,
    /// Nothing is scheduled or served.
    pub paused: bool,
    /// Metadata being fetched, for a magnet link.
    pub metadata: Option<AssemblerModel>,
    /// The info dictionary, where it is known.
    pub info_dict: Option<Seq<u8>>,
    /// How often fetched metadata was no good.
    pub failures: u32,
    /// Peer exchange.
    pub pex: PexModel,
    /// Addresses found by peer exchange.
    pub discovered: Seq<PeerAddr>,
    /// Time between two rounds of peer exchange.
    pub pex_interval: u64,
    /// Most peers that are wanted.
    pub peer_cap: nat,
}

/// A session after an event, and what it asks for.
pub type Step = (SessionModel, Seq<Deed>);

/// The packed form of `have`.
pub open spec fn packed_of(have: Seq<bool>) -> Seq<u8> {
    choose|p: Seq<u8>| packs(p, have)
}

/// A peer that just came.
pub open spec fn new_peer(piece_count: u32, max_in_flight: u32) -> PeerModel {
    PeerModel {
        have: Seq::new(piece_count as nat, |i: int| false),
        choking_us: true,
        we_are_interested: false,
        in_flight: 0,
        max_in_flight,
        peer_interested: false,
        we_choking: true,
        supports_fast: false,
        addr: None,
        announced_have_all: false,
    }
}

/// A piece of which nothing is here.
pub open spec fn new_piece(size: u32) -> PieceModel {
    PieceModel {
        buffer: Seq::new(size as nat, |i: int| 0u8),
        received: Seq::new(parts(size as int, BLOCK_SIZE as int) as nat, |i: int| false),
        claimed: Seq::new(parts(size as int, BLOCK_SIZE as int) as nat, |i: int| None),
    }
}

/// The size of block `idx` in a piece of `size` bytes.
pub open spec fn block_size(idx: int, size: u32) -> int {
    if size - idx * BLOCK_SIZE <= BLOCK_SIZE {
        size - idx * BLOCK_SIZE
    } else {
        BLOCK_SIZE as int
    }
}

/// The request for block `idx` of `piece`.
pub open spec fn block_request(piece: u32, idx: int, size: u32) -> BlockRequest {
    BlockRequest {
        piece,
        offset: (idx * BLOCK_SIZE) as u32,
        length: block_size(idx, size) as u32,
    }
}

/// How many peers have piece `p`.
pub open spec fn count_having(peers: Seq<(PeerSlot, PeerModel)>, p: int) -> nat
    decreases peers.len(),
{
    if peers.len() == 0 {
        0
    } else {
        count_having(peers.drop_last(), p) + if peers.last().1.have[p] {
            1nat
        } else {
            0nat
        }
    }
}

impl PeerModel {
    /// The peer may be asked for one more block.
    pub open spec fn can_request(self) -> bool {
        !self.choking_us && self.in_flight < self.max_in_flight
    }
}

impl PieceModel {
    /// Every block is here.
    pub open spec fn full(self) -> bool {
        forall|i: int| 0 <= i < self.received.len() ==> #[trigger] self.received[i]
    }

    /// Block `i` is neither here nor asked for.
    pub open spec fn free(self, i: int) -> bool {
        0 <= i < self.received.len() && !self.received[i] && self.claimed[i] is None
    }

    /// The first block from `i` on that is neither here nor asked for.
    pub open spec fn first_free(self, i: int) -> Option<int>
        decreases self.received.len() - i,
    {
        if i < 0 || i >= self.received.len() {
            None
        } else if self.free(i) {
            Some(i)
        } else {
            self.first_free(i + 1)
        }
    }

    /// With every claim of `slot` gone.
    pub open spec fn unclaimed(self, slot: PeerSlot) -> PieceModel {
        PieceModel {
            claimed: Seq::new(
                self.claimed.len(),
                |i: int|
                    if self.claimed[i] == Some(slot) {
                        None
                    } else {
                        self.claimed[i]
                    },
            ),
            ..self
        }
    }

    /// With block `idx` here.
    pub open spec fn filled(self, idx: int, offset: int, data: Seq<u8>) -> PieceModel {
        PieceModel {
            buffer: self.buffer.take(offset) + data + self.buffer.skip(offset + data.len()),
            received: self.received.update(idx, true),
            claimed: self.claimed.update(idx, None),
        }
    }

    /// As many claims as blocks, all of them inside a piece of `size` bytes, and
    /// nothing asked for that is here.
    pub open spec fn wf(self, size: u32) -> bool {
        &&& self.received.len() == self.claimed.len()
        &&& (self.received.len() - 1) * BLOCK_SIZE < size
        &&& self.buffer.len() <= u32::MAX
        &&& forall|i: int|
            0 <= i < self.claimed.len() ==> (#[trigger] self.claimed[i]) is Some
                ==> !self.received[i]
    }
}

impl SessionModel {
    /// A session that just started.
    pub open spec fn fresh(
        id: TorrentId,
        params: ParamsModel,
        info_hash: Seq<u8>,
        peer_cap: nat,
        pex_interval: u64,
    ) -> SessionModel {
        SessionModel {
            id,
            params,
            info_hash,
            picker: PickerModel::fresh(params.piece_count),
            in_progress: Seq::empty(),
            peers: Seq::empty(),
            state: TorrentState::Downloading,
            completion_fired: false,
            paused: false,
            metadata: None,
            info_dict: None,
            failures: 0,
            pex: PexModel {
                advertised: Seq::empty(),
                sent: Map::empty(),
                received: Map::empty(),
                enabled: !params.private,
            },
            discovered: Seq::empty(),
            pex_interval,
            peer_cap,
        }
    }

    /// What every session keeps that can work with its parameters.
    pub open spec fn wf(self) -> bool {
        &&& self.params.workable()
        &&& self.sound()
    }

    /// What a session keeps whatever its parameters.
    pub open spec fn sound(self) -> bool {
        &&& self.picker.wf()
        &&& self.picker.have.len() == self.params.piece_count
        &&& self.peers_wf()
        &&& self.counts_exact()
        &&& self.pieces_wf(self.params)
        &&& self.claims_known()
        &&& self.paused ==> self.all_choked()
        &&& self.completion_fired <==> self.state is Completed
        &&& self.metadata is Some ==> self.metadata->0.wf()
        &&& self.pex.wf()
    }

    /// Every peer stands once, knows about every piece, and has no more requests
    /// under way than it may.
    pub open spec fn peers_wf(self) -> bool {
        &&& keys_distinct(self.peers)
        &&& self.peers.len() <= u32::MAX
        &&& forall|i: int|
            0 <= i < self.peers.len() ==> {
                &&& (#[trigger] self.peers[i]).1.have.len() == self.params.piece_count
                &&& self.peers[i].1.in_flight <= self.peers[i].1.max_in_flight
            }
    }

    /// Every peer is choked.
    pub open spec fn all_choked(self) -> bool {
        forall|i: int| 0 <= i < self.peers.len() ==> (#[trigger] self.peers[i]).1.we_choking
    }

    /// For each piece, the picker counts exactly the connected peers that have
    /// it.
    pub open spec fn counts_exact(self) -> bool {
        forall|p: int|
            0 <= p < self.params.piece_count ==> #[trigger] self.picker.availability[p]
                == count_having(self.peers, p)
    }

    /// The pieces being downloaded are pieces of a torrent with these
    /// parameters, each once.
    pub open spec fn pieces_wf(self, params: ParamsModel) -> bool {
        &&& keys_distinct(self.in_progress)
        &&& forall|i: int|
            0 <= i < self.in_progress.len() ==> {
                &&& (#[trigger] self.in_progress[i]).0 < params.piece_count
                &&& self.in_progress[i].1.wf(params.size_of(self.in_progress[i].0 as int))
            }
    }

    /// Blocks are asked of connected peers only.
    pub open spec fn claims_known(self) -> bool {
        forall|i: int, b: int|
            0 <= i < self.in_progress.len() && 0 <= b < self.in_progress[i].1.claimed.len()
                && #[trigger] self.in_progress[i].1.claimed[b] is Some ==> find_key(
                self.peers,
                self.in_progress[i].1.claimed[b]->0,
            ) is Some
    }

    /// The session with peer `i` changed.
    pub open spec fn set_peer(self, i: int, p: PeerModel) -> SessionModel {
        SessionModel { peers: self.peers.update(i, (self.peers[i].0, p)), ..self }
    }

    /// The session with the piece at place `i` changed.
    pub open spec fn set_piece(self, i: int, p: PieceModel) -> SessionModel {
        SessionModel {
            in_progress: self.in_progress.update(i, (self.in_progress[i].0, p)),
            ..self
        }
    }

    /// A peer with these pieces has one that is missing here.
    pub open spec fn wants(self, have: Seq<bool>) -> bool {
        exists|i: int| 0 <= i < have.len() && #[trigger] have[i] && !self.picker.have[i]
    }

    /// Refusing to go on with a peer: it is shut down, and an alert says why.
    pub open spec fn kick(self, slot: PeerSlot, code: AlertErrorCode) -> Seq<Deed> {
        let alert = Deed::Raise(Alert::Error { torrent: self.id, code });
        if find_key(self.peers, slot) is Some {
            seq![Deed::Send(slot, PeerNote::Shutdown), alert]
        } else {
            seq![alert]
        }
    }

    /// A peer comes: it is told which pieces are here, in the shortest form that
    /// it understands.
    pub open spec fn register(self, slot: PeerSlot, max_in_flight: u32, fast: bool) -> Step {
        let missing: nat = count_missing(self.picker.have);
        let advert = if fast && missing == 0 {
            PeerNote::SendHaveAll
        } else if fast && missing == self.params.piece_count {
            PeerNote::SendHaveNone
        } else {
            PeerNote::SendBitfield(packed_of(self.picker.have))
        };
        if find_key(self.peers, slot) is Some {
            (self, Seq::empty())
        } else {
            (
                SessionModel {
                    peers: self.peers.push(
                        (slot, new_peer(self.params.piece_count, max_in_flight)),
                    ),
                    ..self
                },
                seq![Deed::Send(slot, advert)],
            )
        }
    }

    /// Pieces that were here from the start. A list of the wrong length counts
    /// for nothing.
    pub open spec fn with_initial(self, have: Seq<bool>) -> SessionModel {
        if have.len() != self.params.piece_count {
            self
        } else {
            let all = Seq::new(have.len(), |i: int| self.picker.have[i] || have[i]);
            let picker = PickerModel { have: all, ..self.picker };
            if count_missing(all) == 0 {
                SessionModel {
                    picker,
                    state: TorrentState::Completed,
                    completion_fired: true,
                    ..self
                }
            } else {
                SessionModel { picker, ..self }
            }
        }
    }

    /// Interest in a peer follows whether it has anything that is missing.
    pub open spec fn interest(self, slot: PeerSlot) -> Step {
        match find_key(self.peers, slot) {
            None => (self, Seq::empty()),
            Some(i) => {
                let p = self.peers[i].1;
                let want = self.wants(p.have);
                if want != p.we_are_interested {
                    (
                        self.set_peer(i, PeerModel { we_are_interested: want, ..p }),
                        seq![Deed::Send(slot, PeerNote::SetInterested(want))],
                    )
                } else {
                    (self, Seq::empty())
                }
            },
        }
    }

    /// Interest in each of `slots`, one after the other.
    pub open spec fn interest_all(self, slots: Seq<PeerSlot>) -> Step
        decreases slots.len(),
    {
        if slots.len() == 0 {
            (self, Seq::empty())
        } else {
            let (mid, first) = self.interest_all(slots.drop_last());
            let (end, last) = mid.interest(slots.last());
            (end, first + last)
        }
    }

    /// The pieces of peer `slot` are `have` now.
    pub open spec fn peer_has(self, slot: PeerSlot, have: Seq<bool>, all: bool) -> SessionModel {
        match find_key(self.peers, slot) {
            None => self,
            Some(i) => {
                let p = self.peers[i].1;
                SessionModel {
                    picker: self.picker.forgotten(p.have).observed(have),
                    ..self.set_peer(
                        i,
                        PeerModel { have, announced_have_all: p.announced_have_all || all, ..p },
                    )
                }
            },
        }
    }

    /// Every claim of `slot` is gone.
    pub open spec fn released(self, slot: PeerSlot) -> SessionModel {
        SessionModel {
            in_progress: Seq::new(
                self.in_progress.len(),
                |i: int| (self.in_progress[i].0, self.in_progress[i].1.unclaimed(slot)),
            ),
            ..self
        }
    }

    /// One request less is under way on `slot`, and its claim on that block is
    /// gone.
    pub open spec fn release_block(self, slot: PeerSlot, req: BlockRequest) -> SessionModel {
        let mid = match find_key(self.peers, slot) {
            None => self,
            Some(i) => {
                let p = self.peers[i].1;
                self.set_peer(
                    i,
                    PeerModel {
                        in_flight: if p.in_flight > 0 {
                            (p.in_flight - 1) as u32
                        } else {
                            0
                        },
                        ..p
                    },
                )
            },
        };
        let idx: int = (req.offset / BLOCK_SIZE) as int;
        match find_key(mid.in_progress, req.piece) {
            None => mid,
            Some(k) => {
                let q = mid.in_progress[k].1;
                if idx < q.claimed.len() && q.claimed[idx] == Some(slot) {
                    mid.set_piece(k, PieceModel { claimed: q.claimed.update(idx, None), ..q })
                } else {
                    mid
                }
            },
        }
    }

    /// A peer came through its handshake.
    pub open spec fn on_connected(
        self,
        slot: PeerSlot,
        fast: bool,
        addr: Option<PeerAddr>,
    ) -> Step {
        let next = match find_key(self.peers, slot) {
            None => self,
            Some(i) => self.set_peer(
                i,
                PeerModel { supports_fast: fast, addr, ..self.peers[i].1 },
            ),
        };
        (next, seq![Deed::Raise(Alert::PeerConnected { torrent: self.id, peer: slot })])
    }

    /// A peer went: what it had no longer counts and what it was asked for is
    /// free.
    pub open spec fn on_disconnected(self, slot: PeerSlot) -> Step {
        let next = match find_key(self.peers, slot) {
            None => self,
            Some(i) => SessionModel {
                peers: self.peers.remove(i),
                picker: self.picker.forgotten(self.peers[i].1.have),
                ..self.released(slot)
            },
        };
        (
            SessionModel { pex: self.pex.without_peer(slot), ..next },
            seq![Deed::Raise(Alert::PeerDisconnected { torrent: self.id, peer: slot })],
        )
    }

    /// A peer chokes us: nothing is under way on it.
    pub open spec fn on_choked(self, slot: PeerSlot) -> SessionModel {
        let next = match find_key(self.peers, slot) {
            None => self,
            Some(i) => self.set_peer(
                i,
                PeerModel { choking_us: true, in_flight: 0, ..self.peers[i].1 },
            ),
        };
        next.released(slot)
    }

    /// A peer no longer chokes us.
    pub open spec fn on_unchoked(self, slot: PeerSlot) -> SessionModel {
        match find_key(self.peers, slot) {
            None => self,
            Some(i) => self.set_peer(i, PeerModel { choking_us: false, ..self.peers[i].1 }),
        }
    }

    /// Peer `slot` has `piece` too now.
    pub open spec fn peer_gains(self, slot: PeerSlot, piece: u32) -> SessionModel {
        match find_key(self.peers, slot) {
            None => self,
            Some(i) => {
                let p = self.peers[i].1;
                if p.have[piece as int] {
                    self
                } else {
                    SessionModel {
                        picker: self.picker.observed(Seq::new(p.have.len(), |j: int| j == piece)),
                        ..self.set_peer(
                            i,
                            PeerModel { have: p.have.update(piece as int, true), ..p },
                        )
                    }
                }
            },
        }
    }

    /// A peer has one more piece. A piece that the torrent does not have ends
    /// the connection.
    pub open spec fn on_have(self, slot: PeerSlot, piece: u32) -> Step {
        if piece >= self.params.piece_count {
            (self, self.kick(slot, AlertErrorCode::PeerProtocol))
        } else {
            self.peer_gains(slot, piece).interest(slot)
        }
    }

    /// A peer told all its pieces. A bitfield of the wrong form ends the
    /// connection.
    pub open spec fn on_bitfield(self, slot: PeerSlot, bits: Option<Seq<bool>>) -> Step {
        match bits {
            None => (self, self.kick(slot, AlertErrorCode::PeerProtocol)),
            Some(have) => self.peer_has(slot, have, false).interest(slot),
        }
    }

    /// A peer has every piece.
    pub open spec fn on_have_all(self, slot: PeerSlot) -> Step {
        self.peer_has(slot, Seq::new(self.params.piece_count as nat, |i: int| true), true).interest(
            slot,
        )
    }

    /// A peer has no piece.
    pub open spec fn on_have_none(self, slot: PeerSlot) -> Step {
        self.peer_has(
            slot,
            Seq::new(self.params.piece_count as nat, |i: int| false),
            false,
        ).interest(slot)
    }

    /// A peer's interest in us changed. One that becomes interested is served,
    /// unless the session is paused.
    pub open spec fn on_interest(self, slot: PeerSlot, interested: bool) -> Step {
        match find_key(self.peers, slot) {
            None => (self, Seq::empty()),
            Some(i) => {
                let p = PeerModel { peer_interested: interested, ..self.peers[i].1 };
                if interested && p.we_choking && !self.paused {
                    (
                        self.set_peer(i, PeerModel { we_choking: false, ..p }),
                        seq![Deed::Send(slot, PeerNote::Unchoke)],
                    )
                } else {
                    (self.set_peer(i, p), Seq::empty())
                }
            },
        }
    }

    /// A peer asks for a block. What breaks the protocol ends the connection;
    /// what may not be served is refused where the peer understands that; all
    /// else is served.
    pub open spec fn on_block_requested(self, slot: PeerSlot, req: BlockRequest) -> Seq<Deed> {
        let refusal = |fast: bool|
            if fast {
                seq![Deed::Send(slot, PeerNote::RejectRequest(req))]
            } else {
                Seq::empty()
            };
        if req.piece >= self.params.piece_count || req.length > BLOCK_SIZE {
            self.kick(slot, AlertErrorCode::PeerProtocol)
        } else {
            match find_key(self.peers, slot) {
                None => Seq::empty(),
                Some(i) => {
                    let p = self.peers[i].1;
                    if p.we_choking || !self.picker.have[req.piece as int] {
                        refusal(p.supports_fast)
                    } else if req.offset + req.length > self.params.size_of(req.piece as int) {
                        self.kick(slot, AlertErrorCode::PeerProtocol)
                    } else {
                        seq![
                            Deed::ServeBlock {
                                slot,
                                supports_fast: p.supports_fast,
                                piece_offset: self.params.offset_of(req.piece as int) as u64,
                                piece_size: self.params.size_of(req.piece as int),
                                req,
                            },
                        ]
                    }
                },
            }
        }
    }

    /// The session with an entry for `piece`.
    pub open spec fn with_piece(self, piece: u32) -> SessionModel {
        if find_key(self.in_progress, piece) is Some {
            self
        } else {
            SessionModel {
                in_progress: self.in_progress.push(
                    (piece, new_piece(self.params.size_of(piece as int))),
                ),
                ..self
            }
        }
    }

    /// A block came. Only a block that this peer was asked for is taken. Once
    /// all blocks of a piece are here, the piece goes to the disk.
    pub open spec fn on_block(self, slot: PeerSlot, piece: u32, offset: u32, data: Seq<u8>) -> Step {
        if piece >= self.params.piece_count || offset % BLOCK_SIZE != 0 {
            (self, self.kick(slot, AlertErrorCode::PeerProtocol))
        } else {
            let next = self.with_piece(piece);
            let k = find_key(next.in_progress, piece)->0;
            let q = next.in_progress[k].1;
            let idx: int = (offset / BLOCK_SIZE) as int;
            if idx >= q.received.len() {
                (next, next.kick(slot, AlertErrorCode::PeerProtocol))
            } else if q.received[idx] {
                (next, Seq::empty())
            } else if q.claimed[idx] != Some(slot) || offset + data.len() > q.buffer.len() {
                (next, next.kick(slot, AlertErrorCode::PeerProtocol))
            } else {
                let filled = q.filled(idx, offset as int, data);
                let taken = next.one_less_in_flight(slot).set_piece(k, filled);
                if filled.full() {
                    (
                        taken.set_piece(k, PieceModel { buffer: Seq::empty(), ..filled }),
                        seq![
                            Deed::VerifyAndWrite {
                                piece,
                                offset: self.params.offset_of(piece as int) as u64,
                                buffer: filled.buffer,
                                expected_hash: self.params.hash_of(piece as int),
                            },
                        ],
                    )
                } else {
                    (taken, Seq::empty())
                }
            }
        }
    }

    /// One request less is under way on `slot`.
    pub open spec fn one_less_in_flight(self, slot: PeerSlot) -> SessionModel {
        match find_key(self.peers, slot) {
            None => self,
            Some(i) => {
                let p = self.peers[i].1;
                self.set_peer(
                    i,
                    PeerModel {
                        in_flight: if p.in_flight > 0 {
                            (p.in_flight - 1) as u32
                        } else {
                            0
                        },
                        ..p
                    },
                )
            },
        }
    }

    /// The session without an entry for `piece`.
    pub open spec fn without_piece(self, piece: u32) -> SessionModel {
        match find_key(self.in_progress, piece) {
            None => self,
            Some(k) => SessionModel { in_progress: self.in_progress.remove(k), ..self },
        }
    }

    /// The disk could not be reached with a piece: its entry goes, and an alert
    /// says so.
    pub open spec fn on_disk_gone(self, piece: u32) -> Step {
        (
            self.without_piece(piece),
            seq![
                Deed::Raise(Alert::Error { torrent: self.id, code: AlertErrorCode::StorageIo }),
            ],
        )
    }

    /// `note` to every peer, in order.
    pub open spec fn to_all(self, note: PeerNote) -> Seq<Deed> {
        Seq::new(self.peers.len(), |i: int| Deed::Send(self.peers[i].0, note))
    }

    /// The disk is done with a piece.
    pub open spec fn on_completion(self, piece: u32, result: Result<(), DiskError>) -> Step {
        let next = self.without_piece(piece);
        match result {
            Ok(_) => {
                let marked = SessionModel { picker: next.picker.marked(piece as int), ..next };
                let news = seq![
                    Deed::Raise(Alert::PieceCompleted { torrent: self.id, piece }),
                ] + next.to_all(PeerNote::Have(piece));
                if count_missing(marked.picker.have) == 0 {
                    let (end, more) = (SessionModel {
                        state: TorrentState::Completed,
                        ..marked
                    }).completed();
                    (end, news + more)
                } else {
                    (marked, news)
                }
            },
            Err(DiskError::HashMismatch) => (
                next,
                seq![
                    Deed::Raise(
                        Alert::Error { torrent: self.id, code: AlertErrorCode::HashMismatch },
                    ),
                ],
            ),
            Err(DiskError::Io) => (
                next,
                seq![
                    Deed::Raise(Alert::Error { torrent: self.id, code: AlertErrorCode::StorageIo }),
                ],
            ),
        }
    }

    /// The torrent is complete. The first time an alert says so, and then every
    /// peer that we were interested in hears that we no longer are.
    pub open spec fn completed(self) -> Step {
        if self.completion_fired {
            (self, Seq::empty())
        } else {
            (
                SessionModel {
                    completion_fired: true,
                    peers: Seq::new(
                        self.peers.len(),
                        |i: int|
                            (
                                self.peers[i].0,
                                PeerModel { we_are_interested: false, ..self.peers[i].1 },
                            ),
                    ),
                    ..self
                },
                seq![Deed::Raise(Alert::TorrentComplete { torrent: self.id })]
                    + not_interested(self.peers),
            )
        }
    }

    /// The session is paused or goes on. What it is already changes nothing.
    pub open spec fn pausing(self, pause: bool) -> Step {
        if self.paused == pause {
            (self, Seq::empty())
        } else if pause {
            let choked = SessionModel {
                paused: true,
                peers: Seq::new(
                    self.peers.len(),
                    |i: int|
                        (self.peers[i].0, PeerModel { we_choking: true, ..self.peers[i].1 }),
                ),
                ..self
            };
            let list = all_claims(self.in_progress, self.params);
            let (end, cancels) = choked.cancel_all(list);
            (end, chokes(self.peers) + cancels)
        } else {
            (
                SessionModel {
                    paused: false,
                    peers: Seq::new(
                        self.peers.len(),
                        |i: int|
                            (
                                self.peers[i].0,
                                PeerModel {
                                    we_choking: self.peers[i].1.we_choking
                                        && !self.peers[i].1.peer_interested,
                                    ..self.peers[i].1
                                },
                            ),
                    ),
                    ..self
                },
                unchokes(self.peers),
            )
        }
    }

    /// Every request of `list` is taken back, one after the other.
    pub open spec fn cancel_all(self, list: Seq<(PeerSlot, BlockRequest)>) -> Step
        decreases list.len(),
    {
        if list.len() == 0 {
            (self, Seq::empty())
        } else {
            let (mid, first) = self.cancel_all(list.drop_last());
            let (slot, req) = list.last();
            let told = if find_key(mid.peers, slot) is Some {
                seq![Deed::Send(slot, PeerNote::Cancel(req))]
            } else {
                Seq::empty()
            };
            (mid.release_block(slot, req), first + told)
        }
    }

    /// A peer with pieces `have` can be asked for a block of piece `p`: it has the
    /// piece, we do not, and some block is neither here nor asked for.
    pub open spec fn eligible(self, have: Seq<bool>, p: int) -> bool {
        &&& 0 <= p < self.params.piece_count
        &&& have[p]
        &&& !self.picker.have[p]
        &&& match find_key(self.in_progress, p as u32) {
            None => self.params.blocks_of(p) > 0,
            Some(k) => self.has_open_block(self.in_progress[k].1, p),
        }
    }

    /// Some block of piece `p` is neither here nor asked for in `q`.
    pub open spec fn has_open_block(self, q: PieceModel, p: int) -> bool {
        exists|b: int| #[trigger] open_block(q, b) && 0 <= b < self.params.blocks_of(p)
    }

    /// The first piece from `p` on that a peer with pieces `have` can be asked
    /// for.
    pub open spec fn first_eligible(self, have: Seq<bool>, p: int) -> Option<int>
        decreases self.params.piece_count - p,
    {
        if p < 0 || p >= self.params.piece_count {
            None
        } else if self.eligible(have, p) {
            Some(p)
        } else {
            self.first_eligible(have, p + 1)
        }
    }

    /// One block is asked of peer `slot`, if it can be.
    pub open spec fn assign(self, slot: PeerSlot) -> Option<Step> {
        match find_key(self.peers, slot) {
            None => None,
            Some(i) => match self.first_eligible(self.peers[i].1.have, 0) {
                None => None,
                Some(p) => {
                    let next = self.with_piece(p as u32);
                    let k = find_key(next.in_progress, p as u32)->0;
                    let q = next.in_progress[k].1;
                    match q.first_free(0) {
                        None => None,
                        Some(b) => Some(
                            (
                                next.set_piece(
                                    k,
                                    PieceModel { claimed: q.claimed.update(b, Some(slot)), ..q },
                                ).set_peer(
                                    i,
                                    PeerModel {
                                        in_flight: (self.peers[i].1.in_flight + 1) as u32,
                                        ..self.peers[i].1
                                    },
                                ),
                                seq![
                                    Deed::Send(
                                        slot,
                                        PeerNote::Request(
                                            block_request(
                                                p as u32,
                                                b,
                                                self.params.size_of(p),
                                            ),
                                        ),
                                    ),
                                ],
                            ),
                        ),
                    }
                },
            },
        }
    }

    /// Up to `room` blocks are asked of peer `slot`, as long as it may be asked
    /// and there is something to ask for.
    pub open spec fn fill(self, slot: PeerSlot, room: nat) -> Step
        decreases room,
    {
        match find_key(self.peers, slot) {
            None => (self, Seq::empty()),
            Some(i) => if room == 0 || !self.peers[i].1.can_request() {
                (self, Seq::empty())
            } else {
                match self.assign(slot) {
                    None => (self, Seq::empty()),
                    Some((next, first)) => {
                        let (end, rest) = next.fill(slot, (room - 1) as nat);
                        (end, first + rest)
                    },
                }
            },
        }
    }

    /// How many more requests may be under way on peer `slot`.
    pub open spec fn room(self, slot: PeerSlot) -> nat {
        match find_key(self.peers, slot) {
            None => 0,
            Some(i) => (self.peers[i].1.max_in_flight - self.peers[i].1.in_flight) as nat,
        }
    }

    /// The connections, in order.
    pub open spec fn slots(self) -> Seq<PeerSlot> {
        Seq::new(self.peers.len(), |i: int| self.peers[i].0)
    }

    /// Blocks are asked of each of `slots` in turn, as many as it may have under
    /// way.
    pub open spec fn fill_all(self, slots: Seq<PeerSlot>) -> Step
        decreases slots.len(),
    {
        if slots.len() == 0 {
            (self, Seq::empty())
        } else {
            let (mid, first) = self.fill_all(slots.drop_last());
            let (end, last) = mid.fill(slots.last(), mid.room(slots.last()));
            (end, first + last)
        }
    }

    /// Blocks are asked of all peers.
    pub open spec fn scheduled(self) -> Step {
        if self.state is Completed {
            (self, Seq::empty())
        } else {
            self.fill_all(self.slots())
        }
    }

    /// Up to `n` pieces of metadata are asked of peer `slot`.
    pub open spec fn ask_metadata(self, slot: PeerSlot, n: nat) -> Step
        decreases n,
    {
        if n == 0 || self.metadata is None {
            (self, Seq::empty())
        } else {
            match next_needed(self.metadata->0) {
                None => (self, Seq::empty()),
                Some(piece) => {
                    let next = SessionModel {
                        metadata: Some(self.metadata->0.asked(piece, slot)),
                        ..self
                    };
                    let told = if find_key(self.peers, slot) is Some {
                        seq![
                            Deed::Send(
                                slot,
                                PeerNote::SendExtended(
                                    ExtensionNote::Metadata(MetadataNote::Request { piece }),
                                ),
                            ),
                        ]
                    } else {
                        Seq::empty()
                    };
                    let (end, rest) = next.ask_metadata(slot, (n - 1) as nat);
                    (end, told + rest)
                },
            }
        }
    }

    /// Metadata is asked of peer `slot`, if its size is known.
    pub open spec fn ask_metadata_of(self, slot: PeerSlot) -> Step {
        if self.metadata is Some && self.metadata->0.total_size is Some {
            self.ask_metadata(slot, METADATA_REQUESTS as nat)
        } else {
            (self, Seq::empty())
        }
    }

    /// Metadata is asked of each of `slots` in turn, until nothing is needed.
    pub open spec fn ask_metadata_all(self, slots: Seq<PeerSlot>) -> Step
        decreases slots.len(),
    {
        if slots.len() == 0 || self.metadata is None || next_needed(self.metadata->0) is None {
            (self, Seq::empty())
        } else {
            let (mid, first) = self.ask_metadata_of(slots[0]);
            let (end, rest) = mid.ask_metadata_all(slots.drop_first());
            (end, first + rest)
        }
    }

    /// A peer told how large the metadata is, which counts while it is fetched.
    pub open spec fn told_size(self, metadata_size: Option<u64>) -> SessionModel {
        if metadata_size is Some && self.metadata is Some {
            SessionModel { metadata: Some(self.metadata->0.sized(metadata_size->0)), ..self }
        } else {
            self
        }
    }

    /// A peer told the port that it listens on, which replaces the one in its
    /// address.
    pub open spec fn told_port(self, slot: PeerSlot, port: Option<u16>) -> SessionModel {
        match find_key(self.peers, slot) {
            None => self,
            Some(i) => if port is Some && self.peers[i].1.addr is Some {
                self.set_peer(
                    i,
                    PeerModel {
                        addr: Some(PeerAddr { ip: self.peers[i].1.addr->0.ip, port: port->0 }),
                        ..self.peers[i].1
                    },
                )
            } else {
                self
            },
        }
    }

    /// A peer told about its extensions: how large the metadata is, and the port
    /// that others can reach it on.
    pub open spec fn on_extension_handshake(
        self,
        slot: PeerSlot,
        metadata_size: Option<u64>,
        listen_port: Option<u16>,
    ) -> Step {
        self.told_size(metadata_size).told_port(slot, listen_port).ask_metadata_of(slot)
    }

    /// A metadata message came.
    pub open spec fn on_metadata_message(self, slot: PeerSlot, note: MetadataNote) -> Step {
        match note {
            MetadataNote::Data { piece, total_size, data } => if self.metadata is None {
                (self, Seq::empty())
            } else {
                let sized = self.metadata->0.sized(total_size);
                if sized.refuses(piece) is Some {
                    (SessionModel { metadata: Some(sized), ..self }, Seq::empty())
                } else {
                    let stored = sized.stored(piece, data);
                    (
                        SessionModel { metadata: Some(stored), ..self },
                        if stored.complete() {
                            seq![Deed::VerifyMetadata(stored.metadata())]
                        } else {
                            Seq::empty()
                        },
                    )
                }
            },
            MetadataNote::Reject { piece } => {
                let next = if self.metadata is Some {
                    SessionModel { metadata: Some(self.metadata->0.unasked(piece)), ..self }
                } else {
                    self
                };
                next.ask_metadata_all(next.slots())
            },
            MetadataNote::Request { piece } => (self, self.serve_metadata(slot, piece)),
        }
    }

    /// The answer to a request for a piece of metadata: the piece, or a refusal
    /// where there is none.
    pub open spec fn serve_metadata(self, slot: PeerSlot, piece: u32) -> Seq<Deed> {
        let start: int = piece * METADATA_PIECE_SIZE;
        if find_key(self.peers, slot) is None {
            Seq::empty()
        } else if self.info_dict is None || start >= self.info_dict->0.len() {
            seq![
                Deed::Send(
                    slot,
                    PeerNote::SendExtended(ExtensionNote::Metadata(MetadataNote::Reject { piece })),
                ),
            ]
        } else {
            let info = self.info_dict->0;
            let end: int = if start + METADATA_PIECE_SIZE <= info.len() {
                start + METADATA_PIECE_SIZE
            } else {
                info.len() as int
            };
            seq![
                Deed::Send(
                    slot,
                    PeerNote::SendExtended(
                        ExtensionNote::Metadata(
                            MetadataNote::Data {
                                piece,
                                total_size: info.len() as u64,
                                data: info.subrange(start, end),
                            },
                        ),
                    ),
                ),
            ]
        }
    }

    /// The session starts over with the parameters that the metadata declares:
    /// no piece is here, and of the peers' pieces only those of peers that have
    /// every piece are known.
    pub open spec fn with_metadata(self, metadata: Seq<u8>, params: ParamsModel) -> SessionModel {
        let peers = Seq::new(
            self.peers.len(),
            |i: int|
                (
                    self.peers[i].0,
                    PeerModel {
                        have: Seq::new(
                            params.piece_count as nat,
                            |j: int| self.peers[i].1.announced_have_all,
                        ),
                        ..self.peers[i].1
                    },
                ),
        );
        SessionModel {
            info_dict: Some(metadata),
            params,
            picker: PickerModel {
                availability: Seq::new(
                    params.piece_count as nat,
                    |p: int| count_having(peers, p) as u32,
                ),
                ..PickerModel::fresh(params.piece_count)
            },
            metadata: None,
            peers,
            ..self
        }
    }

    /// The metadata was hashed and parsed. Where it is good the session goes on
    /// with its parameters. Where it is not, it is fetched anew, a few times.
    pub open spec fn on_metadata_verified(
        self,
        digest: Seq<u8>,
        parsed: Result<&Info, String>,
    ) -> Step {
        if self.metadata is None {
            (self, Seq::empty())
        } else if metadata_fault(self.metadata->0, digest, parsed) is None {
            let next = self.with_metadata(
                self.metadata->0.metadata(),
                params_from(*parsed->Ok_0),
            );
            let (end, rest) = next.interest_all(next.slots());
            (end, seq![Deed::Raise(Alert::MetadataReceived { torrent: self.id })] + rest)
        } else if self.failures + 1 > METADATA_ATTEMPTS {
            (
                SessionModel {
                    failures: (self.failures + 1) as u32,
                    metadata: None,
                    ..self
                },
                seq![
                    Deed::Raise(
                        Alert::Error {
                            torrent: self.id,
                            code: AlertErrorCode::MetadataVerifyExhausted,
                        },
                    ),
                ],
            )
        } else {
            let clean = AssemblerModel::fresh(self.info_hash);
            let next = SessionModel {
                failures: (self.failures + 1) as u32,
                metadata: Some(
                    match self.metadata->0.total_size {
                        Some(size) => clean.sized(size),
                        None => clean,
                    },
                ),
                ..self
            };
            next.ask_metadata_all(next.slots())
        }
    }

    /// A peer exchange message came. It counts where peers are exchanged, the
    /// peer does not send too often, and more peers are wanted; then as many
    /// addresses are kept as there is room for.
    pub open spec fn on_pex(
        self,
        slot: PeerSlot,
        now: u64,
        added: Option<Seq<PexPeer>>,
    ) -> SessionModel {
        if !self.pex.enabled || !self.pex.accepts(slot, now) || self.peers.len() >= self.peer_cap
            || added is None {
            self
        } else {
            let room: int = self.peer_cap - self.peers.len();
            let n: int = if added->0.len() <= room {
                added->0.len() as int
            } else {
                room
            };
            SessionModel {
                pex: PexModel { received: self.pex.received.insert(slot.0, now), ..self.pex },
                discovered: self.discovered + Seq::new(n as nat, |i: int| added->0[i].addr),
                ..self
            }
        }
    }

    /// The addresses of connected peers, where known.
    pub open spec fn known_addrs(self) -> Seq<(PeerSlot, PeerAddr)> {
        addrs_known(self.peers)
    }

    /// A round of peer exchange: every peer that is due hears what changed.
    pub open spec fn pex_round(self, now: u64) -> Step {
        let current = addrs_of(self.known_addrs());
        if !self.pex.enabled || self.pex.unchanged(current) {
            (self, Seq::empty())
        } else {
            let note = PeerNote::SendExtended(
                ExtensionNote::Pex(
                    Seq::new(
                        self.pex.added(current).len(),
                        |i: int| PexPeer { addr: self.pex.added(current)[i], flags: 0 },
                    ),
                    self.pex.dropped(current),
                ),
            );
            (SessionModel { pex: self.pex.told(current), ..self }).pex_to(self.slots(), note, now)
        }
    }

    /// `note` goes to those of `slots` that are due.
    pub open spec fn pex_to(self, slots: Seq<PeerSlot>, note: PeerNote, now: u64) -> Step
        decreases slots.len(),
    {
        if slots.len() == 0 {
            (self, Seq::empty())
        } else {
            let (mid, first) = self.pex_to(slots.drop_last(), note, now);
            let slot = slots.last();
            if mid.pex.due(slot, now) {
                (
                    SessionModel {
                        pex: PexModel { sent: mid.pex.sent.insert(slot.0, now), ..mid.pex },
                        ..mid
                    },
                    first.push(Deed::Send(slot, note)),
                )
            } else {
                (mid, first)
            }
        }
    }
}

/// How many pieces of metadata one peer is asked for at once.
pub const METADATA_REQUESTS: u32 = 4;

/// How often metadata may turn out no good before it is given up.
pub const METADATA_ATTEMPTS: u32 = 3;

/// Block `b` is neither here nor asked for in `q`. A block that `q` knows
/// nothing of counts as open.
pub open spec fn open_block(q: PieceModel, b: int) -> bool {
    &&& !(b < q.claimed.len() && q.claimed[b] is Some)
    &&& !(b < q.received.len() && q.received[b])
}

/// The first piece of metadata that is needed.
pub open spec fn next_needed(m: AssemblerModel) -> Option<u32> {
    choose|p: Option<u32>| m.first_needed(p)
}

/// Word to every peer that we were interested in that we no longer are.
pub open spec fn not_interested(peers: Seq<(PeerSlot, PeerModel)>) -> Seq<Deed>
    decreases peers.len(),
{
    if peers.len() == 0 {
        Seq::empty()
    } else if peers.last().1.we_are_interested {
        not_interested(peers.drop_last()).push(
            Deed::Send(peers.last().0, PeerNote::SetInterested(false)),
        )
    } else {
        not_interested(peers.drop_last())
    }
}

/// A choke for every peer that is not choked.
pub open spec fn chokes(peers: Seq<(PeerSlot, PeerModel)>) -> Seq<Deed>
    decreases peers.len(),
{
    if peers.len() == 0 {
        Seq::empty()
    } else if !peers.last().1.we_choking {
        chokes(peers.drop_last()).push(Deed::Send(peers.last().0, PeerNote::Choke))
    } else {
        chokes(peers.drop_last())
    }
}

/// An unchoke for every peer that is choked and interested.
pub open spec fn unchokes(peers: Seq<(PeerSlot, PeerModel)>) -> Seq<Deed>
    decreases peers.len(),
{
    if peers.len() == 0 {
        Seq::empty()
    } else if peers.last().1.we_choking && peers.last().1.peer_interested {
        unchokes(peers.drop_last()).push(Deed::Send(peers.last().0, PeerNote::Unchoke))
    } else {
        unchokes(peers.drop_last())
    }
}

/// The requests for the first `n` blocks of a piece that are asked for, and of
/// whom.
pub open spec fn piece_claims(piece: u32, claimed: Seq<Option<PeerSlot>>, size: u32) -> Seq<
    (PeerSlot, BlockRequest),
>
    decreases claimed.len(),
{
    if claimed.len() == 0 {
        Seq::empty()
    } else {
        let front = piece_claims(piece, claimed.drop_last(), size);
        match claimed.last() {
            None => front,
            Some(slot) => front.push((slot, block_request(piece, claimed.len() - 1, size))),
        }
    }
}

/// The requests for all blocks that are asked for, and of whom.
pub open spec fn all_claims(in_progress: Seq<(u32, PieceModel)>, params: ParamsModel) -> Seq<
    (PeerSlot, BlockRequest),
>
    decreases in_progress.len(),
{
    if in_progress.len() == 0 {
        Seq::empty()
    } else {
        let (piece, q) = in_progress.last();
        all_claims(in_progress.drop_last(), params) + piece_claims(
            piece,
            q.claimed,
            params.size_of(piece as int),
        )
    }
}

/// The peers whose addresses are known.
pub open spec fn addrs_known(peers: Seq<(PeerSlot, PeerModel)>) -> Seq<(PeerSlot, PeerAddr)>
    decreases peers.len(),
{
    if peers.len() == 0 {
        Seq::empty()
    } else {
        match peers.last().1.addr {
            Some(a) => addrs_known(peers.drop_last()).push((peers.last().0, a)),
            None => addrs_known(peers.drop_last()),
        }
    }
}

} // verus!
