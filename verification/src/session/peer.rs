//! Rules of one peer connection: what goes out on the wire for what the session
//! says, and what the session hears of what comes in.
use crate::blob::{blob, blob_bytes};
use crate::ids::PeerSlot;
use crate::lex::bytes_equal;
use crate::net::PeerAddr;
use crate::session::messages::{
    DisconnectReason, ExtensionNote, ExtensionPayload, PeerNote, PeerToSession, SessionToPeer,
};
use crate::session::params::BlockRequest;
use bytes::Bytes;
use vstd::prelude::*;

verus! {

/// Time that the handshake may take, in nanoseconds.
pub const DEFAULT_HANDSHAKE_TIMEOUT: u64 = 10_000_000_000;

/// Time that the peer's extension handshake may take, in nanoseconds.
pub const DEFAULT_EXTENSION_HANDSHAKE_TIMEOUT: u64 = 5_000_000_000;

/// Largest extension payload that is looked at.
pub const MAX_EXTENSION_PAYLOAD: usize = 1_048_576;

/// Room for events from a peer task to its session.
pub const PEER_TO_SESSION_CAPACITY: usize = 64;

/// The number under which we take metadata messages.
pub const UT_METADATA_ID: u8 = 1;

/// The number under which we take peer exchange messages.
pub const UT_PEX_ID: u8 = 2;

/// Who opened the connection.
#[derive(Debug, Clone, Copy, PartialEq, Eq, Structural)]
pub enum HandshakeRole {
    /// We did: our handshake goes out first.
    Initiator,
    /// The peer did: its handshake comes in first.
    Responder,
}

/// Configuration of a connection.
#[derive(Debug, Clone, Copy)]
pub struct PeerConfig {
    /// Our peer id.
    pub peer_id: [u8; 20],
    /// The torrent's info hash.
    pub info_hash: [u8; 20],
    /// Whether to speak the Fast extension.
    pub fast_ext: bool,
    /// Whether to speak the extension protocol.
    pub extension_protocol: bool,
    /// Most requests under way at once.
    pub max_in_flight: u32,
    /// Largest message that is taken.
    pub max_payload: u32,
    /// Time that the handshake may take, in nanoseconds.
    pub handshake_timeout: u64,
    /// Time that the peer's extension handshake may take, in nanoseconds.
    pub extension_handshake_timeout: u64,
    /// The peer's address, if known.
    pub remote_addr: Option<PeerAddr>,
    /// Size of the info dictionary, if known.
    pub metadata_size: Option<u64>,
    /// The port that we listen on, if we do.
    pub local_listen_port: Option<u16>,
}

impl PeerConfig {
    /// The usual configuration, with the given limit on messages.
    pub fn with_max_payload(max_payload: u32) -> (r: PeerConfig)
        ensures
            r.peer_id@ == Seq::new(20, |i: int| 0u8),
            r.info_hash@ == Seq::new(20, |i: int| 0u8),
            r.fast_ext,
            r.extension_protocol,
            r.max_in_flight == 4,
            r.max_payload == max_payload,
            r.handshake_timeout == DEFAULT_HANDSHAKE_TIMEOUT,
            r.extension_handshake_timeout == DEFAULT_EXTENSION_HANDSHAKE_TIMEOUT,
            r.remote_addr is None,
            r.metadata_size is None,
            r.local_listen_port is None,
    {
        let r = PeerConfig {
            peer_id: [0u8; 20],
            info_hash: [0u8; 20],
            fast_ext: true,
            extension_protocol: true,
            max_in_flight: 4,
            max_payload,
            handshake_timeout: DEFAULT_HANDSHAKE_TIMEOUT,
            extension_handshake_timeout: DEFAULT_EXTENSION_HANDSHAKE_TIMEOUT,
            remote_addr: None,
            metadata_size: None,
            local_listen_port: None,
        };
        assert(r.peer_id@ =~= Seq::new(20, |i: int| 0u8));
        assert(r.info_hash@ =~= Seq::new(20, |i: int| 0u8));
        r
    }
}

/// What a handshake says.
#[derive(Debug, Clone, Copy)]
pub struct PeerHandshake {
    /// The info hash.
    pub info_hash: [u8; 20],
    /// The peer id.
    pub peer_id: [u8; 20],
    /// The Fast extension is spoken.
    pub fast_ext: bool,
    /// The extension protocol is spoken.
    pub extension_protocol: bool,
}

/// The peer is about another torrent.
#[derive(Debug, Clone, Copy)]
pub struct InfoHashMismatch {
    /// The info hash that we sent.
    pub expected: [u8; 20],
    /// The info hash that the peer sent.
    pub actual: [u8; 20],
}

/// The handshake that we send.
pub fn our_handshake(config: &PeerConfig) -> (r: PeerHandshake)
    ensures
        r.info_hash == config.info_hash,
        r.peer_id == config.peer_id,
        r.fast_ext == config.fast_ext,
        r.extension_protocol == config.extension_protocol,
{
    PeerHandshake {
        info_hash: config.info_hash,
        peer_id: config.peer_id,
        fast_ext: config.fast_ext,
        extension_protocol: config.extension_protocol,
    }
}

/// Holds the peer's handshake against the torrent that we expect.
pub fn check_handshake(config: &PeerConfig, remote: &PeerHandshake) -> (r: Result<
    (),
    InfoHashMismatch,
>)
    ensures
        match r {
            Ok(_) => remote.info_hash@ == config.info_hash@,
            Err(e) => remote.info_hash@ != config.info_hash@ && e.expected == config.info_hash
                && e.actual == remote.info_hash,
        },
{
    if bytes_equal(remote.info_hash.as_slice(), config.info_hash.as_slice()) {
        Ok(())
    } else {
        Err(InfoHashMismatch { expected: config.info_hash, actual: remote.info_hash })
    }
}

/// A message on the wire.
#[derive(Debug)]
#[non_exhaustive]
pub enum Message {
    /// Nothing.
    KeepAlive,
    /// The sender no longer serves.
    Choke,
    /// The sender serves.
    Unchoke,
    /// The sender wants to download.
    Interested,
    /// The sender does not want to download.
    NotInterested,
    /// The sender has a piece.
    Have(u32),
    /// The sender's pieces, packed.
    Bitfield(Bytes),
    /// The sender asks for a block.
    Request(BlockRequest),
    /// A block.
    Piece {
        /// Piece index.
        piece: u32,
        /// Offset inside the piece.
        offset: u32,
        /// The bytes.
        data: Bytes,
    },
    /// The sender takes a request back.
    Cancel(BlockRequest),
    /// The sender has every piece.
    HaveAll,
    /// The sender has no piece.
    HaveNone,
    /// The sender refuses a request.
    RejectRequest(BlockRequest),
    /// The sender suggests a piece.
    SuggestPiece(u32),
    /// The sender serves a piece even while it chokes.
    AllowedFast(u32),
    /// An extension message.
    Extended {
        /// The number of the extension; zero is the extension handshake.
        id: u8,
        /// The payload.
        payload: Bytes,
    },
    /// Any other message.
    Unknown,
}

/// Which extension a message belongs to.
#[derive(Debug, Clone, Copy, PartialEq, Eq, Structural)]
pub enum ExtensionKind {
    /// `ut_metadata`.
    Metadata,
    /// `ut_pex`.
    Pex,
}

/// The numbers that the peer takes extension messages under.
#[derive(Debug, Clone, Copy, PartialEq, Eq, Structural)]
pub struct RemoteExtensions {
    /// For `ut_metadata`, if the peer speaks it.
    pub ut_metadata: Option<u8>,
    /// For `ut_pex`, if the peer speaks it.
    pub ut_pex: Option<u8>,
}

impl RemoteExtensions {
    /// A peer that speaks no extension.
    pub fn none() -> (r: RemoteExtensions)
        ensures
            r == (RemoteExtensions { ut_metadata: None, ut_pex: None }),
    {
        RemoteExtensions { ut_metadata: None, ut_pex: None }
    }

    /// The number for an extension.
    pub open spec fn number(self, kind: ExtensionKind) -> Option<u8> {
        match kind {
            ExtensionKind::Metadata => self.ut_metadata,
            ExtensionKind::Pex => self.ut_pex,
        }
    }
}

/// The extension under which we take messages with number `id`.
pub open spec fn local_kind(id: u8) -> Option<ExtensionKind> {
    if id == UT_METADATA_ID {
        Some(ExtensionKind::Metadata)
    } else if id == UT_PEX_ID {
        Some(ExtensionKind::Pex)
    } else {
        None
    }
}

/// The extension handshake that we send.
#[derive(Debug, Clone, Copy, PartialEq, Eq, Structural)]
pub struct ExtensionOffer {
    /// The number under which we take metadata messages.
    pub ut_metadata: u8,
    /// The number under which we take peer exchange messages.
    pub ut_pex: u8,
    /// Size of the info dictionary, if known.
    pub metadata_size: Option<u64>,
    /// The port that we listen on, if we do.
    pub listen_port: Option<u16>,
}

/// The extension handshake to send after the handshake, where both sides speak
/// the extension protocol.
pub fn offer_extensions(config: &PeerConfig, remote: &PeerHandshake) -> (r: Option<ExtensionOffer>)
    ensures
        r == (if config.extension_protocol && remote.extension_protocol {
            Some(
                ExtensionOffer {
                    ut_metadata: UT_METADATA_ID,
                    ut_pex: UT_PEX_ID,
                    metadata_size: config.metadata_size,
                    listen_port: config.local_listen_port,
                },
            )
        } else {
            None
        }),
{
    if config.extension_protocol && remote.extension_protocol {
        Some(
            ExtensionOffer {
                ut_metadata: UT_METADATA_ID,
                ut_pex: UT_PEX_ID,
                metadata_size: config.metadata_size,
                listen_port: config.local_listen_port,
            },
        )
    } else {
        None
    }
}

/// State of one connection.
#[derive(Debug)]
pub struct PeerConn {
    slot: PeerSlot,
    fast_ext: bool,
    max_in_flight: u32,
    in_flight: Vec<BlockRequest>,
    am_interested: bool,
    extensions: Option<RemoteExtensions>,
}

/// What a connection holds.
#[verifier::ext_equal]
pub struct ConnModel {
    /// The connection.
    pub slot: PeerSlot,
    /// The Fast extension is spoken.
    pub fast_ext: bool,
    /// Most requests under way at once.
    pub max_in_flight: u32,
    /// Requests under way, each once.
    pub in_flight: Seq<BlockRequest>,
    /// We told the peer that we are interested.
    pub am_interested: bool,
    /// The peer's extensions, once they were exchanged.
    pub extensions: Option<RemoteExtensions>,
}

/// What goes out on the wire.
#[derive(Debug)]
pub enum Outgoing {
    /// Nothing.
    Nothing,
    /// A message.
    Send(Message),
    /// A block, once the upload limit has room for `cost` bytes; they count as
    /// uploaded when it was sent.
    SendBlock {
        /// The request that it answers.
        req: BlockRequest,
        /// The bytes.
        data: Bytes,
        /// Their number.
        cost: u64,
    },
    /// An extension message under the peer's number for it.
    SendExtended {
        /// The peer's number.
        id: u8,
        /// The payload, to be encoded.
        payload: ExtensionPayload,
    },
    /// The connection ends.
    Exit(DisconnectReason),
}

/// What goes out on the wire, by value.
pub enum OutgoingNote {
    /// Nothing.
    Nothing,
    /// A message without payload.
    Plain(PlainMessage),
    /// A bitfield.
    Bitfield(Seq<u8>),
    /// A block and its cost.
    Block(BlockRequest, Seq<u8>, u64),
    /// An extension message.
    Extended(u8, ExtensionNote),
    /// The connection ends as this side wants.
    Exit,
}

/// A message whose value says all.
#[derive(Debug, Clone, Copy, PartialEq, Eq, Structural)]
pub enum PlainMessage {
    /// The sender no longer serves.
    Choke,
    /// The sender serves.
    Unchoke,
    /// The sender wants to download.
    Interested,
    /// The sender does not want to download.
    NotInterested,
    /// The sender has a piece.
    Have(u32),
    /// The sender asks for a block.
    Request(BlockRequest),
    /// The sender takes a request back.
    Cancel(BlockRequest),
    /// The sender has every piece.
    HaveAll,
    /// The sender has no piece.
    HaveNone,
    /// The sender refuses a request.
    RejectRequest(BlockRequest),
}

/// `out` is what `note` says.
pub open spec fn sends(out: Outgoing, note: OutgoingNote) -> bool {
    match note {
        OutgoingNote::Nothing => out is Nothing,
        OutgoingNote::Plain(p) => match p {
            PlainMessage::Choke => out == Outgoing::Send(Message::Choke),
            PlainMessage::Unchoke => out == Outgoing::Send(Message::Unchoke),
            PlainMessage::Interested => out == Outgoing::Send(Message::Interested),
            PlainMessage::NotInterested => out == Outgoing::Send(Message::NotInterested),
            PlainMessage::Have(piece) => out == Outgoing::Send(Message::Have(piece)),
            PlainMessage::Request(req) => out == Outgoing::Send(Message::Request(req)),
            PlainMessage::Cancel(req) => out == Outgoing::Send(Message::Cancel(req)),
            PlainMessage::HaveAll => out == Outgoing::Send(Message::HaveAll),
            PlainMessage::HaveNone => out == Outgoing::Send(Message::HaveNone),
            PlainMessage::RejectRequest(req) => out == Outgoing::Send(Message::RejectRequest(req)),
        },
        OutgoingNote::Bitfield(bytes) => out matches Outgoing::Send(Message::Bitfield(b)) && blob(b)
            == bytes,
        OutgoingNote::Block(r, bytes, c) => out matches Outgoing::SendBlock { req, data, cost } && req
            == r && blob(data) == bytes && cost == c,
        OutgoingNote::Extended(n, note) => out matches Outgoing::SendExtended { id, payload } && id
            == n && payload@ == note,
        OutgoingNote::Exit => out == Outgoing::Exit(DisconnectReason::Shutdown),
    }
}

/// The extension that a payload belongs to.
pub open spec fn kind_of(note: ExtensionNote) -> ExtensionKind {
    match note {
        ExtensionNote::Metadata(_) => ExtensionKind::Metadata,
        ExtensionNote::Pex(_, _) => ExtensionKind::Pex,
    }
}

impl ConnModel {
    /// No request is under way twice, and none beyond the limit.
    pub open spec fn wf(self) -> bool {
        self.in_flight.no_duplicates() && self.in_flight.len() <= self.max_in_flight
    }

    /// What the session's word does: the next state and what goes out. `None` is
    /// a session that is gone.
    pub open spec fn on_command(self, cmd: Option<PeerNote>) -> (ConnModel, OutgoingNote) {
        match cmd {
            None => (self, OutgoingNote::Exit),
            Some(note) => match note {
                PeerNote::Shutdown => (self, OutgoingNote::Exit),
                PeerNote::SetInterested(state) => if self.am_interested == state {
                    (self, OutgoingNote::Nothing)
                } else {
                    (
                        ConnModel { am_interested: state, ..self },
                        OutgoingNote::Plain(
                            if state {
                                PlainMessage::Interested
                            } else {
                                PlainMessage::NotInterested
                            },
                        ),
                    )
                },
                PeerNote::Request(req) => if self.in_flight.len() >= self.max_in_flight
                    || self.in_flight.contains(req) {
                    (self, OutgoingNote::Nothing)
                } else {
                    (
                        ConnModel { in_flight: self.in_flight.push(req), ..self },
                        OutgoingNote::Plain(PlainMessage::Request(req)),
                    )
                },
                PeerNote::Cancel(req) => if self.in_flight.contains(req) {
                    (self.settled(req), OutgoingNote::Plain(PlainMessage::Cancel(req)))
                } else {
                    (self, OutgoingNote::Nothing)
                },
                PeerNote::Have(piece) => (self, OutgoingNote::Plain(PlainMessage::Have(piece))),
                PeerNote::SendBitfield(bytes) => (self, OutgoingNote::Bitfield(bytes)),
                PeerNote::SendHaveAll => (self, OutgoingNote::Plain(PlainMessage::HaveAll)),
                PeerNote::SendHaveNone => (self, OutgoingNote::Plain(PlainMessage::HaveNone)),
                PeerNote::Choke => (self, OutgoingNote::Plain(PlainMessage::Choke)),
                PeerNote::Unchoke => (self, OutgoingNote::Plain(PlainMessage::Unchoke)),
                PeerNote::BlockReady { req, data } => (
                    self,
                    OutgoingNote::Block(req, data, data.len() as u64),
                ),
                PeerNote::RejectRequest(req) => if self.fast_ext {
                    (self, OutgoingNote::Plain(PlainMessage::RejectRequest(req)))
                } else {
                    (self, OutgoingNote::Nothing)
                },
                PeerNote::SendExtended(ext) => match self.extensions {
                    None => (self, OutgoingNote::Nothing),
                    Some(remote) => match remote.number(kind_of(ext)) {
                        None => (self, OutgoingNote::Nothing),
                        Some(id) => (self, OutgoingNote::Extended(id, ext)),
                    },
                },
            },
        }
    }

    /// Request `req` is no longer under way.
    pub open spec fn settled(self, req: BlockRequest) -> ConnModel {
        if self.in_flight.contains(req) {
            ConnModel {
                in_flight: self.in_flight.remove(first_place(self.in_flight, req)),
                ..self
            }
        } else {
            self
        }
    }
}

/// Where `req` first stands.
pub open spec fn first_place(s: Seq<BlockRequest>, req: BlockRequest) -> int
    decreases s.len(),
{
    if s.len() == 0 || s[0] == req {
        0
    } else {
        1 + first_place(s.drop_first(), req)
    }
}

proof fn lemma_first_place(s: Seq<BlockRequest>, req: BlockRequest, i: int)
    requires
        0 <= i < s.len(),
        s[i] == req,
        forall|j: int| 0 <= j < i ==> s[j] != req,
    ensures
        first_place(s, req) == i,
    decreases s.len(),
{
    if i > 0 {
        assert(s[0] != req);
        let t = s.drop_first();
        assert forall|j: int| 0 <= j < i - 1 implies t[j] != req by {
            assert(t[j] == s[j + 1]);
        }
        lemma_first_place(t, req, i - 1);
    }
}

/// What a message that came in asks of this side.
#[derive(Debug)]
pub enum Incoming {
    /// Nothing.
    Nothing,
    /// The session hears of it.
    Event(PeerToSession),
    /// The session hears of a block. Its `cost` bytes count as downloaded.
    Block {
        /// The event.
        event: PeerToSession,
        /// The number of bytes, as far as they can be counted.
        cost: u32,
    },
    /// The session hears of an extension message, once it is decoded.
    Extension {
        /// Which extension.
        kind: ExtensionKind,
        /// The payload.
        payload: Bytes,
    },
    /// A late extension handshake, to be decoded and noted.
    LateHandshake {
        /// The payload.
        payload: Bytes,
    },
}

/// The number of bytes of a block, as far as it can be counted.
pub open spec fn counted(n: nat) -> u32 {
    if n <= u32::MAX {
        n as u32
    } else {
        u32::MAX
    }
}

impl ConnModel {
    /// The state after a message came in.
    pub open spec fn on_message(self, msg: Message) -> ConnModel {
        match msg {
            Message::Choke => if self.fast_ext {
                self
            } else {
                ConnModel { in_flight: Seq::empty(), ..self }
            },
            Message::Piece { piece, offset, data } => self.settled(
                BlockRequest { piece, offset, length: counted(blob(data).len()) },
            ),
            Message::RejectRequest(req) => self.settled(req),
            _ => self,
        }
    }

    /// What a message that came in asks for.
    pub open spec fn incoming(self, msg: Message) -> Incoming {
        let slot = self.slot;
        match msg {
            Message::Choke => Incoming::Event(PeerToSession::Choked { slot }),
            Message::Unchoke => Incoming::Event(PeerToSession::Unchoked { slot }),
            Message::Interested => Incoming::Event(PeerToSession::Interested { slot }),
            Message::NotInterested => Incoming::Event(PeerToSession::NotInterested { slot }),
            Message::Have(piece) => Incoming::Event(PeerToSession::Have { slot, piece }),
            Message::Bitfield(bytes) => Incoming::Event(PeerToSession::Bitfield { slot, bytes }),
            Message::HaveAll => Incoming::Event(PeerToSession::HaveAll { slot }),
            Message::HaveNone => Incoming::Event(PeerToSession::HaveNone { slot }),
            Message::Request(req) => Incoming::Event(PeerToSession::BlockRequested { slot, req }),
            Message::Cancel(req) => Incoming::Event(PeerToSession::RequestCancelled { slot, req }),
            Message::Piece { piece, offset, data } => Incoming::Block {
                event: PeerToSession::BlockReceived { slot, piece, offset, data },
                cost: counted(blob(data).len()),
            },
            Message::RejectRequest(req) => Incoming::Event(PeerToSession::Rejected { slot, req }),
            Message::Extended { id, payload } => if blob(payload).len() > MAX_EXTENSION_PAYLOAD {
                Incoming::Nothing
            } else if self.extensions is None {
                Incoming::Nothing
            } else if id == 0 {
                Incoming::LateHandshake { payload }
            } else {
                match local_kind(id) {
                    Some(kind) => Incoming::Extension { kind, payload },
                    None => Incoming::Nothing,
                }
            },
            _ => Incoming::Nothing,
        }
    }
}

/// What came in place of the peer's extension handshake.
#[derive(Debug)]
pub enum HandshakeReply {
    /// The extension handshake, decoded: the peer's extensions, the size of the
    /// metadata and the port that it listens on.
    Decoded {
        /// The peer's numbers.
        extensions: RemoteExtensions,
        /// Size of the metadata, if it said.
        metadata_size: Option<u64>,
        /// The port that it listens on, if it said.
        listen_port: Option<u16>,
    },
    /// An extension handshake that could not be decoded.
    Malformed,
    /// Another message, which is taken as it is.
    Other(Message),
    /// The transport failed or was closed.
    Broken,
    /// Nothing came in time.
    TimedOut,
}

impl View for PeerConn {
    type V = ConnModel;

    closed spec fn view(&self) -> ConnModel {
        ConnModel {
            slot: self.slot,
            fast_ext: self.fast_ext,
            max_in_flight: self.max_in_flight,
            in_flight: self.in_flight@,
            am_interested: self.am_interested,
            extensions: self.extensions,
        }
    }
}

impl PeerConn {
    /// A connection whose handshake is done.
    pub fn new(slot: PeerSlot, config: &PeerConfig) -> (r: PeerConn)
        ensures
            r@ == (ConnModel {
                slot,
                fast_ext: config.fast_ext,
                max_in_flight: config.max_in_flight,
                in_flight: Seq::empty(),
                am_interested: false,
                extensions: None,
            }),
            r@.wf(),
    {
        PeerConn {
            slot,
            fast_ext: config.fast_ext,
            max_in_flight: config.max_in_flight,
            in_flight: Vec::new(),
            am_interested: false,
            extensions: None,
        }
    }

    /// The event that tells the session of this connection.
    pub fn connected(&self, handshake: &PeerHandshake, addr: Option<PeerAddr>) -> (r: PeerToSession)
        ensures
            r == (PeerToSession::Connected {
                slot: self@.slot,
                peer_id: handshake.peer_id,
                supports_fast: handshake.fast_ext,
                addr,
            }),
    {
        PeerToSession::Connected {
            slot: self.slot,
            peer_id: handshake.peer_id,
            supports_fast: handshake.fast_ext,
            addr,
        }
    }

    /// Where a request that is under way stands.
    fn position(&self, req: BlockRequest) -> (r: Option<usize>)
        ensures
            match r {
                Some(i) => i < self.in_flight@.len() && i == first_place(self@.in_flight, req)
                    && self@.in_flight.contains(req),
                None => !self@.in_flight.contains(req),
            },
    {
        let mut i: usize = 0;
        while i < self.in_flight.len()
            invariant
                i <= self.in_flight@.len(),
                forall|j: int| 0 <= j < i ==> self.in_flight@[j] != req,
            decreases self.in_flight@.len() - i,
        {
            if self.in_flight[i] == req {
                proof {
                    lemma_first_place(self.in_flight@, req, i as int);
                    assert(self.in_flight@[i as int] == req);
                }
                return Some(i);
            }
            i = i + 1;
        }
        None
    }

    /// Notes that a request is no longer under way. `false` where it was not.
    fn settle(&mut self, req: BlockRequest) -> (r: bool)
        requires
            old(self)@.wf(),
        ensures
            final(self)@.wf(),
            final(self)@ == old(self)@.settled(req),
            r == old(self)@.in_flight.contains(req),
    {
        match self.position(req) {
            None => false,
            Some(i) => {
                let ghost before = self.in_flight@;
                let _gone = self.in_flight.remove(i);
                proof {
                    let after = self.in_flight@;
                    assert forall|a: int, b: int|
                        0 <= a < after.len() && 0 <= b < after.len() && a != b implies after[a]
                        != after[b] by {
                        let oa: int = if a < i {
                            a
                        } else {
                            a + 1
                        };
                        let ob: int = if b < i {
                            b
                        } else {
                            b + 1
                        };
                        assert(before[oa] != before[ob]);
                    }
                }
                assert(self@ =~= old(self)@.settled(req));
                true
            },
        }
    }

    /// Takes the session's word and says what goes out on the wire.
    pub fn on_command(&mut self, cmd: Option<SessionToPeer>) -> (r: Outgoing)
        requires
            old(self)@.wf(),
        ensures
            final(self)@.wf(),
            ({
                let note = match cmd {
                    Some(c) => Some(c@),
                    None => None,
                };
                &&& final(self)@ == old(self)@.on_command(note).0
                &&& sends(r, old(self)@.on_command(note).1)
            }),
    {
        match cmd {
            None => Outgoing::Exit(DisconnectReason::Shutdown),
            Some(c) => match c {
                SessionToPeer::Shutdown => Outgoing::Exit(DisconnectReason::Shutdown),
                SessionToPeer::SetInterested(state) => {
                    if self.am_interested == state {
                        return Outgoing::Nothing;
                    }
                    self.am_interested = state;
                    if state {
                        Outgoing::Send(Message::Interested)
                    } else {
                        Outgoing::Send(Message::NotInterested)
                    }
                },
                SessionToPeer::Request(req) => {
                    if self.in_flight.len() as u64 >= self.max_in_flight as u64 {
                        return Outgoing::Nothing;
                    }
                    if self.position(req).is_some() {
                        return Outgoing::Nothing;
                    }
                    let ghost before = self.in_flight@;
                    self.in_flight.push(req);
                    proof {
                        let after = self.in_flight@;
                        assert forall|a: int, b: int|
                            0 <= a < after.len() && 0 <= b < after.len() && a != b implies after[a]
                            != after[b] by {
                            if a < before.len() {
                                assert(before.contains(before[a]));
                            }
                            if b < before.len() {
                                assert(before.contains(before[b]));
                            }
                        }
                    }
                    Outgoing::Send(Message::Request(req))
                },
                SessionToPeer::Cancel(req) => {
                    if self.settle(req) {
                        Outgoing::Send(Message::Cancel(req))
                    } else {
                        Outgoing::Nothing
                    }
                },
                SessionToPeer::Have(piece) => Outgoing::Send(Message::Have(piece)),
                SessionToPeer::SendBitfield(bytes) => Outgoing::Send(
                    Message::Bitfield(crate::blob::blob_from_vec(bytes)),
                ),
                SessionToPeer::SendHaveAll => Outgoing::Send(Message::HaveAll),
                SessionToPeer::SendHaveNone => Outgoing::Send(Message::HaveNone),
                SessionToPeer::Choke => Outgoing::Send(Message::Choke),
                SessionToPeer::Unchoke => Outgoing::Send(Message::Unchoke),
                SessionToPeer::BlockReady { req, data } => {
                    let cost: u64 = blob_bytes(&data).len() as u64;
                    Outgoing::SendBlock { req, data, cost }
                },
                SessionToPeer::RejectRequest(req) => {
                    if self.fast_ext {
                        Outgoing::Send(Message::RejectRequest(req))
                    } else {
                        Outgoing::Nothing
                    }
                },
                SessionToPeer::SendExtended { payload } => {
                    let number: Option<u8> = match &self.extensions {
                        None => None,
                        Some(remote) => match &payload {
                            ExtensionPayload::Metadata(_) => remote.ut_metadata,
                            ExtensionPayload::Pex(_) => remote.ut_pex,
                        },
                    };
                    match number {
                        None => Outgoing::Nothing,
                        Some(id) => Outgoing::SendExtended { id, payload },
                    }
                },
            },
        }
    }

    /// Takes a message that came in and says what it asks for.
    pub fn on_message(&mut self, msg: Message) -> (r: Incoming)
        requires
            old(self)@.wf(),
        ensures
            final(self)@.wf(),
            final(self)@ == old(self)@.on_message(msg),
            r == old(self)@.incoming(msg),
    {
        let slot = self.slot;
        match msg {
            Message::Choke => {
                if !self.fast_ext {
                    self.in_flight.clear();
                    assert(self@ =~= old(self)@.on_message(msg));
                }
                Incoming::Event(PeerToSession::Choked { slot })
            },
            Message::Unchoke => Incoming::Event(PeerToSession::Unchoked { slot }),
            Message::Interested => Incoming::Event(PeerToSession::Interested { slot }),
            Message::NotInterested => Incoming::Event(PeerToSession::NotInterested { slot }),
            Message::Have(piece) => Incoming::Event(PeerToSession::Have { slot, piece }),
            Message::Bitfield(bytes) => Incoming::Event(PeerToSession::Bitfield { slot, bytes }),
            Message::HaveAll => Incoming::Event(PeerToSession::HaveAll { slot }),
            Message::HaveNone => Incoming::Event(PeerToSession::HaveNone { slot }),
            Message::Request(req) => Incoming::Event(PeerToSession::BlockRequested { slot, req }),
            Message::Cancel(req) => Incoming::Event(PeerToSession::RequestCancelled { slot, req }),
            Message::Piece { piece, offset, data } => {
                let n: usize = blob_bytes(&data).len();
                let length: u32 = if n as u64 <= 0xffff_ffff {
                    n as u32
                } else {
                    u32::MAX
                };
                let _known = self.settle(BlockRequest { piece, offset, length });
                Incoming::Block {
                    event: PeerToSession::BlockReceived { slot, piece, offset, data },
                    cost: length,
                }
            },
            Message::RejectRequest(req) => {
                let _known = self.settle(req);
                Incoming::Event(PeerToSession::Rejected { slot, req })
            },
            Message::Extended { id, payload } => {
                if blob_bytes(&payload).len() > MAX_EXTENSION_PAYLOAD {
                    return Incoming::Nothing;
                }
                if self.extensions.is_none() {
                    return Incoming::Nothing;
                }
                if id == 0 {
                    Incoming::LateHandshake { payload }
                } else if id == UT_METADATA_ID {
                    Incoming::Extension { kind: ExtensionKind::Metadata, payload }
                } else if id == UT_PEX_ID {
                    Incoming::Extension { kind: ExtensionKind::Pex, payload }
                } else {
                    Incoming::Nothing
                }
            },
            Message::KeepAlive => Incoming::Nothing,
            Message::SuggestPiece(_) => Incoming::Nothing,
            Message::AllowedFast(_) => Incoming::Nothing,
            Message::Unknown => Incoming::Nothing,
        }
    }

    /// Notes the numbers of a late extension handshake, where extensions are
    /// spoken at all.
    pub fn on_late_handshake(&mut self, extensions: RemoteExtensions)
        ensures
            final(self)@ == (ConnModel {
                extensions: if old(self)@.extensions is Some {
                    Some(extensions)
                } else {
                    None
                },
                ..old(self)@
            }),
    {
        if self.extensions.is_some() {
            self.extensions = Some(extensions);
        }
    }

    /// Takes what came in place of the peer's extension handshake. Where it failed,
    /// the connection goes on without extensions. Any other message is taken as
    /// it is.
    pub fn on_extension_handshake(&mut self, reply: HandshakeReply) -> (r: Incoming)
        requires
            old(self)@.wf(),
        ensures
            final(self)@.wf(),
            ({
                let bare = ConnModel {
                    extensions: Some(RemoteExtensions { ut_metadata: None, ut_pex: None }),
                    ..old(self)@
                };
                match reply {
                    HandshakeReply::Decoded { extensions, metadata_size, listen_port } => {
                        &&& final(self)@ == (ConnModel {
                            extensions: Some(extensions),
                            ..old(self)@
                        })
                        &&& r == Incoming::Event(
                            PeerToSession::ExtensionHandshake {
                                slot: old(self)@.slot,
                                metadata_size,
                                listen_port,
                            },
                        )
                    },
                    HandshakeReply::Other(msg) => final(self)@ == bare.on_message(msg) && r
                        == bare.incoming(msg),
                    HandshakeReply::TimedOut => final(self)@ == bare && r is Nothing,
                    HandshakeReply::Malformed => final(self)@ == old(self)@ && r is Nothing,
                    HandshakeReply::Broken => final(self)@ == old(self)@ && r is Nothing,
                }
            }),
    {
        match reply {
            HandshakeReply::Decoded { extensions, metadata_size, listen_port } => {
                self.extensions = Some(extensions);
                Incoming::Event(
                    PeerToSession::ExtensionHandshake { slot: self.slot, metadata_size, listen_port },
                )
            },
            HandshakeReply::Other(msg) => {
                self.extensions = Some(RemoteExtensions::none());
                self.on_message(msg)
            },
            HandshakeReply::TimedOut => {
                self.extensions = Some(RemoteExtensions::none());
                Incoming::Nothing
            },
            HandshakeReply::Malformed => Incoming::Nothing,
            HandshakeReply::Broken => Incoming::Nothing,
        }
    }
}

/// How the transport failed.
#[derive(Debug)]
pub enum WireFault {
    /// The underlying stream failed.
    Io(String),
    /// The peer's bytes were no message.
    Protocol(String),
}

/// The reason to disconnect that a failure of the transport gives.
pub fn io_or_protocol(fault: WireFault) -> (r: DisconnectReason)
    ensures
        match fault {
            WireFault::Io(why) => r == DisconnectReason::Io(why),
            WireFault::Protocol(why) => r == DisconnectReason::ProtocolError(why),
        },
{
    match fault {
        WireFault::Io(why) => DisconnectReason::Io(why),
        WireFault::Protocol(why) => DisconnectReason::ProtocolError(why),
    }
}

/// A connection never has more requests under way than its limit, nor one
/// twice, whatever the session says.
pub proof fn law_requests_bounded(m: ConnModel, cmd: Option<PeerNote>)
    requires
        m.wf(),
    ensures
        m.on_command(cmd).0.in_flight.len() <= m.max_in_flight,
        m.on_command(cmd).0.max_in_flight == m.max_in_flight,
{
    if let Some(PeerNote::Cancel(req)) = cmd {
        if m.in_flight.contains(req) {
            let i = choose|i: int| 0 <= i < m.in_flight.len() && m.in_flight[i] == req;
            lemma_first_place_bound(m.in_flight, req, i);
        }
    }
}

proof fn lemma_first_place_bound(s: Seq<BlockRequest>, req: BlockRequest, i: int)
    requires
        0 <= i < s.len(),
        s[i] == req,
    ensures
        0 <= first_place(s, req) <= i,
    decreases s.len(),
{
    if s[0] != req {
        assert(s.drop_first()[i - 1] == req);
        lemma_first_place_bound(s.drop_first(), req, i - 1);
    }
}

/// A request that was sent and answered with its block is no longer under way,
/// and can be sent again.
pub proof fn law_answered_request_settled(m: ConnModel, req: BlockRequest, data: Bytes)
    requires
        m.wf(),
        m.in_flight.len() < m.max_in_flight,
        !m.in_flight.contains(req),
        req.length == blob(data).len(),
    ensures
        m.on_command(Some(PeerNote::Request(req))).0.on_message(
            Message::Piece { piece: req.piece, offset: req.offset, data },
        ) == m,
{
    let asked = m.on_command(Some(PeerNote::Request(req))).0;
    let n: int = m.in_flight.len() as int;
    assert(asked.in_flight[n] == req);
    assert forall|j: int| 0 <= j < n implies asked.in_flight[j] != req by {
        assert(m.in_flight.contains(m.in_flight[j]));
    }
    lemma_first_place(asked.in_flight, req, n);
    assert(asked.in_flight.remove(n) =~= m.in_flight);
    assert(counted(blob(data).len()) == req.length);
}

/// The session hears of nothing while the peer only keeps the connection alive
/// or hints.
pub proof fn law_hints_are_silent(m: ConnModel, msg: Message)
    requires
        msg is KeepAlive || msg is SuggestPiece || msg is AllowedFast || msg is Unknown,
    ensures
        m.on_message(msg) == m,
        m.incoming(msg) is Nothing,
{
}

} // verus!
