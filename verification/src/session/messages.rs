//! Messages between a torrent session, its peers and the rest of the engine.
use crate::alerts::category::Alert;
use crate::blob::{blob, blob_slice};
use crate::ids::PeerSlot;
use crate::net::PeerAddr;
use crate::session::disk::DiskError;
use crate::session::params::BlockRequest;
use crate::session::pex::{PexMessage, PexPeer};
use bytes::Bytes;
use vstd::prelude::*;

verus! {

/// A metadata exchange message.
#[derive(Debug)]
pub enum MetadataMessage {
    /// Asks for a piece of metadata.
    Request {
        /// Piece index.
        piece: u32,
    },
    /// Brings a piece of metadata.
    Data {
        /// Piece index.
        piece: u32,
        /// Size of all metadata.
        total_size: u64,
        /// The piece.
        data: Bytes,
    },
    /// Refuses a piece of metadata.
    Reject {
        /// Piece index.
        piece: u32,
    },
}

/// What an extension message carries.
#[derive(Debug)]
pub enum ExtensionPayload {
    /// A metadata exchange message, under the name `ut_metadata`.
    Metadata(MetadataMessage),
    /// A peer exchange message, under the name `ut_pex`.
    Pex(PexMessage),
}

/// An extension message as it came in. A payload that could not be decoded is
/// `None`.
#[derive(Debug)]
pub enum ExtensionInput {
    /// Under the name `ut_metadata`.
    Metadata(Option<MetadataMessage>),
    /// Under the name `ut_pex`.
    Pex(Option<PexMessage>),
    /// Under any other name.
    Other,
}

/// What a peer task tells the session.
#[derive(Debug)]
#[non_exhaustive]
pub enum PeerToSession {
    /// The handshake is done.
    Connected {
        /// The connection.
        slot: PeerSlot,
        /// The peer's id.
        peer_id: [u8; 20],
        /// Whether both sides speak the Fast extension.
        supports_fast: bool,
        /// The peer's address, if known.
        addr: Option<PeerAddr>,
    },
    /// The peer choked us.
    Choked {
        /// The connection.
        slot: PeerSlot,
    },
    /// The peer unchoked us.
    Unchoked {
        /// The connection.
        slot: PeerSlot,
    },
    /// The peer has a new piece.
    Have {
        /// The connection.
        slot: PeerSlot,
        /// Piece index.
        piece: u32,
    },
    /// The peer's pieces, packed.
    Bitfield {
        /// The connection.
        slot: PeerSlot,
        /// One bit per piece.
        bytes: Bytes,
    },
    /// The peer has every piece.
    HaveAll {
        /// The connection.
        slot: PeerSlot,
    },
    /// The peer has no piece.
    HaveNone {
        /// The connection.
        slot: PeerSlot,
    },
    /// A block came.
    BlockReceived {
        /// The connection.
        slot: PeerSlot,
        /// Piece index.
        piece: u32,
        /// Offset inside the piece.
        offset: u32,
        /// The bytes.
        data: Bytes,
    },
    /// The peer refused a request of ours.
    Rejected {
        /// The connection.
        slot: PeerSlot,
        /// The request.
        req: BlockRequest,
    },
    /// The peer wants to download from us.
    Interested {
        /// The connection.
        slot: PeerSlot,
    },
    /// The peer no longer wants to download from us.
    NotInterested {
        /// The connection.
        slot: PeerSlot,
    },
    /// The peer asks for a block.
    BlockRequested {
        /// The connection.
        slot: PeerSlot,
        /// The request.
        req: BlockRequest,
    },
    /// The peer takes a request back.
    RequestCancelled {
        /// The connection.
        slot: PeerSlot,
        /// The request.
        req: BlockRequest,
    },
    /// The peer told which extensions it speaks.
    ExtensionHandshake {
        /// The connection.
        slot: PeerSlot,
        /// Size of the torrent's metadata, if it said.
        metadata_size: Option<u64>,
        /// The port that it listens on, if it said.
        listen_port: Option<u16>,
    },
    /// An extension message came.
    ExtensionMessage {
        /// The connection.
        slot: PeerSlot,
        /// The message.
        input: ExtensionInput,
    },
    /// The connection is gone.
    Disconnected {
        /// The connection.
        slot: PeerSlot,
        /// Why.
        reason: DisconnectReason,
    },
}

/// Why a peer task ends.
#[derive(Debug)]
#[non_exhaustive]
pub enum DisconnectReason {
    /// The peer closed the connection.
    Eof,
    /// This side shut it down.
    Shutdown,
    /// The peer broke the protocol.
    ProtocolError(String),
    /// The transport failed.
    Io(String),
}

/// What a session tells a peer task.
#[derive(Debug)]
#[non_exhaustive]
pub enum SessionToPeer {
    /// Set our interest in the peer.
    SetInterested(bool),
    /// Ask for a block.
    Request(BlockRequest),
    /// Take a request back.
    Cancel(BlockRequest),
    /// Announce a piece.
    Have(u32),
    /// Announce our pieces, packed.
    SendBitfield(Vec<u8>),
    /// Announce that we have every piece.
    SendHaveAll,
    /// Announce that we have no piece.
    SendHaveNone,
    /// Stop serving the peer.
    Choke,
    /// Start serving the peer.
    Unchoke,
    /// Send a block.
    BlockReady {
        /// The request that it answers.
        req: BlockRequest,
        /// The bytes.
        data: Bytes,
    },
    /// Refuse a request.
    RejectRequest(BlockRequest),
    /// Send an extension message.
    SendExtended {
        /// Its payload; the extension's name follows from it.
        payload: ExtensionPayload,
    },
    /// End the peer task.
    Shutdown,
}

/// What the engine tells a session.
#[derive(Debug)]
#[non_exhaustive]
pub enum SessionCommand {
    /// Attach a peer.
    RegisterPeer {
        /// The connection.
        slot: PeerSlot,
        /// Most requests that may be under way on it.
        max_in_flight: u32,
        /// Whether both sides speak the Fast extension.
        supports_fast: bool,
    },
    /// Stop scheduling and serving.
    Pause,
    /// Go on after a pause.
    Resume,
    /// End the session.
    Shutdown,
    /// Hand out the addresses that peer exchange found.
    DrainPexDiscovered,
    /// Hand out which pieces are here.
    BitfieldSnapshot,
}

/// What a session wants done, in order.
#[derive(Debug)]
pub enum Action {
    /// Tell a peer task something.
    Send {
        /// The connection.
        slot: PeerSlot,
        /// What to tell.
        msg: SessionToPeer,
    },
    /// Raise an alert.
    Raise(Alert),
    /// Verify a piece and write it.
    VerifyAndWrite {
        /// Piece index.
        piece: u32,
        /// Where it starts in the torrent.
        offset: u64,
        /// Its bytes.
        buffer: Bytes,
        /// The hash that it must have.
        expected_hash: [u8; 20],
    },
    /// Read a piece through the cache and answer a request with a block of it.
    ServeBlock {
        /// The connection.
        slot: PeerSlot,
        /// Whether a failed read may be answered with a refusal.
        supports_fast: bool,
        /// Where the piece starts in the torrent.
        piece_offset: u64,
        /// Its length.
        piece_size: u32,
        /// The request.
        req: BlockRequest,
    },
    /// Hash and parse this metadata, and report back.
    VerifyMetadata {
        /// The assembled metadata.
        metadata: Vec<u8>,
    },
}

/// What a metadata exchange message says.
pub enum MetadataNote {
    /// Asks for a piece of metadata.
    Request {
        /// Piece index.
        piece: u32,
    },
    /// Brings a piece of metadata.
    Data {
        /// Piece index.
        piece: u32,
        /// Size of all metadata.
        total_size: u64,
        /// The piece.
        data: Seq<u8>,
    },
    /// Refuses a piece of metadata.
    Reject {
        /// Piece index.
        piece: u32,
    },
}

/// What an extension message says.
pub enum ExtensionNote {
    /// A metadata exchange message.
    Metadata(MetadataNote),
    /// A peer exchange message: peers that came, peers that went.
    Pex(Seq<PexPeer>, Seq<PeerAddr>),
}

/// What a message to a peer task says.
pub enum PeerNote {
    /// Set our interest in the peer.
    SetInterested(bool),
    /// Ask for a block.
    Request(BlockRequest),
    /// Take a request back.
    Cancel(BlockRequest),
    /// Announce a piece.
    Have(u32),
    /// Announce our pieces, packed.
    SendBitfield(Seq<u8>),
    /// Announce that we have every piece.
    SendHaveAll,
    /// Announce that we have no piece.
    SendHaveNone,
    /// Stop serving the peer.
    Choke,
    /// Start serving the peer.
    Unchoke,
    /// Send a block.
    BlockReady {
        /// The request that it answers.
        req: BlockRequest,
        /// The bytes.
        data: Seq<u8>,
    },
    /// Refuse a request.
    RejectRequest(BlockRequest),
    /// Send an extension message.
    SendExtended(ExtensionNote),
    /// End the peer task.
    Shutdown,
}

/// What an action asks for.
pub enum Deed {
    /// Tell a peer task something.
    Send(PeerSlot, PeerNote),
    /// Raise an alert.
    Raise(Alert),
    /// Verify a piece and write it.
    VerifyAndWrite {
        /// Piece index.
        piece: u32,
        /// Where it starts in the torrent.
        offset: u64,
        /// Its bytes.
        buffer: Seq<u8>,
        /// The hash that it must have.
        expected_hash: Seq<u8>,
    },
    /// Read a piece through the cache and answer a request with a block of it.
    ServeBlock {
        /// The connection.
        slot: PeerSlot,
        /// Whether a failed read may be answered with a refusal.
        supports_fast: bool,
        /// Where the piece starts in the torrent.
        piece_offset: u64,
        /// Its length.
        piece_size: u32,
        /// The request.
        req: BlockRequest,
    },
    /// Hash and parse this metadata, and report back.
    VerifyMetadata(Seq<u8>),
}

impl View for MetadataMessage {
    type V = MetadataNote;

    open spec fn view(&self) -> MetadataNote {
        match *self {
            MetadataMessage::Request { piece } => MetadataNote::Request { piece },
            MetadataMessage::Data { piece, total_size, data } => MetadataNote::Data {
                piece,
                total_size,
                data: blob(data),
            },
            MetadataMessage::Reject { piece } => MetadataNote::Reject { piece },
        }
    }
}

impl View for ExtensionPayload {
    type V = ExtensionNote;

    open spec fn view(&self) -> ExtensionNote {
        match *self {
            ExtensionPayload::Metadata(m) => ExtensionNote::Metadata(m@),
            ExtensionPayload::Pex(m) => ExtensionNote::Pex(m.added@, m.dropped@),
        }
    }
}

impl View for SessionToPeer {
    type V = PeerNote;

    open spec fn view(&self) -> PeerNote {
        match *self {
            SessionToPeer::SetInterested(b) => PeerNote::SetInterested(b),
            SessionToPeer::Request(req) => PeerNote::Request(req),
            SessionToPeer::Cancel(req) => PeerNote::Cancel(req),
            SessionToPeer::Have(piece) => PeerNote::Have(piece),
            SessionToPeer::SendBitfield(bytes) => PeerNote::SendBitfield(bytes@),
            SessionToPeer::SendHaveAll => PeerNote::SendHaveAll,
            SessionToPeer::SendHaveNone => PeerNote::SendHaveNone,
            SessionToPeer::Choke => PeerNote::Choke,
            SessionToPeer::Unchoke => PeerNote::Unchoke,
            SessionToPeer::BlockReady { req, data } => PeerNote::BlockReady {
                req,
                data: blob(data),
            },
            SessionToPeer::RejectRequest(req) => PeerNote::RejectRequest(req),
            SessionToPeer::SendExtended { payload } => PeerNote::SendExtended(payload@),
            SessionToPeer::Shutdown => PeerNote::Shutdown,
        }
    }
}

impl View for Action {
    type V = Deed;

    open spec fn view(&self) -> Deed {
        match *self {
            Action::Send { slot, msg } => Deed::Send(slot, msg@),
            Action::Raise(alert) => Deed::Raise(alert),
            Action::VerifyAndWrite { piece, offset, buffer, expected_hash } => Deed::VerifyAndWrite {
                piece,
                offset,
                buffer: blob(buffer),
                expected_hash: expected_hash@,
            },
            Action::ServeBlock { slot, supports_fast, piece_offset, piece_size, req } =>
                Deed::ServeBlock { slot, supports_fast, piece_offset, piece_size, req },
            Action::VerifyMetadata { metadata } => Deed::VerifyMetadata(metadata@),
        }
    }
}

/// What a list of actions asks for.
pub open spec fn deeds(actions: Seq<Action>) -> Seq<Deed> {
    Seq::new(actions.len(), |i: int| actions[i]@)
}

/// Appends an action.
pub fn act(out: &mut Vec<Action>, action: Action)
    ensures
        deeds(final(out)@) == deeds(old(out)@).push(action@),
{
    out.push(action);
    assert(deeds(out@) =~= deeds(old(out)@).push(action@));
}

/// Appends a message to a peer.
pub fn tell(out: &mut Vec<Action>, slot: PeerSlot, msg: SessionToPeer)
    ensures
        deeds(final(out)@) == deeds(old(out)@).push(Deed::Send(slot, msg@)),
{
    act(out, Action::Send { slot, msg });
}

/// The answer to a request once its piece was read, or not: the block, or a
/// refusal where the peer understands one.
pub fn answer_request(
    req: BlockRequest,
    supports_fast: bool,
    piece: &Result<Bytes, DiskError>,
) -> (r: Option<SessionToPeer>)
    requires
        *piece matches Ok(b) ==> req.offset + req.length <= blob(b).len() && req.offset
            + req.length <= u32::MAX,
    ensures
        match (*piece, r) {
            (Ok(b), Some(SessionToPeer::BlockReady { req: answered, data })) => answered == req
                && blob(data) == blob(b).subrange(req.offset as int, req.offset + req.length),
            (Err(_), Some(SessionToPeer::RejectRequest(refused))) => supports_fast && refused
                == req,
            (Err(_), None) => !supports_fast,
            _ => false,
        },
{
    match piece {
        Ok(bytes) => {
            let start: usize = req.offset as usize;
            let end: usize = (req.offset + req.length) as usize;
            Some(SessionToPeer::BlockReady { req, data: blob_slice(bytes, start, end) })
        },
        Err(_) => if supports_fast {
            Some(SessionToPeer::RejectRequest(req))
        } else {
            None
        },
    }
}

/// What is said of an action is said of what it holds: its connection, its piece and
/// where that lies, its bytes and its request.
pub proof fn law_deeds_are_their_actions(
    slot: PeerSlot,
    fast: bool,
    piece: u32,
    offset: u64,
    size: u32,
    buffer: Bytes,
    hash: [u8; 20],
    req: BlockRequest,
    metadata: Vec<u8>,
)
    ensures
        ({
            let a = Action::VerifyAndWrite { piece, offset, buffer, expected_hash: hash };
            &&& a@ is VerifyAndWrite
            &&& a@->VerifyAndWrite_piece == piece && a@->VerifyAndWrite_offset == offset
            &&& a@->VerifyAndWrite_buffer == blob(buffer)
            &&& a@->VerifyAndWrite_expected_hash == hash@
        }),
        ({
            let a = Action::ServeBlock {
                slot,
                supports_fast: fast,
                piece_offset: offset,
                piece_size: size,
                req,
            };
            &&& a@ is ServeBlock
            &&& a@->ServeBlock_slot == slot && a@->ServeBlock_supports_fast == fast
            &&& a@->ServeBlock_piece_offset == offset && a@->ServeBlock_piece_size == size
            &&& a@->ServeBlock_req == req
        }),
        ({
            let a = Action::VerifyMetadata { metadata };
            a@ is VerifyMetadata && a@->VerifyMetadata_0 == metadata@
        }),
        ({
            let data = MetadataMessage::Data { piece, total_size: offset, data: buffer };
            &&& data@ is Data
            &&& data@->Data_piece == piece && data@->Data_total_size == offset
            &&& data@->Data_data == blob(buffer)
            &&& (MetadataMessage::Request { piece })@ == (MetadataNote::Request { piece })
            &&& (MetadataMessage::Reject { piece })@ == (MetadataNote::Reject { piece })
        }),
        ({
            let ready = SessionToPeer::BlockReady { req, data: buffer };
            &&& ready@ is BlockReady
            &&& ready@->BlockReady_req == req && ready@->BlockReady_data == blob(buffer)
            &&& SessionToPeer::Request(req)@ == PeerNote::Request(req)
            &&& SessionToPeer::Cancel(req)@ == PeerNote::Cancel(req)
            &&& SessionToPeer::RejectRequest(req)@ == PeerNote::RejectRequest(req)
            &&& SessionToPeer::Have(piece)@ == PeerNote::Have(piece)
            &&& SessionToPeer::SetInterested(fast)@ == PeerNote::SetInterested(fast)
            &&& SessionToPeer::SendBitfield(metadata)@ == PeerNote::SendBitfield(metadata@)
            &&& SessionToPeer::Choke@ is Choke && SessionToPeer::Unchoke@ is Unchoke
            &&& SessionToPeer::SendHaveAll@ is SendHaveAll
            &&& SessionToPeer::SendHaveNone@ is SendHaveNone
            &&& SessionToPeer::Shutdown@ is Shutdown
            &&& Action::Send { slot, msg: ready }@ == Deed::Send(slot, ready@)
        }),
{
}

} // verus!
