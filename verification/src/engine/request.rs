//! What torrents and peers are added with, and why they cannot be.
//!
//! Times are nanoseconds.
use crate::ids::TorrentId;
use crate::net::PeerAddr;
use crate::session::disk::DEFAULT_DISK_QUEUE_CAPACITY;
use crate::session::params::{TorrentParams, TorrentParamsError};
use crate::session::peer::{InfoHashMismatch, DEFAULT_EXTENSION_HANDSHAKE_TIMEOUT};
use crate::session::torrent::DEFAULT_PER_PEER_IN_FLIGHT;
use crate::text::text;
use vstd::prelude::*;

verus! {

/// Time that a connection attempt may take: five seconds.
pub const DEFAULT_PEER_CONNECT_TIMEOUT: u64 = 5_000_000_000;

/// Usual number of peers of one torrent.
pub const DEFAULT_PER_TORRENT_PEER_CAP: usize = 50;

/// Usual number of peers of all torrents.
pub const DEFAULT_GLOBAL_PEER_CAP: usize = 500;

/// Usual time that a handshake may take: ten seconds.
pub const HANDSHAKE_TIMEOUT: u64 = 10_000_000_000;

/// There is no such torrent.
#[derive(Debug, Clone, Copy, PartialEq, Eq, Structural)]
pub struct TorrentNotFoundError(pub TorrentId);

/// A torrent as the registry sees it.
#[derive(Debug, Clone, Copy)]
#[non_exhaustive]
pub struct TorrentStateView {
    /// Its hash.
    pub info_hash: [u8; 20],
    /// Its length.
    pub total_length: u64,
    /// Its peers at this moment.
    pub peer_count: usize,
    /// The most that it may have.
    pub peer_cap: usize,
}

/// What a torrent is added with.
#[derive(Debug)]
pub struct AddTorrentRequest {
    /// Its hash.
    pub info_hash: [u8; 20],
    /// Its parameters.
    pub params: TorrentParams,
    /// Our peer id.
    pub peer_id: [u8; 20],
    /// Most requests under way at once on one connection.
    pub max_in_flight: u32,
    /// Largest message that is taken.
    pub max_payload: u32,
    /// Whether to speak the Fast extension.
    pub fast_ext: bool,
    /// Whether to speak the extension protocol.
    pub extension_protocol: bool,
    /// Time that the handshake may take.
    pub handshake_timeout: u64,
    /// Time that the peer's extension handshake may take.
    pub extension_handshake_timeout: u64,
    /// Room for disk operations.
    pub disk_queue_capacity: usize,
    /// Most peers.
    pub peer_cap: usize,
    /// Which pieces are here already; empty for none.
    pub initial_have: Vec<bool>,
    /// The info dictionary, if it is to be served.
    pub info_dict_bytes: Option<Vec<u8>>,
    /// Time between two rounds of peer exchange, if not the usual one.
    pub pex_interval: Option<u64>,
}

impl AddTorrentRequest {
    /// A torrent with the usual settings, and the given limit on messages.
    pub fn new(info_hash: [u8; 20], params: TorrentParams, peer_id: [u8; 20], max_payload: u32) -> (r:
        AddTorrentRequest)
        ensures
            r.info_hash == info_hash,
            r.params == params,
            r.peer_id == peer_id,
            r.max_in_flight == DEFAULT_PER_PEER_IN_FLIGHT,
            r.max_payload == max_payload,
            r.fast_ext,
            r.extension_protocol,
            r.handshake_timeout == HANDSHAKE_TIMEOUT,
            r.extension_handshake_timeout == DEFAULT_EXTENSION_HANDSHAKE_TIMEOUT,
            r.disk_queue_capacity == DEFAULT_DISK_QUEUE_CAPACITY,
            r.peer_cap == DEFAULT_PER_TORRENT_PEER_CAP,
            r.initial_have@.len() == 0,
            r.info_dict_bytes is None,
            r.pex_interval is None,
    {
        AddTorrentRequest {
            info_hash,
            params,
            peer_id,
            max_in_flight: DEFAULT_PER_PEER_IN_FLIGHT,
            max_payload,
            fast_ext: true,
            extension_protocol: true,
            handshake_timeout: HANDSHAKE_TIMEOUT,
            extension_handshake_timeout: DEFAULT_EXTENSION_HANDSHAKE_TIMEOUT,
            disk_queue_capacity: DEFAULT_DISK_QUEUE_CAPACITY,
            peer_cap: DEFAULT_PER_TORRENT_PEER_CAP,
            initial_have: Vec::new(),
            info_dict_bytes: None,
            pex_interval: None,
        }
    }
}

/// What a magnet link says.
#[derive(Debug)]
pub struct MagnetLink {
    /// The torrent's hash.
    pub info_hash: [u8; 20],
    /// Its trackers.
    pub trackers: Vec<String>,
    /// Peers that are known to have it.
    pub peer_addrs: Vec<PeerAddr>,
    /// Its name.
    pub display_name: Option<String>,
}

/// What a torrent that is known by a magnet link is added with.
#[derive(Debug)]
pub struct AddMagnetRequest {
    /// The link.
    pub magnet: MagnetLink,
    /// Our peer id.
    pub peer_id: [u8; 20],
    /// Most requests under way at once on one connection.
    pub max_in_flight: u32,
    /// Largest message that is taken.
    pub max_payload: u32,
    /// Whether to speak the Fast extension.
    pub fast_ext: bool,
    /// Whether to speak the extension protocol.
    pub extension_protocol: bool,
    /// Time that the handshake may take.
    pub handshake_timeout: u64,
    /// Time that the peer's extension handshake may take.
    pub extension_handshake_timeout: u64,
    /// Room for disk operations.
    pub disk_queue_capacity: usize,
    /// Most peers.
    pub peer_cap: usize,
}

impl AddMagnetRequest {
    /// A torrent with the usual settings, and the given limit on messages.
    pub fn new(magnet: MagnetLink, peer_id: [u8; 20], max_payload: u32) -> (r: AddMagnetRequest)
        ensures
            r.magnet == magnet,
            r.peer_id == peer_id,
            r.max_in_flight == DEFAULT_PER_PEER_IN_FLIGHT,
            r.max_payload == max_payload,
            r.fast_ext,
            r.extension_protocol,
            r.handshake_timeout == HANDSHAKE_TIMEOUT,
            r.extension_handshake_timeout == DEFAULT_EXTENSION_HANDSHAKE_TIMEOUT,
            r.disk_queue_capacity == DEFAULT_DISK_QUEUE_CAPACITY,
            r.peer_cap == DEFAULT_PER_TORRENT_PEER_CAP,
    {
        AddMagnetRequest {
            magnet,
            peer_id,
            max_in_flight: DEFAULT_PER_PEER_IN_FLIGHT,
            max_payload,
            fast_ext: true,
            extension_protocol: true,
            handshake_timeout: HANDSHAKE_TIMEOUT,
            extension_handshake_timeout: DEFAULT_EXTENSION_HANDSHAKE_TIMEOUT,
            disk_queue_capacity: DEFAULT_DISK_QUEUE_CAPACITY,
            peer_cap: DEFAULT_PER_TORRENT_PEER_CAP,
        }
    }
}

/// Why a torrent of a magnet link cannot be added.
#[derive(Debug, Clone, Copy, PartialEq, Eq, Structural)]
#[non_exhaustive]
pub enum AddMagnetError {
    /// Its session is gone.
    SessionClosed,
}

/// Why a torrent cannot be added.
#[derive(Debug)]
#[non_exhaustive]
pub enum AddTorrentError {
    /// Its parameters are not acceptable.
    InvalidParams(TorrentParamsError),
}

/// Why a handshake failed.
#[derive(Debug)]
#[non_exhaustive]
pub enum HandshakeError {
    /// The transport failed.
    Io(String),
    /// The bytes are no handshake.
    Decode(String),
    /// The peer is about another torrent.
    InfoHashMismatch(InfoHashMismatch),
    /// It took longer than this.
    Timeout(u64),
}

/// Which limit on peers was reached.
#[derive(Debug, Clone, Copy, PartialEq, Eq, Structural)]
pub enum PeerCapScope {
    /// That of all torrents.
    Global,
    /// That of this torrent.
    Torrent,
}

impl PeerCapScope {
    /// The name of the limit.
    pub fn message(&self) -> (r: String)
        ensures
            r@ == (match *self {
                PeerCapScope::Global => "global"@,
                PeerCapScope::Torrent => "torrent"@,
            }),
    {
        match self {
            PeerCapScope::Global => text("global"),
            PeerCapScope::Torrent => text("torrent"),
        }
    }
}

/// Why a peer cannot be added.
#[derive(Debug)]
#[non_exhaustive]
pub enum AddPeerError {
    /// There is no such torrent.
    UnknownTorrent(TorrentId),
    /// The address is not acceptable.
    Filtered(PeerAddr),
    /// No connection could be made.
    Connect(String),
    /// The handshake failed.
    Handshake(HandshakeError),
    /// The torrent's session is gone.
    SessionClosed,
    /// The peer is connected already.
    PeerIdCollision,
    /// There are too many peers.
    PeerCapExceeded {
        /// Which limit was reached.
        scope: PeerCapScope,
    },
}

} // verus!
