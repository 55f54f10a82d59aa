//! Per-torrent session: parameters, messages, rules and bookkeeping.

pub mod bitfield;
pub mod choker;
pub mod conversation;
pub mod disk;
pub mod effects;
pub mod flush;
pub mod info;
pub mod keeps;
pub mod laws;
pub mod messages;
pub mod metadata_exchange;
pub mod model;
pub mod params;
pub mod pausing;
pub mod peer;
pub mod peer_upload;
pub mod pex;
pub mod progress;
pub mod read_cache;
pub mod resume;
pub mod scheduling;
pub mod shaper;
pub mod sharing;
pub mod stats;
pub mod torrent;
pub mod udp;

pub use crate::ids::PeerSlot;
pub use disk::{
    DiskCompletion, DiskError, DiskMetrics, DiskOp, DiskWriter, DEFAULT_DISK_QUEUE_CAPACITY,
};
pub use messages::{DisconnectReason, PeerToSession, SessionCommand, SessionToPeer};
pub use metadata_exchange::{MetadataAssembler, MetadataAssemblyError};
pub use model::TorrentState;
pub use params::{TorrentParams, TorrentParamsError};
pub use peer::{
    HandshakeRole, PeerConfig, PeerConn, DEFAULT_EXTENSION_HANDSHAKE_TIMEOUT,
    DEFAULT_HANDSHAKE_TIMEOUT, PEER_TO_SESSION_CAPACITY,
};
pub use resume::{FileResumeSink, ResumeSinkError, ResumeSnapshot, SCHEMA_VERSION};
pub use torrent::{TorrentSession, DEFAULT_PER_PEER_IN_FLIGHT, SESSION_COMMAND_CAPACITY};
