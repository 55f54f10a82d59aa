//! Announcing a torrent to a tracker or to the DHT again and again: what to say,
//! how long to wait, and what to report.
//!
//! Times are nanoseconds.
use crate::alerts::category::{Alert, AlertErrorCode};
use crate::engine::request::AddPeerError;
use crate::ids::TorrentId;
use vstd::prelude::*;

verus! {

/// Least time between two announces to a tracker: half a minute.
pub const MIN_TRACKER_INTERVAL: u64 = 30_000_000_000;

/// How a torrent is announced to a tracker.
#[derive(Debug, Clone, Copy)]
pub struct AttachTrackerConfig {
    /// The port that other peers are told.
    pub listen_port: u16,
    /// How many peers to ask for; the tracker decides where there is none.
    pub num_want: Option<u32>,
    /// Time to wait after a failure.
    pub error_backoff: u64,
}

impl Default for AttachTrackerConfig {
    fn default() -> (r: Self)
        ensures
            r.listen_port == 6881,
            r.num_want == Some(50u32),
            r.error_backoff == 60_000_000_000,
    {
        AttachTrackerConfig {
            listen_port: 6881,
            num_want: Some(50),
            error_backoff: 60_000_000_000,
        }
    }
}

/// Why an announce is made.
#[derive(Debug, Clone, Copy, PartialEq, Eq, Structural)]
pub enum AnnounceEvent {
    /// The torrent was started.
    Started,
    /// Time has come again.
    Periodic,
}

/// What is said to a tracker.
#[derive(Debug)]
pub struct AnnounceRequest {
    /// The torrent.
    pub info_hash: [u8; 20],
    /// Our peer id.
    pub peer_id: [u8; 20],
    /// The port that other peers are told.
    pub port: u16,
    /// Bytes sent.
    pub uploaded: u64,
    /// Bytes received.
    pub downloaded: u64,
    /// Bytes that are missing.
    pub left: u64,
    /// Why the announce is made.
    pub event: AnnounceEvent,
    /// How many peers to ask for.
    pub num_want: Option<u32>,
    /// Whether peers are to be listed compactly.
    pub compact: bool,
    /// What the tracker gave as its id.
    pub tracker_id: Option<String>,
}

/// The announces of a torrent to a tracker.
#[derive(Debug)]
pub struct TrackerLoop {
    torrent: TorrentId,
    info_hash: [u8; 20],
    peer_id: [u8; 20],
    total_length: u64,
    cfg: AttachTrackerConfig,
    event: AnnounceEvent,
}

/// The announces of a torrent to a tracker, by value.
pub struct TrackerModel {
    /// The torrent.
    pub torrent: TorrentId,
    /// Its hash.
    pub info_hash: [u8; 20],
    /// Our peer id.
    pub peer_id: [u8; 20],
    /// Its length.
    pub total_length: u64,
    /// How it is announced.
    pub cfg: AttachTrackerConfig,
    /// Why the next announce is made.
    pub event: AnnounceEvent,
}

impl View for TrackerLoop {
    type V = TrackerModel;

    closed spec fn view(&self) -> TrackerModel {
        TrackerModel {
            torrent: self.torrent,
            info_hash: self.info_hash,
            peer_id: self.peer_id,
            total_length: self.total_length,
            cfg: self.cfg,
            event: self.event,
        }
    }
}

impl TrackerLoop {
    /// The first announce is yet to come.
    pub fn new(
        torrent: TorrentId,
        info_hash: [u8; 20],
        peer_id: [u8; 20],
        total_length: u64,
        cfg: AttachTrackerConfig,
    ) -> (r: TrackerLoop)
        ensures
            r@ == (TrackerModel {
                torrent,
                info_hash,
                peer_id,
                total_length,
                cfg,
                event: AnnounceEvent::Started,
            }),
    {
        TrackerLoop {
            torrent,
            info_hash,
            peer_id,
            total_length,
            cfg,
            event: AnnounceEvent::Started,
        }
    }

    /// What to say, when so many bytes were received.
    pub fn request(&self, downloaded: u64) -> (r: AnnounceRequest)
        ensures
            r.info_hash == self@.info_hash,
            r.peer_id == self@.peer_id,
            r.port == self@.cfg.listen_port,
            r.uploaded == 0,
            r.downloaded == downloaded,
            r.left == (if downloaded < self@.total_length {
                self@.total_length - downloaded
            } else {
                0
            }),
            r.event == self@.event,
            r.num_want == self@.cfg.num_want,
            r.compact,
            r.tracker_id is None,
    {
        AnnounceRequest {
            info_hash: self.info_hash,
            peer_id: self.peer_id,
            port: self.cfg.listen_port,
            uploaded: 0,
            downloaded,
            left: self.total_length.saturating_sub(downloaded),
            event: self.event,
            num_want: self.cfg.num_want,
            compact: true,
            tracker_id: None,
        }
    }

    /// How long to wait after the tracker answered with this interval.
    pub fn on_response(&mut self, interval: u64) -> (r: u64)
        ensures
            final(self)@ == (TrackerModel { event: AnnounceEvent::Periodic, ..old(self)@ }),
            r == (if interval < MIN_TRACKER_INTERVAL {
                MIN_TRACKER_INTERVAL
            } else {
                interval
            }),
    {
        self.event = AnnounceEvent::Periodic;
        if interval < MIN_TRACKER_INTERVAL {
            MIN_TRACKER_INTERVAL
        } else {
            interval
        }
    }

    /// What to report after the tracker failed, and how long to wait. The next
    /// announce says the same again.
    pub fn on_failure(&self) -> (r: (Alert, u64))
        ensures
            r.0 == (Alert::Error {
                torrent: self@.torrent,
                code: AlertErrorCode::TrackerFailed,
            }),
            r.1 == self@.cfg.error_backoff,
    {
        (
            Alert::Error { torrent: self.torrent, code: AlertErrorCode::TrackerFailed },
            self.cfg.error_backoff,
        )
    }
}

/// What to report of a peer that could not be added: nothing where its address
/// was not acceptable.
pub fn peer_failure(torrent: TorrentId, e: &AddPeerError) -> (r: Option<Alert>)
    ensures
        r == (match *e {
            AddPeerError::Filtered(_) => None,
            _ => Some(Alert::Error { torrent, code: AlertErrorCode::PeerProtocol }),
        }),
{
    match e {
        AddPeerError::Filtered(_) => None,
        _ => Some(Alert::Error { torrent, code: AlertErrorCode::PeerProtocol }),
    }
}

/// What to report of deleting a torrent's files.
pub fn deletion_report(torrent: TorrentId, failed: bool) -> (r: Option<Alert>)
    ensures
        r == (if failed {
            Some(Alert::Error { torrent, code: AlertErrorCode::StorageIo })
        } else {
            None
        }),
{
    if failed {
        Some(Alert::Error { torrent, code: AlertErrorCode::StorageIo })
    } else {
        None
    }
}

/// Room for datagrams between the DHT and the socket.
pub const DEFAULT_DHT_CHANNEL_CAPACITY: usize = 2048;

/// How a torrent is announced to the DHT.
#[derive(Debug, Clone, Copy)]
pub struct AttachDhtConfig {
    /// The port that other peers are told.
    pub listen_port: u16,
    /// The torrent is private: nothing is to be said of it.
    pub private: bool,
    /// Time between two announces.
    pub announce_interval: u64,
    /// Time to wait after a failure.
    pub error_backoff: u64,
}

impl Default for AttachDhtConfig {
    fn default() -> (r: Self)
        ensures
            r.listen_port == 6881,
            !r.private,
            r.announce_interval == 1_800_000_000_000,
            r.error_backoff == 60_000_000_000,
    {
        AttachDhtConfig {
            listen_port: 6881,
            private: false,
            announce_interval: 1_800_000_000_000,
            error_backoff: 60_000_000_000,
        }
    }
}

/// What is said to the DHT.
#[derive(Debug, Clone, Copy)]
pub struct DhtAnnounce {
    /// The torrent.
    pub info_hash: [u8; 20],
    /// The port that other peers are told.
    pub port: u16,
    /// The torrent is private.
    pub private: bool,
}

/// The announces of a torrent to the DHT.
#[derive(Debug, Clone, Copy)]
pub struct DhtLoop {
    /// The torrent.
    pub torrent: TorrentId,
    /// Its hash.
    pub info_hash: [u8; 20],
    /// How it is announced.
    pub cfg: AttachDhtConfig,
}

impl DhtLoop {
    /// What to say.
    pub fn request(&self) -> (r: DhtAnnounce)
        ensures
            r == (DhtAnnounce {
                info_hash: self.info_hash,
                port: self.cfg.listen_port,
                private: self.cfg.private,
            }),
    {
        DhtAnnounce {
            info_hash: self.info_hash,
            port: self.cfg.listen_port,
            private: self.cfg.private,
        }
    }

    /// How long to wait after the DHT answered.
    pub fn on_response(&self) -> (r: u64)
        ensures
            r == self.cfg.announce_interval,
    {
        self.cfg.announce_interval
    }

    /// What to report after the DHT failed, and how long to wait.
    pub fn on_failure(&self) -> (r: (Alert, u64))
        ensures
            r.0 == (Alert::Error {
                torrent: self.torrent,
                code: AlertErrorCode::DhtAnnounceFailed,
            }),
            r.1 == self.cfg.error_backoff,
    {
        (
            Alert::Error { torrent: self.torrent, code: AlertErrorCode::DhtAnnounceFailed },
            self.cfg.error_backoff,
        )
    }
}

} // verus!
