//! Alerts and their categories.
use crate::ids::{PeerSlot, TorrentId};
use vstd::prelude::*;

verus! {

/// An event that the engine emits.
#[derive(Debug, Clone, Copy, PartialEq, Eq, Structural)]
#[non_exhaustive]
pub enum Alert {
    /// A piece was downloaded and passed verification.
    PieceCompleted {
        /// The torrent that the piece belongs to.
        torrent: TorrentId,
        /// Piece index.
        piece: u32,
    },
    /// A new peer connected.
    PeerConnected {
        /// The torrent that the peer serves.
        torrent: TorrentId,
        /// The connection.
        peer: PeerSlot,
    },
    /// A peer disconnected.
    PeerDisconnected {
        /// The torrent that the peer served.
        torrent: TorrentId,
        /// The connection.
        peer: PeerSlot,
    },
    /// Periodic tick of the statistics.
    StatsTick,
    /// A tracker answered.
    TrackerResponse {
        /// The torrent that it answered for.
        torrent: TorrentId,
    },
    /// Something failed.
    Error {
        /// The torrent that it failed for.
        torrent: TorrentId,
        /// What failed.
        code: AlertErrorCode,
    },
    /// Alerts were lost to overflow since the last drain.
    Dropped {
        /// How many.
        count: u32,
    },
    /// The last missing piece was verified.
    TorrentComplete {
        /// The torrent that is complete.
        torrent: TorrentId,
    },
    /// The metadata of a magnet link was fetched and verified.
    MetadataReceived {
        /// The torrent whose metadata is here.
        torrent: TorrentId,
    },
    /// Periodic global wake-up for statistics.
    StatsUpdate,
}

/// What failed.
#[derive(Debug, Clone, Copy, PartialEq, Eq, Structural)]
#[non_exhaustive]
pub enum AlertErrorCode {
    /// A storage call.
    StorageIo,
    /// A tracker announce.
    TrackerFailed,
    /// A peer broke the protocol.
    PeerProtocol,
    /// Verification of a piece.
    HashMismatch,
    /// An announce to the distributed hash table.
    DhtAnnounceFailed,
    /// Verification of magnet metadata, too many times.
    MetadataVerifyExhausted,
}

/// A set of alert categories, one bit each.
#[derive(Debug, Clone, Copy, PartialEq, Eq, Structural)]
pub struct AlertCategory(pub u32);

impl AlertCategory {
    /// Piece events.
    pub fn piece() -> (r: AlertCategory)
        ensures
            r == AlertCategory(1),
    {
        AlertCategory(1)
    }

    /// Peer lifecycle.
    pub fn peer() -> (r: AlertCategory)
        ensures
            r == AlertCategory(2),
    {
        AlertCategory(2)
    }

    /// Trackers.
    pub fn tracker() -> (r: AlertCategory)
        ensures
            r == AlertCategory(4),
    {
        AlertCategory(4)
    }

    /// Errors.
    pub fn error() -> (r: AlertCategory)
        ensures
            r == AlertCategory(8),
    {
        AlertCategory(8)
    }

    /// Statistics.
    pub fn stats() -> (r: AlertCategory)
        ensures
            r == AlertCategory(16),
    {
        AlertCategory(16)
    }

    /// Everything.
    pub fn all() -> (r: AlertCategory)
        ensures
            r == AlertCategory(0xffff_ffff),
    {
        AlertCategory(0xffff_ffff)
    }

    /// Nothing.
    pub fn none() -> (r: AlertCategory)
        ensures
            r == AlertCategory(0),
    {
        AlertCategory(0)
    }


    /// Whether every bit of `other` is set here.
    pub open spec fn includes(self, other: AlertCategory) -> bool {
        (self.0 & other.0) == other.0
    }

    /// Whether this set has every category of `other`.
    pub fn contains(self, other: AlertCategory) -> (r: bool)
        ensures
            r == self.includes(other),
    {
        (self.0 & other.0) == other.0
    }
}

impl std::ops::BitOr for AlertCategory {
    type Output = AlertCategory;

    fn bitor(self, rhs: AlertCategory) -> (r: AlertCategory)
    {
        AlertCategory(self.0 | rhs.0)
    }
}

impl vstd::std_specs::ops::BitOrSpecImpl for AlertCategory {
    open spec fn obeys_bitor_spec() -> bool {
        true
    }

    open spec fn bitor_req(self, rhs: AlertCategory) -> bool {
        true
    }

    open spec fn bitor_spec(self, rhs: AlertCategory) -> AlertCategory {
        AlertCategory(self.0 | rhs.0)
    }
}

impl std::ops::BitAnd for AlertCategory {
    type Output = AlertCategory;

    fn bitand(self, rhs: AlertCategory) -> (r: AlertCategory)
    {
        AlertCategory(self.0 & rhs.0)
    }
}

impl vstd::std_specs::ops::BitAndSpecImpl for AlertCategory {
    open spec fn obeys_bitand_spec() -> bool {
        true
    }

    open spec fn bitand_req(self, rhs: AlertCategory) -> bool {
        true
    }

    open spec fn bitand_spec(self, rhs: AlertCategory) -> AlertCategory {
        AlertCategory(self.0 & rhs.0)
    }
}

impl Alert {
    /// The category that the alert belongs to.
    pub open spec fn category_of(self) -> AlertCategory {
        match self {
            Alert::PieceCompleted { .. } => AlertCategory(1),
            Alert::TorrentComplete { .. } => AlertCategory(1),
            Alert::MetadataReceived { .. } => AlertCategory(1),
            Alert::PeerConnected { .. } => AlertCategory(2),
            Alert::PeerDisconnected { .. } => AlertCategory(2),
            Alert::TrackerResponse { .. } => AlertCategory(4),
            Alert::Error { .. } => AlertCategory(8),
            Alert::StatsTick => AlertCategory(16),
            Alert::StatsUpdate => AlertCategory(16),
            Alert::Dropped { .. } => AlertCategory(0xffff_ffff),
        }
    }

    /// The category that the alert belongs to.
    pub fn category(&self) -> (r: AlertCategory)
        ensures
            r == self.category_of(),
    {
        match self {
            Alert::PieceCompleted { .. } => AlertCategory::piece(),
            Alert::TorrentComplete { .. } => AlertCategory::piece(),
            Alert::MetadataReceived { .. } => AlertCategory::piece(),
            Alert::PeerConnected { .. } => AlertCategory::peer(),
            Alert::PeerDisconnected { .. } => AlertCategory::peer(),
            Alert::TrackerResponse { .. } => AlertCategory::tracker(),
            Alert::Error { .. } => AlertCategory::error(),
            Alert::StatsTick => AlertCategory::stats(),
            Alert::StatsUpdate => AlertCategory::stats(),
            Alert::Dropped { .. } => AlertCategory::all(),
        }
    }
}

/// A union of categories has both, and a category in both has the rest of
/// neither.
pub proof fn law_union_includes_both(a: AlertCategory, b: AlertCategory)
    ensures
        AlertCategory(a.0 | b.0).includes(a),
        AlertCategory(a.0 | b.0).includes(b),
        a.includes(AlertCategory(a.0 & b.0)),
        b.includes(AlertCategory(a.0 & b.0)),
{
    let x: u32 = a.0;
    let y: u32 = b.0;
    assert((x | y) & x == x && (x | y) & y == y && x & (x & y) == x & y && y & (x & y) == x & y)
        by (bit_vector);
}

/// A mask of one category takes the alerts of that category and no others: what
/// became of pieces, of peers, of trackers, what failed, and counters.
pub proof fn law_categories_tell_alerts_apart(alert: Alert)
    requires
        !(alert is Dropped),
    ensures
        AlertCategory(1).includes(alert.category_of()) <==> (alert is PieceCompleted
            || alert is TorrentComplete || alert is MetadataReceived),
        AlertCategory(2).includes(alert.category_of()) <==> (alert is PeerConnected
            || alert is PeerDisconnected),
        AlertCategory(4).includes(alert.category_of()) <==> alert is TrackerResponse,
        AlertCategory(8).includes(alert.category_of()) <==> alert is Error,
        AlertCategory(16).includes(alert.category_of()) <==> (alert is StatsTick
            || alert is StatsUpdate),
{
    assert(1u32 & 1 == 1 && 1u32 & 2 == 0 && 1u32 & 4 == 0 && 1u32 & 8 == 0 && 1u32 & 16 == 0)
        by (bit_vector);
    assert(2u32 & 1 == 0 && 2u32 & 2 == 2 && 2u32 & 4 == 0 && 2u32 & 8 == 0 && 2u32 & 16 == 0)
        by (bit_vector);
    assert(4u32 & 1 == 0 && 4u32 & 2 == 0 && 4u32 & 4 == 4 && 4u32 & 8 == 0 && 4u32 & 16 == 0)
        by (bit_vector);
    assert(8u32 & 1 == 0 && 8u32 & 2 == 0 && 8u32 & 4 == 0 && 8u32 & 8 == 8 && 8u32 & 16 == 0)
        by (bit_vector);
    assert(16u32 & 1 == 0 && 16u32 & 2 == 0 && 16u32 & 4 == 0 && 16u32 & 8 == 0 && 16u32 & 16
        == 16) by (bit_vector);
}

} // verus!
