//! Bytes sent and received, per peer and per torrent.
use crate::arith::{wrapped, wrapping};
use vstd::prelude::*;

pub mod sink;

pub use sink::{FileStatsSink, StatsSinkError};

verus! {

/// A peer's counters.
#[derive(Debug)]
pub struct PeerStats {
    /// Bytes sent to the peer.
    pub uploaded: u64,
    /// Bytes received from the peer.
    pub downloaded: u64,
}

impl Default for PeerStats {
    fn default() -> (r: Self)
        ensures
            r == (PeerStats { uploaded: 0, downloaded: 0 }),
    {
        PeerStats::new()
    }
}

impl PeerStats {
    /// Counters at zero.
    pub fn new() -> (r: PeerStats)
        ensures
            r == (PeerStats { uploaded: 0, downloaded: 0 }),
    {
        PeerStats { uploaded: 0, downloaded: 0 }
    }

    /// Counts bytes sent to the peer.
    pub fn add_uploaded(&mut self, bytes: u64)
        ensures
            *final(self) == (PeerStats {
                uploaded: wrapped(old(self).uploaded, bytes),
                ..*old(self)
            }),
    {
        self.uploaded = wrapping(self.uploaded, bytes);
    }

    /// Counts bytes received from the peer.
    pub fn add_downloaded(&mut self, bytes: u64)
        ensures
            *final(self) == (PeerStats {
                downloaded: wrapped(old(self).downloaded, bytes),
                ..*old(self)
            }),
    {
        self.downloaded = wrapping(self.downloaded, bytes);
    }

    /// Bytes sent and received.
    pub fn snapshot(&self) -> (r: (u64, u64))
        ensures
            r == (self.uploaded, self.downloaded),
    {
        (self.uploaded, self.downloaded)
    }
}

/// What the peers that left had sent and received.
#[derive(Debug)]
pub struct PerTorrentStats {
    /// Bytes sent to peers that left.
    pub disconnected_up: u64,
    /// Bytes received from peers that left.
    pub disconnected_down: u64,
}

impl Default for PerTorrentStats {
    fn default() -> (r: Self)
        ensures
            r == (PerTorrentStats { disconnected_up: 0, disconnected_down: 0 }),
    {
        PerTorrentStats::new()
    }
}

/// Bytes sent to the peers together.
pub open spec fn sum_up(peers: Seq<&PeerStats>) -> nat
    decreases peers.len(),
{
    if peers.len() == 0 {
        0
    } else {
        sum_up(peers.drop_last()) + peers.last().uploaded as nat
    }
}

/// Bytes received from the peers together.
pub open spec fn sum_down(peers: Seq<&PeerStats>) -> nat
    decreases peers.len(),
{
    if peers.len() == 0 {
        0
    } else {
        sum_down(peers.drop_last()) + peers.last().downloaded as nat
    }
}

/// The number, or the largest that a counter holds.
pub open spec fn capped(n: nat) -> u64 {
    if n > u64::MAX {
        u64::MAX
    } else {
        n as u64
    }
}

impl PerTorrentStats {
    /// Counters at zero.
    pub fn new() -> (r: PerTorrentStats)
        ensures
            r == (PerTorrentStats { disconnected_up: 0, disconnected_down: 0 }),
    {
        PerTorrentStats { disconnected_up: 0, disconnected_down: 0 }
    }

    /// The counters with those of a peer that leaves.
    pub open spec fn with(self, peer: PeerStats) -> PerTorrentStats {
        PerTorrentStats {
            disconnected_up: wrapped(self.disconnected_up, peer.uploaded),
            disconnected_down: wrapped(self.disconnected_down, peer.downloaded),
        }
    }

    /// Bytes sent and received, by the peers that are there and by those that
    /// left.
    pub open spec fn totals(self, live: Seq<&PeerStats>) -> (u64, u64) {
        (
            capped(self.disconnected_up as nat + sum_up(live)),
            capped(self.disconnected_down as nat + sum_down(live)),
        )
    }

    /// Takes over the counters of a peer that leaves.
    pub fn retire_peer(&mut self, peer: &PeerStats)
        ensures
            *final(self) == old(self).with(*peer),
    {
        let (up, down) = peer.snapshot();
        self.disconnected_up = wrapping(self.disconnected_up, up);
        self.disconnected_down = wrapping(self.disconnected_down, down);
    }

    /// Bytes sent and received, by the given peers and by those that left.
    pub fn snapshot(&self, live_peers: &[&PeerStats]) -> (r: (u64, u64))
        ensures
            r == self.totals(live_peers@),
    {
        let mut up: u64 = self.disconnected_up;
        let mut down: u64 = self.disconnected_down;
        let mut i: usize = 0;
        assert(live_peers@.take(0) =~= Seq::empty());
        while i < live_peers.len()
            invariant
                i <= live_peers@.len(),
                (up, down) == self.totals(live_peers@.take(i as int)),
            decreases live_peers@.len() - i,
        {
            assert(live_peers@.take(i + 1).drop_last() =~= live_peers@.take(i as int));
            let (u, d) = live_peers[i].snapshot();
            up = up.saturating_add(u);
            down = down.saturating_add(d);
            i = i + 1;
        }
        assert(live_peers@.take(i as int) =~= live_peers@);
        (up, down)
    }
}

/// A peer that leaves takes nothing away: once its counters were taken over,
/// the totals without it are those with it, as long as the counters of peers
/// that left have room.
pub proof fn law_retired_peer_still_counts(
    stats: PerTorrentStats,
    live: Seq<&PeerStats>,
    peer: &PeerStats,
)
    requires
        stats.disconnected_up + peer.uploaded <= u64::MAX,
        stats.disconnected_down + peer.downloaded <= u64::MAX,
    ensures
        stats.with(*peer).totals(live) == stats.totals(live.push(peer)),
{
    assert(live.push(peer).drop_last() =~= live);
}

/// Counters of a torrent at one moment.
#[derive(Debug, Clone, Copy)]
pub struct StatsSnapshot {
    /// The torrent.
    pub info_hash: [u8; 20],
    /// Bytes sent.
    pub uploaded: u64,
    /// Bytes received.
    pub downloaded: u64,
}

/// What a torrent sent and received is what its former peers did and each of its
/// peers did, each direction by itself, as far as it can be counted.
pub proof fn law_every_peer_counts_in_both_directions(
    stats: PerTorrentStats,
    live: Seq<&PeerStats>,
    peer: &PeerStats,
)
    ensures
        stats.totals(Seq::empty()) == (stats.disconnected_up, stats.disconnected_down),
        ({
            let before = stats.totals(live);
            let after = stats.totals(live.push(peer));
            &&& before.0 + peer.uploaded <= u64::MAX ==> after.0 == before.0 + peer.uploaded
            &&& before.1 + peer.downloaded <= u64::MAX ==> after.1 == before.1 + peer.downloaded
            &&& before.0 + peer.uploaded > u64::MAX ==> after.0 == u64::MAX
            &&& before.1 + peer.downloaded > u64::MAX ==> after.1 == u64::MAX
        }),
        stats.disconnected_up + peer.uploaded <= u64::MAX ==> stats.with(*peer).disconnected_up
            == stats.disconnected_up + peer.uploaded,
        stats.disconnected_down + peer.downloaded <= u64::MAX ==> stats.with(
            *peer,
        ).disconnected_down == stats.disconnected_down + peer.downloaded,
{
    assert(live.push(peer).drop_last() =~= live);
}

} // verus!
