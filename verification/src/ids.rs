//! Identifiers shared across modules.
use vstd::prelude::*;

verus! {

/// Opaque per-connection identifier.
#[derive(Debug, Clone, Copy, PartialEq, Eq, Hash, Structural)]
pub struct PeerSlot(pub u64);

/// Engine-issued torrent handle. The engine mints them from 1 on.
#[derive(Debug, Clone, Copy, PartialEq, Eq, Hash, Structural)]
pub struct TorrentId(u64);

impl TorrentId {
    /// The number behind the handle.
    pub closed spec fn number(self) -> u64 {
        self.0
    }

    /// The handle with number `n`.
    pub(crate) fn new(n: u64) -> (r: TorrentId)
        ensures
            r.number() == n,
    {
        TorrentId(n)
    }

    /// The handle with number `n`, for tests.
    pub fn __test_new(n: u64) -> (r: TorrentId)
        ensures
            r.number() == n,
    {
        TorrentId(n)
    }

    /// The number behind the handle.
    pub(crate) fn get(self) -> (r: u64)
        ensures
            r == self.number(),
    {
        self.0
    }
}

} // verus!
