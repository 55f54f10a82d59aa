//! What holds of the limits on bandwidth, bucket by bucket.
use crate::ids::{PeerSlot, TorrentId};
use crate::keyed::{find_key, lemma_find, lemma_find_unique};
use crate::session::shaper::bucket::BucketModel;
use crate::session::shaper::{DuplexModel, Flow, PeerTier, ShaperModel};
use vstd::prelude::*;

verus! {

/// `c` is `b` after so much time: it holds as many tokens more as its own rate
/// gives in that many whole milliseconds, as far as they fit, and its capacity
/// and rate are the same.
pub open spec fn gained(b: BucketModel, c: BucketModel, interval: u64) -> bool {
    let due = b.rate_bps * (interval / 1_000_000);
    let more = (if due > u64::MAX {
        u64::MAX as int
    } else {
        due
    }) / 1000;
    &&& c.capacity == b.capacity
    &&& c.rate_bps == b.rate_bps
    &&& b.tokens + more > b.capacity ==> c.tokens == b.capacity
    &&& b.tokens + more <= b.capacity ==> c.tokens == b.tokens + more
    &&& c.consumed == 0
    &&& c.denied == 0
}

/// A refill gives every bucket of every tier, for what is sent and for what is
/// received alike, the tokens of its own rate, and takes nothing out.
pub proof fn law_every_bucket_gains_by_its_rate(m: ShaperModel, interval: u64)
    requires
        m.wf(),
    ensures
        ({
            let n = m.refilled(interval);
            &&& gained(m.session.up, n.session.up, interval)
            &&& gained(m.session.down, n.session.down, interval)
            &&& n.torrents.len() == m.torrents.len()
            &&& forall|i: int|
                0 <= i < m.torrents.len() ==> {
                    &&& (#[trigger] n.torrents[i]).0 == m.torrents[i].0
                    &&& gained(m.torrents[i].1.up, n.torrents[i].1.up, interval)
                    &&& gained(m.torrents[i].1.down, n.torrents[i].1.down, interval)
                }
            &&& n.peers.len() == m.peers.len()
            &&& forall|i: int|
                0 <= i < m.peers.len() ==> {
                    &&& (#[trigger] n.peers[i]).0 == m.peers[i].0
                    &&& n.peers[i].1.torrent_id == m.peers[i].1.torrent_id
                    &&& gained(m.peers[i].1.buckets.up, n.peers[i].1.buckets.up, interval)
                    &&& gained(m.peers[i].1.buckets.down, n.peers[i].1.buckets.down, interval)
                }
        }),
{
    assert(m.session.up.tokens <= m.session.up.capacity);
    assert forall|b: BucketModel| b.tokens <= b.capacity implies gained(
        b,
        #[trigger] b.refilled(interval),
        interval,
    ) by {
        assert(b.rate_bps * (interval / 1_000_000) >= 0) by (nonlinear_arith);
    }
    assert forall|i: int| 0 <= i < m.torrents.len() implies (
    #[trigger] m.torrents[i]).1.up.tokens <= m.torrents[i].1.up.capacity
        && m.torrents[i].1.down.tokens <= m.torrents[i].1.down.capacity by {
        assert(m.torrents[i].1.wf());
    }
    assert forall|i: int| 0 <= i < m.peers.len() implies (
    #[trigger] m.peers[i]).1.buckets.up.tokens <= m.peers[i].1.buckets.up.capacity
        && m.peers[i].1.buckets.down.tokens <= m.peers[i].1.buckets.down.capacity by {
        assert(m.peers[i].1.buckets.wf());
    }
}

/// A full bucket is full, at its rate, and nothing was taken from it.
pub proof fn law_new_buckets_are_full(rate_bps: u64, capacity: u64, up: u64, down: u64)
    ensures
        ({
            let b = BucketModel::full(rate_bps, capacity);
            &&& b.tokens == capacity && b.capacity == capacity && b.rate_bps == rate_bps
            &&& b.consumed == 0 && b.denied == 0
        }),
        ({
            let d = DuplexModel::full(up, down);
            &&& d.up.rate_bps == up && d.down.rate_bps == down
            &&& d.up.tokens == d.up.capacity && d.down.tokens == d.down.capacity
            &&& d.up.capacity == 4_194_304 && d.down.capacity == 4_194_304
        }),
{
}

/// The bucket of a peer for one direction.
pub open spec fn flow_of(d: DuplexModel, sent: bool) -> BucketModel {
    if sent {
        d.up
    } else {
        d.down
    }
}

/// A peer can take tokens for one direction exactly if its bucket for that
/// direction holds as many. Then they are gone from it; else none is. Neither its
/// other bucket nor any other peer, torrent or the session is touched.
pub proof fn law_taking_tokens_touches_one_bucket(
    m: ShaperModel,
    slot: PeerSlot,
    sent: bool,
    bytes: u64,
    at: int,
)
    requires
        m.wf(),
        0 <= at < m.peers.len(),
        m.peers[at].0 == slot,
    ensures
        ({
            let flow = if sent {
                Flow::Up
            } else {
                Flow::Down
            };
            let n = m.asked(slot, flow, bytes);
            let b = flow_of(m.peers[at].1.buckets, sent);
            let c = flow_of(n.peers[at].1.buckets, sent);
            let enough = bytes <= b.tokens;
            &&& m.allows(slot, flow, bytes) == Some(enough)
            &&& enough ==> c.tokens == b.tokens - bytes
            &&& !enough ==> c.tokens == b.tokens
            &&& c.capacity == b.capacity && c.rate_bps == b.rate_bps
            &&& (enough && b.consumed + bytes <= u64::MAX) ==> c.consumed == b.consumed + bytes
                && c.denied == b.denied
            &&& (!enough && b.denied + bytes <= u64::MAX) ==> c.denied == b.denied + bytes
                && c.consumed == b.consumed
            &&& flow_of(n.peers[at].1.buckets, !sent) == flow_of(m.peers[at].1.buckets, !sent)
            &&& n.peers[at].0 == slot && n.peers[at].1.torrent_id == m.peers[at].1.torrent_id
            &&& n.peers.len() == m.peers.len()
            &&& forall|i: int|
                0 <= i < m.peers.len() && i != at ==> #[trigger] n.peers[i] == m.peers[i]
            &&& n.session == m.session && n.torrents == m.torrents
            &&& n.refill_ticks == m.refill_ticks
        }),
{
    lemma_find_unique(m.peers, at);
}

/// Setting a rate sets that of one bucket of one peer and leaves its tokens.
pub proof fn law_setting_a_rate_touches_one_bucket(
    m: ShaperModel,
    slot: PeerSlot,
    sent: bool,
    rate_bps: u64,
    at: int,
)
    requires
        m.wf(),
        0 <= at < m.peers.len(),
        m.peers[at].0 == slot,
    ensures
        ({
            let flow = if sent {
                Flow::Up
            } else {
                Flow::Down
            };
            let n = m.with_rate(slot, flow, rate_bps);
            let b = flow_of(m.peers[at].1.buckets, sent);
            let c = flow_of(n.peers[at].1.buckets, sent);
            &&& c.rate_bps == rate_bps
            &&& c.tokens == b.tokens && c.capacity == b.capacity
            &&& c.consumed == b.consumed && c.denied == b.denied
            &&& flow_of(n.peers[at].1.buckets, !sent) == flow_of(m.peers[at].1.buckets, !sent)
            &&& n.peers[at].0 == slot && n.peers[at].1.torrent_id == m.peers[at].1.torrent_id
            &&& n.peers.len() == m.peers.len()
            &&& forall|i: int|
                0 <= i < m.peers.len() && i != at ==> #[trigger] n.peers[i] == m.peers[i]
            &&& n.session == m.session && n.torrents == m.torrents
        }),
{
    lemma_find_unique(m.peers, at);
}

/// Whoever is not registered takes nothing and has no rate to set.
pub proof fn law_unknown_peer_has_no_buckets(
    m: ShaperModel,
    slot: PeerSlot,
    flow: Flow,
    bytes: u64,
)
    requires
        forall|i: int| 0 <= i < m.peers.len() ==> (#[trigger] m.peers[i]).0 != slot,
    ensures
        m.allows(slot, flow, bytes) is None,
        m.asked(slot, flow, bytes) == m,
        m.with_rate(slot, flow, bytes) == m,
        m.buckets_of(slot) is None,
        m.without_peer(slot) == m,
{
    lemma_find(m.peers, slot);
}

/// Registering a peer or a torrent, or taking a peer out, leaves every other one
/// as it was.
pub proof fn law_others_keep_their_buckets(
    m: ShaperModel,
    slot: PeerSlot,
    torrent_id: TorrentId,
    buckets: DuplexModel,
    i: int,
)
    requires
        m.wf(),
    ensures
        (0 <= i < m.peers.len() && m.peers[i].0 != slot) ==> {
            &&& m.with_peer(slot, torrent_id, buckets).peers.contains(m.peers[i])
            &&& m.without_peer(slot).peers.contains(m.peers[i])
        },
        (0 <= i < m.torrents.len() && m.torrents[i].0 != torrent_id) ==> {
            &&& m.with_torrent(torrent_id, buckets).torrents.contains(m.torrents[i])
            &&& m.without_torrent(torrent_id).torrents.contains(m.torrents[i])
        },
        m.with_torrent(torrent_id, buckets).torrents.contains((torrent_id, buckets)),
        m.with_peer(slot, torrent_id, buckets).peers.contains(
            (slot, (PeerTier { buckets, torrent_id })),
        ),
        m.with_peer(slot, torrent_id, buckets).session == m.session,
        m.with_peer(slot, torrent_id, buckets).torrents == m.torrents,
        m.with_torrent(torrent_id, buckets).peers == m.peers,
        m.with_torrent(torrent_id, buckets).session == m.session,
        m.without_torrent(torrent_id).session == m.session,
        m.without_peer(slot).session == m.session,
        m.without_peer(slot).torrents == m.torrents,
{
    let a = m.with_peer(slot, torrent_id, buckets);
    let b = m.without_peer(slot);
    let c = m.with_torrent(torrent_id, buckets);
    let d = m.without_torrent(torrent_id);
    lemma_find(m.peers, slot);
    lemma_find(m.torrents, torrent_id);
    match find_key(m.peers, slot) {
        Some(p) => {
            assert(a.peers[p] == (slot, (PeerTier { buckets, torrent_id })));
            if 0 <= i < m.peers.len() && m.peers[i].0 != slot {
                assert(a.peers[i] == m.peers[i]);
                let j = if i < p { i } else { i - 1 };
                assert(b.peers[j] == m.peers[i]);
            }
        },
        None => {
            assert(a.peers[m.peers.len() as int] == (slot, (PeerTier { buckets, torrent_id })));
            if 0 <= i < m.peers.len() {
                assert(a.peers[i] == m.peers[i]);
                assert(b.peers[i] == m.peers[i]);
            }
        },
    }
    match find_key(m.torrents, torrent_id) {
        Some(p) => {
            assert(c.torrents[p] == (torrent_id, buckets));
            if 0 <= i < m.torrents.len() && m.torrents[i].0 != torrent_id {
                assert(c.torrents[i] == m.torrents[i]);
                let j = if i < p { i } else { i - 1 };
                assert(d.torrents[j] == m.torrents[i]);
            }
        },
        None => {
            assert(c.torrents[m.torrents.len() as int] == (torrent_id, buckets));
            if 0 <= i < m.torrents.len() {
                assert(c.torrents[i] == m.torrents[i]);
                assert(d.torrents[i] == m.torrents[i]);
            }
        },
    }
}

} // verus!
