//! Tokens come back at regular times.
//!
//! Times are nanoseconds.
use crate::arith::{at_most, capped_product};
use crate::session::shaper::bucket::{BucketModel, TokenBucket};
use crate::session::shaper::{DuplexBuckets, DuplexModel, PeerTier, Shaper, ShaperModel};
use crate::arith::{wrapped, wrapping};
use vstd::prelude::*;

verus! {

/// Usual time between refills: a tenth of a second.
pub const REFILL_INTERVAL: u64 = 100_000_000;

/// Tokens that come back in one interval.
pub open spec fn refill_of(rate_bps: u64, interval: u64) -> u64 {
    (at_most(rate_bps * (interval / 1_000_000), u64::MAX as int) / 1000) as u64
}

impl BucketModel {
    /// After a refill.
    pub open spec fn refilled(self, interval: u64) -> BucketModel {
        self.granted(refill_of(self.rate_bps, interval)).counted()
    }
}

impl DuplexModel {
    /// After a refill.
    pub open spec fn refilled(self, interval: u64) -> DuplexModel {
        DuplexModel { up: self.up.refilled(interval), down: self.down.refilled(interval) }
    }
}

impl ShaperModel {
    /// After a refill of every bucket.
    pub open spec fn refilled(self, interval: u64) -> ShaperModel {
        ShaperModel {
            session: self.session.refilled(interval),
            torrents: Seq::new(
                self.torrents.len(),
                |i: int| (self.torrents[i].0, self.torrents[i].1.refilled(interval)),
            ),
            peers: Seq::new(
                self.peers.len(),
                |i: int|
                    (
                        self.peers[i].0,
                        PeerTier {
                            buckets: self.peers[i].1.buckets.refilled(interval),
                            ..self.peers[i].1
                        },
                    ),
            ),
            refill_ticks: wrapped(self.refill_ticks, 1),
        }
    }
}

/// Gives a bucket the tokens of one interval.
pub fn grant_at_rate(bucket: &mut TokenBucket, interval: u64)
    requires
        old(bucket).wf(),
    ensures
        final(bucket).wf(),
        final(bucket)@ == old(bucket)@.refilled(interval),
{
    let tokens: u64 = capped_product(bucket.rate_bps(), interval / 1_000_000) / 1000;
    bucket.grant(tokens);
    bucket.take_demand();
}

/// Gives both buckets the tokens of one interval.
fn refill_duplex(d: &mut DuplexBuckets, interval: u64)
    requires
        old(d)@.wf(),
    ensures
        final(d)@.wf(),
        final(d)@ == old(d)@.refilled(interval),
{
    grant_at_rate(&mut d.up, interval);
    grant_at_rate(&mut d.down, interval);
}

/// Gives every bucket of every tier the tokens of one interval.
pub fn run_one_tick(shaper: &mut Shaper, interval: u64)
    requires
        old(shaper)@.wf(),
    ensures
        final(shaper)@.wf(),
        final(shaper)@ == old(shaper)@.refilled(interval),
{
    let ghost before = shaper@;
    shaper.refill_ticks = wrapping(shaper.refill_ticks, 1);
    refill_duplex(&mut shaper.session, interval);
    let mut i: usize = 0;
    while i < shaper.torrents.len()
        invariant
            i <= shaper.torrents@.len(),
            shaper@.torrents.len() == before.torrents.len(),
            before.wf(),
            shaper@.session == before.session.refilled(interval),
            shaper@.session.wf(),
            shaper@.refill_ticks == wrapped(before.refill_ticks, 1),
            shaper@.peers == before.peers,
            forall|j: int|
                0 <= j < i ==> (#[trigger] shaper@.torrents[j]) == (
                    before.torrents[j].0,
                    before.torrents[j].1.refilled(interval),
                ),
            forall|j: int|
                i <= j < before.torrents.len() ==> (#[trigger] shaper@.torrents[j])
                    == before.torrents[j],
        decreases shaper.torrents@.len() - i,
    {
        let ghost now = shaper@;
        assert(now.torrents[i as int] == before.torrents[i as int]);
        assert(before.torrents[i as int].1.wf());
        refill_duplex(&mut shaper.torrents[i].1.buckets, interval);
        proof {
            assert(shaper@.torrents =~= now.torrents.update(
                i as int,
                (before.torrents[i as int].0, before.torrents[i as int].1.refilled(interval)),
            ));
            assert(shaper@.peers =~= now.peers);
        }
        i = i + 1;
    }
    let mut k: usize = 0;
    while k < shaper.peers.len()
        invariant
            k <= shaper.peers@.len(),
            shaper@.peers.len() == before.peers.len(),
            before.wf(),
            shaper@.session == before.session.refilled(interval),
            shaper@.session.wf(),
            shaper@.refill_ticks == wrapped(before.refill_ticks, 1),
            shaper@.torrents.len() == before.torrents.len(),
            forall|j: int|
                0 <= j < before.torrents.len() ==> (#[trigger] shaper@.torrents[j]) == (
                    before.torrents[j].0,
                    before.torrents[j].1.refilled(interval),
                ),
            forall|j: int|
                0 <= j < k ==> (#[trigger] shaper@.peers[j]) == (
                    before.peers[j].0,
                    PeerTier {
                        buckets: before.peers[j].1.buckets.refilled(interval),
                        ..before.peers[j].1
                    },
                ),
            forall|j: int|
                k <= j < before.peers.len() ==> (#[trigger] shaper@.peers[j]) == before.peers[j],
        decreases shaper.peers@.len() - k,
    {
        let ghost now = shaper@;
        assert(now.peers[k as int] == before.peers[k as int]);
        assert(before.peers[k as int].1.buckets.wf());
        refill_duplex(&mut shaper.peers[k].1.buckets, interval);
        proof {
            assert(shaper@.peers =~= now.peers.update(
                k as int,
                (
                    before.peers[k as int].0,
                    PeerTier {
                        buckets: before.peers[k as int].1.buckets.refilled(interval),
                        ..before.peers[k as int].1
                    },
                ),
            ));
            assert(shaper@.torrents =~= now.torrents);
        }
        k = k + 1;
    }
    assert(shaper@ =~= before.refilled(interval));
    proof {
        law_refill_keeps(before, interval);
    }
}

/// A refill leaves the tiers sound.
pub proof fn law_refill_keeps(m: ShaperModel, interval: u64)
    requires
        m.wf(),
    ensures
        m.refilled(interval).wf(),
{
    let after = m.refilled(interval);
    assert forall|i: int| 0 <= i < after.torrents.len() implies (
    #[trigger] after.torrents[i]).1.wf() by {
        assert(m.torrents[i].1.wf());
    }
    assert forall|i: int| 0 <= i < after.peers.len() implies (
    #[trigger] after.peers[i]).1.buckets.wf() by {
        assert(m.peers[i].1.buckets.wf());
    }
    assert forall|a: int, b: int|
        0 <= a < after.torrents.len() && 0 <= b < after.torrents.len() && a != b implies (
    #[trigger] after.torrents[a]).0 != (#[trigger] after.torrents[b]).0 by {
        assert(m.torrents[a].0 != m.torrents[b].0);
    }
    assert forall|a: int, b: int|
        0 <= a < after.peers.len() && 0 <= b < after.peers.len() && a != b implies (
    #[trigger] after.peers[a]).0 != (#[trigger] after.peers[b]).0 by {
        assert(m.peers[a].0 != m.peers[b].0);
    }
}

/// A refill reaches every bucket of every tier, whatever its rate.
pub proof fn law_refill_reaches_every_tier(m: ShaperModel, interval: u64, t: int, p: int)
    requires
        m.wf(),
        0 <= t < m.torrents.len(),
        0 <= p < m.peers.len(),
    ensures
        m.refilled(interval).refill_ticks == wrapped(m.refill_ticks, 1),
        m.refilled(interval).session.up.refill_ticks == wrapped(m.session.up.refill_ticks, 1),
        m.refilled(interval).session.down.refill_ticks == wrapped(m.session.down.refill_ticks, 1),
        m.refilled(interval).torrents[t].1.up.refill_ticks == wrapped(
            m.torrents[t].1.up.refill_ticks,
            1,
        ),
        m.refilled(interval).torrents[t].1.down.refill_ticks == wrapped(
            m.torrents[t].1.down.refill_ticks,
            1,
        ),
        m.refilled(interval).peers[p].1.buckets.up.refill_ticks == wrapped(
            m.peers[p].1.buckets.up.refill_ticks,
            1,
        ),
        m.refilled(interval).peers[p].1.buckets.down.refill_ticks == wrapped(
            m.peers[p].1.buckets.down.refill_ticks,
            1,
        ),
{
}

/// A bucket that is not to limit anything is full after every refill of a
/// millisecond or more.
pub proof fn law_passthrough_refills_whole(b: BucketModel, interval: u64)
    requires
        b.rate_bps == u64::MAX,
        b.wf(),
        b.capacity <= u64::MAX / 1000,
        interval >= 1_000_000,
    ensures
        b.refilled(interval).tokens == b.capacity,
{
    assert(u64::MAX * (interval / 1_000_000) >= u64::MAX) by (nonlinear_arith)
        requires
            interval >= 1_000_000,
    ;
}

} // verus!
