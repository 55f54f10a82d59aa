//! Bandwidth limits in three tiers: the session, each torrent, each peer.
use crate::ids::{PeerSlot, TorrentId};
use crate::keyed::{
    find_key, keys_distinct, lemma_find, lemma_find_at, lemma_with_entry, lemma_without_entry,
    with_entry, without_entry,
};
use crate::session::shaper::bucket::BucketModel;
use vstd::prelude::*;

pub mod bucket;
pub mod laws;
pub mod refiller;

pub use bucket::TokenBucket;
pub use refiller::REFILL_INTERVAL;

verus! {

/// The rate of a bucket that is not to limit anything.
pub const PASSTHROUGH_RATE: u64 = u64::MAX;

/// Usual number of tokens in a bucket.
pub const DEFAULT_CAPACITY: u64 = 4_194_304;

/// A bucket for each direction.
#[derive(Debug)]
pub struct DuplexBuckets {
    /// What is sent.
    pub up: TokenBucket,
    /// What is received.
    pub down: TokenBucket,
}

/// A bucket for each direction, by value.
#[verifier::ext_equal]
pub struct DuplexModel {
    /// What is sent.
    pub up: BucketModel,
    /// What is received.
    pub down: BucketModel,
}

impl DuplexModel {
    /// Full buckets with these rates.
    pub open spec fn full(up_rate_bps: u64, down_rate_bps: u64) -> DuplexModel {
        DuplexModel {
            up: BucketModel::full(up_rate_bps, DEFAULT_CAPACITY),
            down: BucketModel::full(down_rate_bps, DEFAULT_CAPACITY),
        }
    }

    /// There are never more tokens than fit.
    pub open spec fn wf(self) -> bool {
        self.up.wf() && self.down.wf()
    }

    /// One of the two.
    pub open spec fn bucket(self, flow: Flow) -> BucketModel {
        match flow {
            Flow::Up => self.up,
            Flow::Down => self.down,
        }
    }

    /// With one of the two changed.
    pub open spec fn with_bucket(self, flow: Flow, b: BucketModel) -> DuplexModel {
        match flow {
            Flow::Up => DuplexModel { up: b, ..self },
            Flow::Down => DuplexModel { down: b, ..self },
        }
    }
}

impl View for DuplexBuckets {
    type V = DuplexModel;

    open spec fn view(&self) -> DuplexModel {
        DuplexModel { up: self.up@, down: self.down@ }
    }
}

impl DuplexBuckets {
    /// Full buckets with these rates.
    pub fn new(up_rate_bps: u64, down_rate_bps: u64) -> (r: DuplexBuckets)
        ensures
            r@.wf(),
            r@ == DuplexModel::full(up_rate_bps, down_rate_bps),
    {
        DuplexBuckets {
            up: TokenBucket::new(up_rate_bps, DEFAULT_CAPACITY),
            down: TokenBucket::new(down_rate_bps, DEFAULT_CAPACITY),
        }
    }

    /// Full buckets that are not to limit anything.
    pub fn passthrough() -> (r: DuplexBuckets)
        ensures
            r@.wf(),
            r@ == DuplexModel::full(PASSTHROUGH_RATE, PASSTHROUGH_RATE),
    {
        DuplexBuckets::new(PASSTHROUGH_RATE, PASSTHROUGH_RATE)
    }
}

/// A torrent's buckets.
#[derive(Debug)]
pub struct TorrentBuckets {
    /// Its buckets.
    pub buckets: DuplexBuckets,
}

/// A peer's buckets.
#[derive(Debug)]
pub struct PeerBuckets {
    /// Its buckets.
    pub buckets: DuplexBuckets,
    /// Its torrent.
    pub torrent_id: TorrentId,
}

/// A peer's buckets, by value.
#[verifier::ext_equal]
pub struct PeerTier {
    /// Its buckets.
    pub buckets: DuplexModel,
    /// Its torrent.
    pub torrent_id: TorrentId,
}

/// The three tiers.
#[derive(Debug)]
pub struct Shaper {
    /// The session's buckets.
    pub session: DuplexBuckets,
    /// The torrents' buckets.
    pub torrents: Vec<(TorrentId, TorrentBuckets)>,
    /// The peers' buckets.
    pub peers: Vec<(PeerSlot, PeerBuckets)>,
    /// How often tokens came back.
    pub refill_ticks: u64,
}

/// The three tiers, by value.
#[verifier::ext_equal]
pub struct ShaperModel {
    /// The session's buckets.
    pub session: DuplexModel,
    /// The torrents' buckets.
    pub torrents: Seq<(TorrentId, DuplexModel)>,
    /// The peers' buckets.
    pub peers: Seq<(PeerSlot, PeerTier)>,
    /// How often tokens came back.
    pub refill_ticks: u64,
}

/// The torrents' buckets by value.
pub open spec fn torrents_view(s: Seq<(TorrentId, TorrentBuckets)>) -> Seq<
    (TorrentId, DuplexModel),
> {
    Seq::new(s.len(), |i: int| (s[i].0, s[i].1.buckets@))
}

/// The peers' buckets by value.
pub open spec fn peers_view(s: Seq<(PeerSlot, PeerBuckets)>) -> Seq<(PeerSlot, PeerTier)> {
    Seq::new(
        s.len(),
        |i: int| (s[i].0, PeerTier { buckets: s[i].1.buckets@, torrent_id: s[i].1.torrent_id }),
    )
}

impl View for Shaper {
    type V = ShaperModel;

    open spec fn view(&self) -> ShaperModel {
        ShaperModel {
            session: self.session@,
            torrents: torrents_view(self.torrents@),
            peers: peers_view(self.peers@),
            refill_ticks: self.refill_ticks,
        }
    }
}

/// The peers of other torrents.
pub open spec fn peers_of_others(
    peers: Seq<(PeerSlot, PeerTier)>,
    torrent_id: TorrentId,
) -> Seq<(PeerSlot, PeerTier)>
    decreases peers.len(),
{
    if peers.len() == 0 {
        peers
    } else if peers.last().1.torrent_id == torrent_id {
        peers_of_others(peers.drop_last(), torrent_id)
    } else {
        peers_of_others(peers.drop_last(), torrent_id).push(peers.last())
    }
}

impl ShaperModel {
    /// Nothing is registered twice, and no bucket holds more than fits.
    pub open spec fn wf(self) -> bool {
        &&& self.session.wf()
        &&& keys_distinct(self.torrents)
        &&& keys_distinct(self.peers)
        &&& forall|i: int| 0 <= i < self.torrents.len() ==> (#[trigger] self.torrents[i]).1.wf()
        &&& forall|i: int| 0 <= i < self.peers.len() ==> (#[trigger] self.peers[i]).1.buckets.wf()
    }

    /// After a torrent was registered.
    pub open spec fn with_torrent(self, torrent_id: TorrentId, buckets: DuplexModel) -> ShaperModel {
        ShaperModel { torrents: with_entry(self.torrents, torrent_id, buckets), ..self }
    }

    /// After a peer was registered.
    pub open spec fn with_peer(
        self,
        slot: PeerSlot,
        torrent_id: TorrentId,
        buckets: DuplexModel,
    ) -> ShaperModel {
        ShaperModel {
            peers: with_entry(self.peers, slot, PeerTier { buckets, torrent_id }),
            ..self
        }
    }

    /// After a peer left.
    pub open spec fn without_peer(self, slot: PeerSlot) -> ShaperModel {
        ShaperModel { peers: without_entry(self.peers, slot), ..self }
    }

    /// After a torrent was taken out, with its peers.
    pub open spec fn without_torrent(self, torrent_id: TorrentId) -> ShaperModel {
        ShaperModel {
            torrents: without_entry(self.torrents, torrent_id),
            peers: peers_of_others(self.peers, torrent_id),
            ..self
        }
    }

    /// The buckets of a peer.
    pub open spec fn buckets_of(self, slot: PeerSlot) -> Option<DuplexModel> {
        match find_key(self.peers, slot) {
            Some(i) => Some(self.peers[i].1.buckets),
            None => None,
        }
    }

    /// With one bucket of a peer changed, where the peer is registered.
    pub open spec fn with_bucket(self, slot: PeerSlot, flow: Flow, b: BucketModel) -> ShaperModel {
        match find_key(self.peers, slot) {
            Some(i) => {
                let tier = self.peers[i].1;
                ShaperModel {
                    peers: self.peers.update(
                        i,
                        (slot, PeerTier { buckets: tier.buckets.with_bucket(flow, b), ..tier }),
                    ),
                    ..self
                }
            },
            None => self,
        }
    }

    /// Whether a peer can take so many tokens; nothing where it is not
    /// registered.
    pub open spec fn allows(self, slot: PeerSlot, flow: Flow, bytes: u64) -> Option<bool> {
        match self.buckets_of(slot) {
            Some(b) => Some(bytes <= b.bucket(flow).tokens),
            None => None,
        }
    }

    /// After an attempt of a peer to take tokens.
    pub open spec fn asked(self, slot: PeerSlot, flow: Flow, bytes: u64) -> ShaperModel {
        match self.buckets_of(slot) {
            Some(b) => self.with_bucket(slot, flow, b.bucket(flow).asked(bytes)),
            None => self,
        }
    }

    /// After the rate of a peer was set.
    pub open spec fn with_rate(self, slot: PeerSlot, flow: Flow, rate_bps: u64) -> ShaperModel {
        match self.buckets_of(slot) {
            Some(b) => self.with_bucket(
                slot,
                flow,
                BucketModel { rate_bps, ..b.bucket(flow) },
            ),
            None => self,
        }
    }
}

/// Changing one bucket of a peer keeps the tiers sound when the bucket is.
pub proof fn lemma_with_bucket_keeps(m: ShaperModel, slot: PeerSlot, flow: Flow, b: BucketModel)
    requires
        m.wf(),
        b.wf(),
    ensures
        m.with_bucket(slot, flow, b).wf(),
{
    lemma_find(m.peers, slot);
    let n = m.with_bucket(slot, flow, b);
    assert forall|i: int, j: int|
        0 <= i < n.peers.len() && 0 <= j < n.peers.len() && i != j implies (
    #[trigger] n.peers[i]).0 != (#[trigger] n.peers[j]).0 by {
        assert(m.peers[i].0 != m.peers[j].0);
    }
    assert forall|i: int| 0 <= i < n.peers.len() implies (#[trigger] n.peers[i]).1.buckets.wf() by {
        assert(m.peers[i].1.buckets.wf());
    }
}

proof fn lemma_peers_of_others(peers: Seq<(PeerSlot, PeerTier)>, torrent_id: TorrentId)
    ensures
        forall|i: int|
            0 <= i < peers_of_others(peers, torrent_id).len() ==> peers.contains(
                #[trigger] peers_of_others(peers, torrent_id)[i],
            ) && peers_of_others(peers, torrent_id)[i].1.torrent_id != torrent_id,
        keys_distinct(peers) ==> keys_distinct(peers_of_others(peers, torrent_id)),
        forall|p: (PeerSlot, PeerTier)|
            peers.contains(p) && p.1.torrent_id != torrent_id ==> #[trigger] peers_of_others(
                peers,
                torrent_id,
            ).contains(p),
    decreases peers.len(),
{
    if peers.len() > 0 {
        let front = peers.drop_last();
        let last = peers.last();
        let rest = peers_of_others(front, torrent_id);
        let out = peers_of_others(peers, torrent_id);
        lemma_peers_of_others(front, torrent_id);
        assert(peers[peers.len() - 1] == last);
        assert forall|i: int| 0 <= i < out.len() implies peers.contains(#[trigger] out[i])
            && out[i].1.torrent_id != torrent_id by {
            if i < rest.len() {
                assert(out[i] == rest[i]);
                assert(front.contains(rest[i]));
                let k = choose|k: int| 0 <= k < front.len() && front[k] == rest[i];
                assert(peers[k] == rest[i]);
            }
        }
        if keys_distinct(peers) {
            assert forall|a: int, b: int|
                0 <= a < front.len() && 0 <= b < front.len() && a != b implies (
            #[trigger] front[a]).0 != (#[trigger] front[b]).0 by {
                assert(peers[a].0 != peers[b].0);
            }
            assert forall|a: int, b: int|
                0 <= a < out.len() && 0 <= b < out.len() && a != b implies (
            #[trigger] out[a]).0 != (#[trigger] out[b]).0 by {
                if a < rest.len() {
                    assert(out[a] == rest[a]);
                }
                if b < rest.len() {
                    assert(out[b] == rest[b]);
                }
                if a < rest.len() && b == rest.len() {
                    assert(front.contains(rest[a]));
                    let k = choose|k: int| 0 <= k < front.len() && front[k] == rest[a];
                    assert(peers[k].0 != peers[peers.len() - 1].0);
                }
                if b < rest.len() && a == rest.len() {
                    assert(front.contains(rest[b]));
                    let k = choose|k: int| 0 <= k < front.len() && front[k] == rest[b];
                    assert(peers[k].0 != peers[peers.len() - 1].0);
                }
            }
        }
        assert forall|p: (PeerSlot, PeerTier)|
            peers.contains(p) && p.1.torrent_id != torrent_id implies #[trigger] out.contains(
            p,
        ) by {
            let i = choose|i: int| 0 <= i < peers.len() && peers[i] == p;
            if i < front.len() {
                assert(front[i] == p);
                assert(rest.contains(p));
                let k = choose|k: int| 0 <= k < rest.len() && rest[k] == p;
                assert(out[k] == p);
            } else {
                assert(out[rest.len() as int] == p);
            }
        }
    }
}

proof fn lemma_without_peer_keeps(m: ShaperModel, slot: PeerSlot)
    requires
        m.wf(),
    ensures
        m.without_peer(slot).wf(),
{
    lemma_without_entry(m.peers, slot);
    let p = m.without_peer(slot);
    assert forall|i: int| 0 <= i < p.peers.len() implies (#[trigger] p.peers[i]).1.buckets.wf() by {
        assert(m.peers.contains(p.peers[i]));
    }
}

/// Registering and taking out leave nothing registered twice and no bucket
/// over-full.
pub proof fn law_shaper_stays_sound(
    m: ShaperModel,
    slot: PeerSlot,
    torrent_id: TorrentId,
    buckets: DuplexModel,
)
    requires
        m.wf(),
        buckets.wf(),
    ensures
        m.with_torrent(torrent_id, buckets).wf(),
        m.with_peer(slot, torrent_id, buckets).wf(),
        m.without_peer(slot).wf(),
        m.without_torrent(torrent_id).wf(),
{
    lemma_with_entry(m.torrents, torrent_id, buckets);
    lemma_with_entry(m.peers, slot, PeerTier { buckets, torrent_id });
    lemma_without_peer_keeps(m, slot);
    lemma_without_entry(m.torrents, torrent_id);
    lemma_peers_of_others(m.peers, torrent_id);
    let t = m.without_torrent(torrent_id);
    assert forall|i: int| 0 <= i < t.peers.len() implies (#[trigger] t.peers[i]).1.buckets.wf() by {
        assert(m.peers.contains(t.peers[i]));
    }
    assert forall|i: int| 0 <= i < t.torrents.len() implies (#[trigger] t.torrents[i]).1.wf() by {
        assert(m.torrents.contains(t.torrents[i]));
    }
}

/// A torrent that was taken out is gone with all its peers, and every peer of
/// another torrent stays.
pub proof fn law_dropped_torrent_takes_its_peers(
    m: ShaperModel,
    torrent_id: TorrentId,
    p: (PeerSlot, PeerTier),
)
    requires
        m.wf(),
    ensures
        find_key(m.without_torrent(torrent_id).torrents, torrent_id) is None,
        m.without_torrent(torrent_id).peers.contains(p) <==> m.peers.contains(p)
            && p.1.torrent_id != torrent_id,
{
    lemma_without_entry(m.torrents, torrent_id);
    lemma_peers_of_others(m.peers, torrent_id);
    let t = m.without_torrent(torrent_id);
    if t.peers.contains(p) {
        let i = choose|i: int| 0 <= i < t.peers.len() && t.peers[i] == p;
        assert(m.peers.contains(t.peers[i]));
    }
}

/// A peer that was registered has its buckets until it leaves.
pub proof fn law_registered_peer_has_buckets(
    m: ShaperModel,
    slot: PeerSlot,
    torrent_id: TorrentId,
    buckets: DuplexModel,
)
    requires
        m.wf(),
    ensures
        m.with_peer(slot, torrent_id, buckets).buckets_of(slot) == Some(buckets),
        m.without_peer(slot).buckets_of(slot) is None,
{
    lemma_with_entry(m.peers, slot, PeerTier { buckets, torrent_id });
    lemma_without_entry(m.peers, slot);
}

/// Which bucket of a pair.
#[derive(Debug, Clone, Copy, PartialEq, Eq, Structural)]
pub enum Flow {
    /// What is sent.
    Up,
    /// What is received.
    Down,
}

impl Default for Shaper {
    fn default() -> (r: Self)
        ensures
            r@.wf(),
            r@.torrents.len() == 0,
            r@.peers.len() == 0,
            r@.refill_ticks == 0,
            r@.session == DuplexModel::full(PASSTHROUGH_RATE, PASSTHROUGH_RATE),
    {
        Shaper::new()
    }
}

impl Shaper {
    /// No limits yet, nothing registered.
    pub fn new() -> (r: Shaper)
        ensures
            r@.wf(),
            r@.torrents.len() == 0,
            r@.peers.len() == 0,
            r@.refill_ticks == 0,
            r@.session == DuplexModel::full(PASSTHROUGH_RATE, PASSTHROUGH_RATE),
    {
        Shaper {
            session: DuplexBuckets::passthrough(),
            torrents: Vec::new(),
            peers: Vec::new(),
            refill_ticks: 0,
        }
    }

    /// Where a torrent stands.
    fn find_torrent(&self, torrent_id: TorrentId) -> (r: Option<usize>)
        ensures
            match (r, find_key(self@.torrents, torrent_id)) {
                (Some(i), Some(j)) => i == j,
                (None, None) => true,
                _ => false,
            },
    {
        let ghost all = self@.torrents;
        let mut i: usize = 0;
        while i < self.torrents.len()
            invariant
                i <= self.torrents@.len(),
                all == torrents_view(self.torrents@),
                all == self@.torrents,
                forall|j: int| 0 <= j < i ==> (#[trigger] all[j]).0 != torrent_id,
            decreases self.torrents@.len() - i,
        {
            assert(all[i as int].0 == self.torrents@[i as int].0);
            if self.torrents[i].0 == torrent_id {
                proof {
                    lemma_find_at(all, torrent_id, i as int);
                }
                return Some(i);
            }
            i = i + 1;
        }
        proof {
            lemma_find(all, torrent_id);
        }
        None
    }

    /// Where a peer stands.
    fn find_peer(&self, slot: PeerSlot) -> (r: Option<usize>)
        ensures
            match (r, find_key(self@.peers, slot)) {
                (Some(i), Some(j)) => i == j && i < self.peers@.len(),
                (None, None) => true,
                _ => false,
            },
    {
        let ghost all = self@.peers;
        let mut i: usize = 0;
        while i < self.peers.len()
            invariant
                i <= self.peers@.len(),
                all == peers_view(self.peers@),
                all == self@.peers,
                forall|j: int| 0 <= j < i ==> (#[trigger] all[j]).0 != slot,
            decreases self.peers@.len() - i,
        {
            assert(all[i as int].0 == self.peers@[i as int].0);
            if self.peers[i].0 == slot {
                proof {
                    lemma_find_at(all, slot, i as int);
                }
                return Some(i);
            }
            i = i + 1;
        }
        proof {
            lemma_find(all, slot);
        }
        None
    }

    /// Registers a torrent, in place of an earlier registration.
    pub fn register_torrent(&mut self, torrent_id: TorrentId, buckets: DuplexBuckets)
        requires
            old(self)@.wf(),
            buckets@.wf(),
        ensures
            final(self)@.wf(),
            final(self)@ == old(self)@.with_torrent(torrent_id, buckets@),
    {
        let ghost before = self@;
        let ghost model = buckets@;
        proof {
            law_shaper_stays_sound(before, PeerSlot(0), torrent_id, model);
            lemma_find(before.torrents, torrent_id);
        }
        match self.find_torrent(torrent_id) {
            Some(i) => {
                self.torrents.set(i, (torrent_id, TorrentBuckets { buckets }));
            },
            None => {
                self.torrents.push((torrent_id, TorrentBuckets { buckets }));
            },
        }
        assert(self@.torrents =~= before.with_torrent(torrent_id, model).torrents);
    }

    /// Registers a torrent that is not to be limited.
    pub fn register_torrent_passthrough(&mut self, torrent_id: TorrentId)
        requires
            old(self)@.wf(),
        ensures
            final(self)@.wf(),
            final(self)@ == old(self)@.with_torrent(
                torrent_id,
                DuplexModel::full(PASSTHROUGH_RATE, PASSTHROUGH_RATE),
            ),
    {
        self.register_torrent(torrent_id, DuplexBuckets::passthrough());
    }

    /// Registers a peer of a torrent, in place of an earlier registration.
    pub fn register_peer(&mut self, slot: PeerSlot, torrent_id: TorrentId, buckets: DuplexBuckets)
        requires
            old(self)@.wf(),
            buckets@.wf(),
        ensures
            final(self)@.wf(),
            final(self)@ == old(self)@.with_peer(slot, torrent_id, buckets@),
    {
        let ghost before = self@;
        let ghost model = buckets@;
        proof {
            law_shaper_stays_sound(before, slot, torrent_id, model);
            lemma_find(before.peers, slot);
        }
        match self.find_peer(slot) {
            Some(i) => {
                self.peers.set(i, (slot, PeerBuckets { buckets, torrent_id }));
            },
            None => {
                self.peers.push((slot, PeerBuckets { buckets, torrent_id }));
            },
        }
        assert(self@.peers =~= before.with_peer(slot, torrent_id, model).peers);
    }

    /// The buckets of a peer.
    pub fn peer_buckets(&self, slot: PeerSlot) -> (r: Option<&DuplexBuckets>)
        ensures
            match (r, self@.buckets_of(slot)) {
                (Some(a), Some(b)) => a@ == b,
                (None, None) => true,
                _ => false,
            },
    {
        match self.find_peer(slot) {
            Some(i) => Some(&self.peers[i].1.buckets),
            None => None,
        }
    }

    /// Takes tokens of a peer, all or none; nothing where the peer is not
    /// registered.
    pub fn try_consume(&mut self, slot: PeerSlot, flow: Flow, bytes: u64) -> (r: Option<bool>)
        requires
            old(self)@.wf(),
        ensures
            final(self)@.wf(),
            r == old(self)@.allows(slot, flow, bytes),
            final(self)@ == old(self)@.asked(slot, flow, bytes),
    {
        let ghost before = self@;
        proof {
            lemma_find(before.peers, slot);
        }
        match self.find_peer(slot) {
            Some(i) => {
                assert(before.peers[i as int].1.buckets.wf());
                let taken = match flow {
                    Flow::Up => self.peers[i].1.buckets.up.try_consume(bytes),
                    Flow::Down => self.peers[i].1.buckets.down.try_consume(bytes),
                };
                proof {
                    let b = before.peers[i as int].1.buckets.bucket(flow);
                    lemma_with_bucket_keeps(before, slot, flow, b.asked(bytes));
                    assert(self@.peers =~= before.asked(slot, flow, bytes).peers);
                    assert(self@.torrents =~= before.torrents);
                }
                Some(taken)
            },
            None => None,
        }
    }

    /// Sets the rate of a peer. `false` where it is not registered.
    pub fn set_peer_rate(&mut self, slot: PeerSlot, flow: Flow, rate_bps: u64) -> (r: bool)
        requires
            old(self)@.wf(),
        ensures
            final(self)@.wf(),
            r == old(self)@.buckets_of(slot) is Some,
            final(self)@ == old(self)@.with_rate(slot, flow, rate_bps),
    {
        let ghost before = self@;
        proof {
            lemma_find(before.peers, slot);
        }
        match self.find_peer(slot) {
            Some(i) => {
                assert(before.peers[i as int].1.buckets.wf());
                match flow {
                    Flow::Up => self.peers[i].1.buckets.up.set_rate_bps(rate_bps),
                    Flow::Down => self.peers[i].1.buckets.down.set_rate_bps(rate_bps),
                }
                proof {
                    let b = before.peers[i as int].1.buckets.bucket(flow);
                    lemma_with_bucket_keeps(
                        before,
                        slot,
                        flow,
                        BucketModel { rate_bps, ..b },
                    );
                    assert(self@.peers =~= before.with_rate(slot, flow, rate_bps).peers);
                    assert(self@.torrents =~= before.torrents);
                }
                true
            },
            None => false,
        }
    }

    /// Takes out a peer that left.
    pub fn drop_peer(&mut self, slot: PeerSlot)
        requires
            old(self)@.wf(),
        ensures
            final(self)@.wf(),
            final(self)@ == old(self)@.without_peer(slot),
    {
        let ghost before = self@;
        proof {
            lemma_without_peer_keeps(before, slot);
            lemma_find(before.peers, slot);
        }
        if let Some(i) = self.find_peer(slot) {
            self.peers.remove(i);
        }
        assert(self@.peers =~= before.without_peer(slot).peers);
    }

    /// Takes out a torrent and its peers.
    pub fn drop_torrent(&mut self, torrent_id: TorrentId)
        requires
            old(self)@.wf(),
        ensures
            final(self)@.wf(),
            final(self)@ == old(self)@.without_torrent(torrent_id),
    {
        let ghost before = self@;
        proof {
            law_shaper_stays_sound(before, PeerSlot(0), torrent_id, before.session);
            lemma_find(before.torrents, torrent_id);
        }
        if let Some(i) = self.find_torrent(torrent_id) {
            self.torrents.remove(i);
        }
        assert(self@.torrents =~= before.without_torrent(torrent_id).torrents);
        let mut i: usize = self.peers.len();
        assert(before.peers.take(i as int) =~= before.peers);
        assert(before.peers.skip(i as int) =~= Seq::<(PeerSlot, PeerTier)>::empty());
        let ghost tail = Seq::<(PeerSlot, PeerTier)>::empty();
        assert(peers_of_others(before.peers, torrent_id) + tail =~= peers_of_others(
            before.peers,
            torrent_id,
        ));
        while i > 0
            invariant
                i <= before.peers.len(),
                self@.session == before.session,
                self@.torrents == before.without_torrent(torrent_id).torrents,
                self@.refill_ticks == before.refill_ticks,
                self@.peers == before.peers.take(i as int) + tail,
                peers_of_others(before.peers.take(i as int), torrent_id) + tail
                    == peers_of_others(before.peers, torrent_id),
            decreases i,
        {
            i = i - 1;
            let ghost now = before.peers.take(i + 1);
            let ghost last = before.peers[i as int];
            assert(now.drop_last() =~= before.peers.take(i as int));
            assert(now.last() == last);
            assert(self@.peers[i as int] == last);
            assert(self.peers@.len() == self@.peers.len());
            if self.peers[i].1.torrent_id == torrent_id {
                let ghost all = self@.peers;
                self.peers.remove(i);
                assert(self@.peers =~= all.remove(i as int));
                assert(all == now + tail);
                assert(all.remove(i as int) =~= before.peers.take(i as int) + tail);
            } else {
                proof {
                    let longer = seq![last] + tail;
                    assert(self@.peers =~= before.peers.take(i as int) + longer);
                    assert(peers_of_others(before.peers.take(i as int), torrent_id) + longer
                        =~= peers_of_others(now, torrent_id) + tail);
                    tail = longer;
                }
            }
        }
        assert(before.peers.take(0) =~= Seq::<(PeerSlot, PeerTier)>::empty());
        assert(self@.peers =~= peers_of_others(before.peers, torrent_id));
    }

    /// How often tokens came back.
    pub fn refill_ticks(&self) -> (r: u64)
        ensures
            r == self@.refill_ticks,
    {
        self.refill_ticks
    }
}

} // verus!
