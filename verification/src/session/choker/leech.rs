//! Choosing peers while we download: those who send us most.
use crate::session::choker::{
    choose_peers, chosen, rank_keys, total_weight, usual_config, ChokerConfig, PeerView, UnchokeSet, Unchoker,
};
use vstd::prelude::*;

verus! {

/// Serves the peers who send us most, as long as they sent something lately.
#[derive(Debug)]
pub struct LeechChoker {
    cfg: ChokerConfig,
}

/// The peer is new, or did something of use lately.
pub open spec fn is_eligible(p: PeerView, now: u64, anti_snub: u64) -> bool {
    p.is_new || now <= p.last_activity + anti_snub
}

/// The peers that are eligible.
pub open spec fn eligible(peers: Seq<PeerView>, now: u64, anti_snub: u64) -> Seq<PeerView>
    decreases peers.len(),
{
    if peers.len() == 0 {
        peers
    } else if is_eligible(peers[0], now, anti_snub) {
        seq![peers[0]] + eligible(peers.skip(1), now, anti_snub)
    } else {
        eligible(peers.skip(1), now, anti_snub)
    }
}

proof fn lemma_eligible_weight(peers: Seq<PeerView>, now: u64, anti_snub: u64, new_peer_weight: u32)
    ensures
        total_weight(eligible(peers, now, anti_snub), new_peer_weight) <= total_weight(peers, new_peer_weight),
    decreases peers.len(),
{
    if peers.len() > 0 {
        let rest = eligible(peers.skip(1), now, anti_snub);
        lemma_eligible_weight(peers.skip(1), now, anti_snub, new_peer_weight);
        if is_eligible(peers[0], now, anti_snub) {
            assert((seq![peers[0]] + rest).skip(1) =~= rest);
        }
    }
}

impl Default for LeechChoker {
    fn default() -> (r: Self)
        ensures
            r.settings() == usual_config(),
    {
        LeechChoker::new()
    }
}

impl LeechChoker {
    /// With the usual settings.
    pub fn new() -> (r: LeechChoker)
        ensures
            r.settings() == usual_config(),
    {
        LeechChoker { cfg: ChokerConfig::default() }
    }

    /// With these settings.
    pub fn with_config(cfg: ChokerConfig) -> (r: LeechChoker)
        ensures
            r.settings() == cfg,
    {
        LeechChoker { cfg }
    }
}

impl Unchoker for LeechChoker {
    closed spec fn settings(&self) -> ChokerConfig {
        self.cfg
    }

    fn select(&self, peers: &[PeerView], now: u64, rotation_counter: u64) -> (r: UnchokeSet)
        ensures
            chosen(
                eligible(peers@, now, self.settings().anti_snub),
                |p: PeerView| p.down_rate_bps,
                self.settings(),
                rotation_counter,
                r,
            ),
    {
        let mut pool: Vec<PeerView> = Vec::new();
        let mut keys: Vec<(u64, u64)> = Vec::new();
        let ghost rate = |p: PeerView| p.down_rate_bps;
        let ghost want = eligible(peers@, now, self.cfg.anti_snub);
        let mut i: usize = 0;
        assert(peers@.skip(0) =~= peers@);
        assert(pool@ + want =~= want);
        assert(keys@ =~= rank_keys(pool@, rate));
        while i < peers.len()
            invariant
                i <= peers@.len(),
                rate == (|p: PeerView| p.down_rate_bps),
                want == eligible(peers@, now, self.cfg.anti_snub),
                pool@ + eligible(peers@.skip(i as int), now, self.cfg.anti_snub) == want,
                keys@ == rank_keys(pool@, rate),
            decreases peers@.len() - i,
        {
            let p = peers[i];
            let ghost before = pool@;
            let ghost rest = peers@.skip(i as int);
            assert(rest.skip(1) =~= peers@.skip(i + 1));
            if p.is_new || now <= p.last_activity || now - p.last_activity <= self.cfg.anti_snub {
                pool.push(p);
                keys.push((u64::MAX - p.down_rate_bps, p.slot.0));
                assert(keys@ =~= rank_keys(pool@, rate));
            }
            assert(pool@ + eligible(peers@.skip(i + 1), now, self.cfg.anti_snub) =~= before + eligible(rest, now, self.cfg.anti_snub));
            i = i + 1;
        }
        assert(pool@ + eligible(peers@.skip(i as int), now, self.cfg.anti_snub) =~= pool@);
        proof {
            lemma_eligible_weight(peers@, now, self.cfg.anti_snub, self.cfg.new_peer_weight);
        }
        choose_peers(&pool, keys, &self.cfg, rotation_counter, Ghost(rate))
    }

    fn config(&self) -> (r: &ChokerConfig) {
        &self.cfg
    }
}

} // verus!
