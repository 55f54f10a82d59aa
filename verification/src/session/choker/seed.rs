//! Choosing peers once we have everything: those who take most.
use crate::session::choker::{
    choose_peers, chosen, rank_keys, total_weight, usual_config, ChokerConfig, PeerView, UnchokeSet, Unchoker,
};
use vstd::prelude::*;

verus! {

/// Serves the peers who take most, among those who want what we have.
#[derive(Debug)]
pub struct SeedChoker {
    cfg: ChokerConfig,
}

/// The peer wants what we have.
pub open spec fn is_eligible(p: PeerView) -> bool {
    p.is_interested
}

/// The peers that are eligible.
pub open spec fn eligible(peers: Seq<PeerView>) -> Seq<PeerView>
    decreases peers.len(),
{
    if peers.len() == 0 {
        peers
    } else if is_eligible(peers[0]) {
        seq![peers[0]] + eligible(peers.skip(1))
    } else {
        eligible(peers.skip(1))
    }
}

proof fn lemma_eligible_weight(peers: Seq<PeerView>, new_peer_weight: u32)
    ensures
        total_weight(eligible(peers), new_peer_weight) <= total_weight(peers, new_peer_weight),
    decreases peers.len(),
{
    if peers.len() > 0 {
        let rest = eligible(peers.skip(1));
        lemma_eligible_weight(peers.skip(1), new_peer_weight);
        if is_eligible(peers[0]) {
            assert((seq![peers[0]] + rest).skip(1) =~= rest);
        }
    }
}

impl Default for SeedChoker {
    fn default() -> (r: Self)
        ensures
            r.settings() == usual_config(),
    {
        SeedChoker::new()
    }
}

impl SeedChoker {
    /// With the usual settings.
    pub fn new() -> (r: SeedChoker)
        ensures
            r.settings() == usual_config(),
    {
        SeedChoker { cfg: ChokerConfig::default() }
    }

    /// With these settings.
    pub fn with_config(cfg: ChokerConfig) -> (r: SeedChoker)
        ensures
            r.settings() == cfg,
    {
        SeedChoker { cfg }
    }
}

impl Unchoker for SeedChoker {
    closed spec fn settings(&self) -> ChokerConfig {
        self.cfg
    }

    fn select(&self, peers: &[PeerView], _now: u64, rotation_counter: u64) -> (r: UnchokeSet)
        ensures
            chosen(
                eligible(peers@),
                |p: PeerView| p.up_rate_bps,
                self.settings(),
                rotation_counter,
                r,
            ),
    {
        let mut pool: Vec<PeerView> = Vec::new();
        let mut keys: Vec<(u64, u64)> = Vec::new();
        let ghost rate = |p: PeerView| p.up_rate_bps;
        let ghost want = eligible(peers@);
        let mut i: usize = 0;
        assert(peers@.skip(0) =~= peers@);
        assert(pool@ + want =~= want);
        assert(keys@ =~= rank_keys(pool@, rate));
        while i < peers.len()
            invariant
                i <= peers@.len(),
                rate == (|p: PeerView| p.up_rate_bps),
                want == eligible(peers@),
                pool@ + eligible(peers@.skip(i as int)) == want,
                keys@ == rank_keys(pool@, rate),
            decreases peers@.len() - i,
        {
            let p = peers[i];
            let ghost before = pool@;
            let ghost rest = peers@.skip(i as int);
            assert(rest.skip(1) =~= peers@.skip(i + 1));
            if p.is_interested {
                pool.push(p);
                keys.push((u64::MAX - p.up_rate_bps, p.slot.0));
                assert(keys@ =~= rank_keys(pool@, rate));
            }
            assert(pool@ + eligible(peers@.skip(i + 1)) =~= before + eligible(rest));
            i = i + 1;
        }
        assert(pool@ + eligible(peers@.skip(i as int)) =~= pool@);
        proof {
            lemma_eligible_weight(peers@, self.cfg.new_peer_weight);
        }
        choose_peers(&pool, keys, &self.cfg, rotation_counter, Ghost(rate))
    }

    fn config(&self) -> (r: &ChokerConfig) {
        &self.cfg
    }
}

} // verus!
