//! What holds of every choice of peers.
use crate::ids::PeerSlot;
use crate::order::{lemma_same_distinct, lemma_same_items, pair_le, pairs_sorted};
use crate::session::choker::{
    best_by_rate, chosen, drawn, law_choice_is_determined, law_served_peers_are_eligible, leech,
    lemma_drawn, lemma_lots_among, lemma_others_part, lot_of, lots, next_counter, others, rank_keys,
    seed, total_weight, usual_config, weight_of, ChokerConfig, PeerView, UnchokeSet,
};
use crate::session::params::min_int;
use vstd::prelude::*;

verus! {

/// No connection stands twice.
pub open spec fn slots_distinct(peers: Seq<PeerView>) -> bool {
    forall|i: int, j: int|
        0 <= i < peers.len() && 0 <= j < peers.len() && i != j ==> (#[trigger] peers[i]).slot != (
        #[trigger] peers[j]).slot
}

/// The slot is that of one of the peers.
pub open spec fn slot_among(peers: Seq<PeerView>, slot: PeerSlot) -> bool {
    exists|i: int| 0 <= i < peers.len() && (#[trigger] peers[i]).slot == slot
}

/// `a` comes before `b`: its rate is better, or as good and its slot smaller.
pub open spec fn outranks(a: PeerView, b: PeerView, rate: spec_fn(PeerView) -> u64) -> bool {
    rate(a) > rate(b) || (rate(a) == rate(b) && a.slot.0 < b.slot.0)
}

/// Where new peers have a weight, peers weigh at least one each.
proof fn lemma_weight_at_least(peers: Seq<PeerView>, new_peer_weight: u32)
    requires
        new_peer_weight >= 1,
    ensures
        total_weight(peers, new_peer_weight) >= peers.len(),
    decreases peers.len(),
{
    if peers.len() > 0 {
        lemma_weight_at_least(peers.skip(1), new_peer_weight);
    }
}

/// As many peers are drawn as are asked for, or all of them where there are
/// fewer; each is one of those that the draw is among, and none is drawn twice.
pub proof fn law_draw_is_full(peers: Seq<PeerView>, n: nat, new_peer_weight: u32, counter: u64)
    requires
        slots_distinct(peers),
        new_peer_weight >= 1,
    ensures
        lots(peers, n, new_peer_weight, counter).len() == min_int(n as int, peers.len() as int),
        lots(peers, n, new_peer_weight, counter).no_duplicates(),
        forall|k: int|
            0 <= k < lots(peers, n, new_peer_weight, counter).len() ==> slot_among(
                peers,
                #[trigger] lots(peers, n, new_peer_weight, counter)[k],
            ),
    decreases n,
{
    let all = lots(peers, n, new_peer_weight, counter);
    lemma_weight_at_least(peers, new_peer_weight);
    assert forall|k: int| 0 <= k < all.len() implies slot_among(peers, #[trigger] all[k]) by {
        lemma_lots_among(peers, n, new_peer_weight, counter, k);
    }
    if n > 0 && peers.len() > 0 {
        let total = total_weight(peers, new_peer_weight);
        let next = next_counter(counter);
        let target = lot_of(next) as int % total;
        lemma_drawn(peers, new_peer_weight, target);
        let d = drawn(peers, new_peer_weight, target);
        let rest = peers.remove(d);
        assert forall|i: int, j: int|
            0 <= i < rest.len() && 0 <= j < rest.len() && i != j implies (#[trigger] rest[i]).slot
            != (#[trigger] rest[j]).slot by {
            let a = if i < d { i } else { i + 1 };
            let b = if j < d { j } else { j + 1 };
            assert(rest[i] == peers[a] && rest[j] == peers[b]);
        }
        law_draw_is_full(rest, (n - 1) as nat, new_peer_weight, next);
        let others = lots(rest, (n - 1) as nat, new_peer_weight, next);
        assert(all == seq![peers[d].slot] + others);
        assert forall|i: int, j: int|
            0 <= i < all.len() && 0 <= j < all.len() && i != j implies all[i] != all[j] by {
            let k = if i == 0 { j - 1 } else { i - 1 };
            if i == 0 || j == 0 {
                assert(slot_among(rest, others[k]));
                let e = choose|e: int| 0 <= e < rest.len() && (#[trigger] rest[e]).slot == others[k];
                let a = if e < d { e } else { e + 1 };
                assert(rest[e] == peers[a]);
                assert(peers[a].slot != peers[d].slot);
            } else {
                assert(others[i - 1] != others[j - 1]);
            }
        }
    }
}

/// The regular slots go to the best. As many are given as there are, or one to
/// each peer where there are fewer peers; and whoever has one comes before every
/// peer that got a later one or none.
pub proof fn law_regular_slots_go_to_the_best(
    eligible: Seq<PeerView>,
    rate: spec_fn(PeerView) -> u64,
    n: int,
    regular: Seq<PeerSlot>,
)
    requires
        0 <= n,
        slots_distinct(eligible),
        best_by_rate(eligible, rate, n, regular),
    ensures
        regular.len() == min_int(n, eligible.len() as int),
        regular.no_duplicates(),
        forall|k: int| 0 <= k < regular.len() ==> slot_among(eligible, #[trigger] regular[k]),
        forall|k: int, a: int, b: int|
            0 <= k < regular.len() && 0 <= a < eligible.len() && 0 <= b < eligible.len() && a != b
                && #[trigger] regular[k] == (#[trigger] eligible[a]).slot && !regular.take(
                k,
            ).contains((#[trigger] eligible[b]).slot) ==> outranks(eligible[a], eligible[b], rate),
{
    let keys = rank_keys(eligible, rate);
    let ranked = choose|ranked: Seq<(u64, u64)>| #[trigger]
        pairs_sorted(ranked) && ranked.to_multiset() == keys.to_multiset() && regular.len() == (if n
            < ranked.len() {
            n
        } else {
            ranked.len() as int
        }) && forall|i: int| 0 <= i < regular.len() ==> (#[trigger] regular[i]).0 == ranked[i].1;
    ranked.to_multiset_ensures();
    keys.to_multiset_ensures();
    assert(ranked.len() == keys.len());
    assert forall|i: int, j: int|
        0 <= i < keys.len() && 0 <= j < keys.len() && i != j implies keys[i] != keys[j] by {
        assert(eligible[i].slot != eligible[j].slot);
    }
    lemma_same_distinct(keys, ranked);
    assert forall|k: int| 0 <= k < regular.len() implies exists|i: int|
        0 <= i < eligible.len() && (#[trigger] eligible[i]).slot == #[trigger] regular[k]
            && ranked[k] == keys[i] by {
        assert(ranked.contains(ranked[k]));
        lemma_same_items(ranked, keys, ranked[k]);
        let i = choose|i: int| 0 <= i < keys.len() && keys[i] == ranked[k];
        assert(eligible[i].slot.0 == regular[k].0);
        assert(eligible[i].slot == regular[k]);
    }
    assert forall|i: int, j: int|
        0 <= i < regular.len() && 0 <= j < regular.len() && i != j implies regular[i]
        != regular[j] by {
        let a = choose|a: int|
            0 <= a < eligible.len() && (#[trigger] eligible[a]).slot == regular[i] && ranked[i]
                == keys[a];
        let b = choose|b: int|
            0 <= b < eligible.len() && (#[trigger] eligible[b]).slot == regular[j] && ranked[j]
                == keys[b];
        assert(ranked[i] != ranked[j]);
        assert(a != b);
    }
    assert forall|k: int, a: int, b: int|
        0 <= k < regular.len() && 0 <= a < eligible.len() && 0 <= b < eligible.len() && a != b
            && #[trigger] regular[k] == (#[trigger] eligible[a]).slot && !regular.take(k).contains(
            (#[trigger] eligible[b]).slot,
        ) implies outranks(eligible[a], eligible[b], rate) by {
        let i = choose|i: int|
            0 <= i < eligible.len() && (#[trigger] eligible[i]).slot == regular[k] && ranked[k]
                == keys[i];
        assert(i == a);
        assert(keys.contains(keys[b]));
        lemma_same_items(ranked, keys, keys[b]);
        let q = choose|q: int| 0 <= q < ranked.len() && ranked[q] == keys[b];
        if q < k {
            assert(regular[q].0 == eligible[b].slot.0);
            assert(regular.take(k)[q] == eligible[b].slot);
            assert(false);
        }
        assert(q != k);
        assert(pair_le(ranked[k], ranked[q]));
        assert(eligible[a].slot != eligible[b].slot);
    }
}

/// Slots that no peer has make no difference.
proof fn lemma_others_without(peers: Seq<PeerView>, taken: Seq<PeerSlot>, t: int)
    requires
        0 <= t < taken.len(),
        !slot_among(peers, taken[t]),
    ensures
        others(peers, taken) == others(peers, taken.remove(t)),
    decreases peers.len(),
{
    if peers.len() > 0 {
        let rest = peers.skip(1);
        let fewer = taken.remove(t);
        assert(!slot_among(rest, taken[t])) by {
            if slot_among(rest, taken[t]) {
                let i = choose|i: int| 0 <= i < rest.len() && (#[trigger] rest[i]).slot == taken[t];
                assert(peers[i + 1] == rest[i]);
            }
        }
        lemma_others_without(rest, taken, t);
        assert(peers[0].slot != taken[t]);
        if taken.contains(peers[0].slot) {
            let i = choose|i: int| 0 <= i < taken.len() && taken[i] == peers[0].slot;
            let j = if i < t { i } else { i - 1 };
            assert(fewer[j] == peers[0].slot);
        }
        if fewer.contains(peers[0].slot) {
            let j = choose|j: int| 0 <= j < fewer.len() && fewer[j] == peers[0].slot;
            let i = if j < t { j } else { j + 1 };
            assert(taken[i] == peers[0].slot);
        }
    }
}

/// Leaving some of the peers out leaves that many fewer, and none twice.
proof fn lemma_others_count(peers: Seq<PeerView>, taken: Seq<PeerSlot>)
    requires
        slots_distinct(peers),
        taken.no_duplicates(),
        forall|k: int| 0 <= k < taken.len() ==> slot_among(peers, #[trigger] taken[k]),
    ensures
        others(peers, taken).len() == peers.len() - taken.len(),
        slots_distinct(others(peers, taken)),
    decreases peers.len(),
{
    if peers.len() == 0 {
        if taken.len() > 0 {
            assert(slot_among(peers, taken[0]));
        }
    } else {
        let rest = peers.skip(1);
        let first = peers[0].slot;
        assert forall|i: int, j: int|
            0 <= i < rest.len() && 0 <= j < rest.len() && i != j implies (#[trigger] rest[i]).slot
            != (#[trigger] rest[j]).slot by {
            assert(rest[i] == peers[i + 1] && rest[j] == peers[j + 1]);
        }
        assert(!slot_among(rest, first)) by {
            if slot_among(rest, first) {
                let i = choose|i: int| 0 <= i < rest.len() && (#[trigger] rest[i]).slot == first;
                assert(peers[i + 1] == rest[i]);
            }
        }
        assert forall|k: int| 0 <= k < taken.len() && taken[k] != first implies slot_among(
            rest,
            #[trigger] taken[k],
        ) by {
            assert(slot_among(peers, taken[k]));
            let i = choose|i: int| 0 <= i < peers.len() && (#[trigger] peers[i]).slot == taken[k];
            assert(rest[i - 1] == peers[i]);
        }
        if taken.contains(first) {
            let t = choose|t: int| 0 <= t < taken.len() && taken[t] == first;
            let fewer = taken.remove(t);
            assert forall|k: int| 0 <= k < fewer.len() implies slot_among(rest, #[trigger] fewer[k]) by {
                let i = if k < t { k } else { k + 1 };
                assert(fewer[k] == taken[i]);
                assert(taken[i] != taken[t]);
            }
            assert(fewer.no_duplicates()) by {
                assert forall|i: int, j: int|
                    0 <= i < fewer.len() && 0 <= j < fewer.len() && i != j implies fewer[i]
                    != fewer[j] by {
                    let a = if i < t { i } else { i + 1 };
                    let b = if j < t { j } else { j + 1 };
                    assert(fewer[i] == taken[a] && fewer[j] == taken[b]);
                }
            }
            lemma_others_without(rest, taken, t);
            lemma_others_count(rest, fewer);
        } else {
            assert forall|k: int| 0 <= k < taken.len() implies slot_among(rest, #[trigger] taken[k]) by {
                assert(taken.contains(taken[k]));
            }
            lemma_others_count(rest, taken);
            let left = others(rest, taken);
            let all = others(peers, taken);
            assert(all == seq![peers[0]] + left);
            assert forall|i: int, j: int|
                0 <= i < all.len() && 0 <= j < all.len() && i != j implies (#[trigger] all[i]).slot
                != (#[trigger] all[j]).slot by {
                if i > 0 && j > 0 {
                    assert(all[i] == left[i - 1] && all[j] == left[j - 1]);
                } else {
                    let k = if i == 0 { j - 1 } else { i - 1 };
                    lemma_others_part(rest, taken, k);
                    let e = choose|e: int| 0 <= e < rest.len() && #[trigger] rest[e] == left[k];
                    assert(rest[e].slot != first);
                }
            }
        }
    }
}

/// Every slot is given as long as there are peers for it: first those for the
/// rate, then those by lot. Nobody gets two, and nobody gets one who is not
/// eligible.
pub proof fn law_every_slot_is_given(
    eligible: Seq<PeerView>,
    rate: spec_fn(PeerView) -> u64,
    cfg: ChokerConfig,
    rotation_counter: u64,
    set: UnchokeSet,
)
    requires
        slots_distinct(eligible),
        cfg.new_peer_weight >= 1,
        chosen(eligible, rate, cfg, rotation_counter, set),
    ensures
        set.regular@.len() == min_int(cfg.regular_slots as int, eligible.len() as int),
        set.optimistic@.len() == min_int(
            cfg.optimistic_slots as int,
            eligible.len() - set.regular@.len(),
        ),
        set.slots().no_duplicates(),
        forall|k: int|
            0 <= k < set.slots().len() ==> slot_among(eligible, #[trigger] set.slots()[k]),
{
    let regular = set.regular@;
    let optimistic = set.optimistic@;
    law_regular_slots_go_to_the_best(eligible, rate, cfg.regular_slots as int, regular);
    lemma_others_count(eligible, regular);
    law_draw_is_full(
        others(eligible, regular),
        cfg.optimistic_slots as nat,
        cfg.new_peer_weight,
        rotation_counter,
    );
    let all = set.slots();
    assert forall|k: int| 0 <= k < all.len() implies slot_among(eligible, #[trigger] all[k]) by {
        law_served_peers_are_eligible(eligible, rate, cfg, rotation_counter, set, k);
    }
    assert forall|i: int, j: int| 0 <= i < j < all.len() implies all[i] != all[j] by {
        law_served_peers_are_eligible(eligible, rate, cfg, rotation_counter, set, j);
        if j < regular.len() {
            assert(regular[i] != regular[j]);
        } else if i < regular.len() {
            assert(regular.contains(regular[i]));
        } else {
            assert(optimistic[i - regular.len()] != optimistic[j - regular.len()]);
        }
    }
}

proof fn lemma_seed_eligible(peers: Seq<PeerView>)
    ensures
        forall|i: int|
            0 <= i < seed::eligible(peers).len() ==> (#[trigger] seed::eligible(
                peers,
            )[i]).is_interested && peers.contains(seed::eligible(peers)[i]),
        slots_distinct(peers) ==> slots_distinct(seed::eligible(peers)),
    decreases peers.len(),
{
    if peers.len() > 0 {
        let rest = peers.skip(1);
        let left = seed::eligible(rest);
        let all = seed::eligible(peers);
        lemma_seed_eligible(rest);
        assert forall|i: int| 0 <= i < all.len() implies (#[trigger] all[i]).is_interested
            && peers.contains(all[i]) by {
            let k = if peers[0].is_interested { i - 1 } else { i };
            if k >= 0 {
                assert(all[i] == left[k]);
                let e = choose|e: int| 0 <= e < rest.len() && rest[e] == left[k];
                assert(peers[e + 1] == all[i]);
            } else {
                assert(peers[0] == all[i]);
            }
        }
        if slots_distinct(peers) {
            lemma_distinct_behind(peers, left, all);
        }
    }
}

proof fn lemma_leech_eligible(peers: Seq<PeerView>, now: u64, anti_snub: u64)
    ensures
        forall|i: int|
            0 <= i < leech::eligible(peers, now, anti_snub).len() ==> leech::is_eligible(
                #[trigger] leech::eligible(peers, now, anti_snub)[i],
                now,
                anti_snub,
            ) && peers.contains(leech::eligible(peers, now, anti_snub)[i]),
        slots_distinct(peers) ==> slots_distinct(leech::eligible(peers, now, anti_snub)),
    decreases peers.len(),
{
    if peers.len() > 0 {
        let rest = peers.skip(1);
        let left = leech::eligible(rest, now, anti_snub);
        let all = leech::eligible(peers, now, anti_snub);
        lemma_leech_eligible(rest, now, anti_snub);
        assert forall|i: int| 0 <= i < all.len() implies leech::is_eligible(
            #[trigger] all[i],
            now,
            anti_snub,
        ) && peers.contains(all[i]) by {
            let k = if leech::is_eligible(peers[0], now, anti_snub) { i - 1 } else { i };
            if k >= 0 {
                assert(all[i] == left[k]);
                let e = choose|e: int| 0 <= e < rest.len() && rest[e] == left[k];
                assert(peers[e + 1] == all[i]);
            } else {
                assert(peers[0] == all[i]);
            }
        }
        if slots_distinct(peers) {
            lemma_distinct_behind(peers, left, all);
        }
    }
}

/// What is taken from behind the first peer, with or without the first in front,
/// holds no slot twice.
proof fn lemma_distinct_behind(peers: Seq<PeerView>, left: Seq<PeerView>, all: Seq<PeerView>)
    requires
        peers.len() > 0,
        slots_distinct(peers),
        slots_distinct(peers.skip(1)) ==> slots_distinct(left),
        forall|i: int| 0 <= i < left.len() ==> peers.skip(1).contains(#[trigger] left[i]),
        all == left || all == seq![peers[0]] + left,
    ensures
        slots_distinct(all),
{
    let rest = peers.skip(1);
    assert forall|i: int, j: int|
        0 <= i < rest.len() && 0 <= j < rest.len() && i != j implies (#[trigger] rest[i]).slot != (
    #[trigger] rest[j]).slot by {
        assert(rest[i] == peers[i + 1] && rest[j] == peers[j + 1]);
    }
    if all != left {
        assert forall|i: int, j: int|
            0 <= i < all.len() && 0 <= j < all.len() && i != j implies (#[trigger] all[i]).slot != (
        #[trigger] all[j]).slot by {
            if i > 0 && j > 0 {
                assert(all[i] == left[i - 1] && all[j] == left[j - 1]);
            } else {
                let k = if i == 0 { j - 1 } else { i - 1 };
                assert(rest.contains(left[k]));
                let e = choose|e: int| 0 <= e < rest.len() && rest[e] == left[k];
                assert(rest[e] == peers[e + 1]);
                assert(peers[e + 1].slot != peers[0].slot);
            }
        }
    }
}

/// A peer that is not eligible has no slot, where only eligible peers have one.
proof fn lemma_not_among(
    peers: Seq<PeerView>,
    eligible: Seq<PeerView>,
    slots: Seq<PeerSlot>,
    j: int,
)
    requires
        slots_distinct(peers),
        0 <= j < peers.len(),
        !eligible.contains(peers[j]),
        forall|i: int| 0 <= i < eligible.len() ==> peers.contains(#[trigger] eligible[i]),
        forall|k: int| 0 <= k < slots.len() ==> slot_among(eligible, #[trigger] slots[k]),
    ensures
        !slots.contains(peers[j].slot),
{
    if slots.contains(peers[j].slot) {
        let k = choose|k: int| 0 <= k < slots.len() && slots[k] == peers[j].slot;
        assert(slot_among(eligible, slots[k]));
        let i = choose|i: int| 0 <= i < eligible.len() && (#[trigger] eligible[i]).slot == slots[k];
        assert(peers.contains(eligible[i]));
        let e = choose|e: int| 0 <= e < peers.len() && peers[e] == eligible[i];
        assert(e == j);
        assert(eligible.contains(peers[j]));
    }
}

/// A seed serves the interested peers who take most, the best first, and draws
/// the rest of its slots among the other interested peers. All slots are given
/// as long as there are interested peers, and nobody gets two.
pub proof fn law_seed_serves_the_interested(
    peers: Seq<PeerView>,
    cfg: ChokerConfig,
    rotation_counter: u64,
    set: UnchokeSet,
)
    requires
        slots_distinct(peers),
        cfg.new_peer_weight >= 1,
        chosen(
            seed::eligible(peers),
            |p: PeerView| p.up_rate_bps,
            cfg,
            rotation_counter,
            set,
        ),
    ensures
        ({
            let interested = seed::eligible(peers);
            let rate = |p: PeerView| p.up_rate_bps;
            &&& slots_distinct(interested)
            &&& forall|i: int|
                0 <= i < interested.len() ==> (#[trigger] interested[i]).is_interested
                    && peers.contains(interested[i])
            &&& set.regular@.len() == min_int(cfg.regular_slots as int, interested.len() as int)
            &&& forall|k: int, a: int, b: int|
                0 <= k < set.regular@.len() && 0 <= a < interested.len() && 0 <= b
                    < interested.len() && a != b && #[trigger] set.regular@[k] == (
                #[trigger] interested[a]).slot && !set.regular@.take(k).contains(
                    (#[trigger] interested[b]).slot,
                ) ==> outranks(interested[a], interested[b], rate)
            &&& set.optimistic@.len() == min_int(
                cfg.optimistic_slots as int,
                interested.len() - set.regular@.len(),
            )
            &&& set.slots().no_duplicates()
            &&& forall|k: int|
                0 <= k < set.slots().len() ==> slot_among(interested, #[trigger] set.slots()[k])
            &&& forall|j: int|
                0 <= j < peers.len() && !(#[trigger] peers[j]).is_interested
                    ==> !set.slots().contains(peers[j].slot)
        }),
{
    let rate = |p: PeerView| p.up_rate_bps;
    lemma_seed_eligible(peers);
    law_regular_slots_go_to_the_best(
        seed::eligible(peers),
        rate,
        cfg.regular_slots as int,
        set.regular@,
    );
    law_every_slot_is_given(seed::eligible(peers), rate, cfg, rotation_counter, set);
    assert forall|j: int| 0 <= j < peers.len() && !(#[trigger] peers[j]).is_interested implies
        !set.slots().contains(peers[j].slot) by {
        lemma_not_among(peers, seed::eligible(peers), set.slots(), j);
    }
}

/// A leech serves the active peers who send most, the best first, and draws the
/// rest of its slots among the other active peers. All slots are given as long
/// as there are active peers, and nobody gets two.
pub proof fn law_leech_serves_the_active(
    peers: Seq<PeerView>,
    now: u64,
    cfg: ChokerConfig,
    rotation_counter: u64,
    set: UnchokeSet,
)
    requires
        slots_distinct(peers),
        cfg.new_peer_weight >= 1,
        chosen(
            leech::eligible(peers, now, cfg.anti_snub),
            |p: PeerView| p.down_rate_bps,
            cfg,
            rotation_counter,
            set,
        ),
    ensures
        ({
            let active = leech::eligible(peers, now, cfg.anti_snub);
            let rate = |p: PeerView| p.down_rate_bps;
            &&& slots_distinct(active)
            &&& forall|i: int|
                0 <= i < active.len() ==> leech::is_eligible(
                    #[trigger] active[i],
                    now,
                    cfg.anti_snub,
                ) && peers.contains(active[i])
            &&& set.regular@.len() == min_int(cfg.regular_slots as int, active.len() as int)
            &&& forall|k: int, a: int, b: int|
                0 <= k < set.regular@.len() && 0 <= a < active.len() && 0 <= b < active.len() && a
                    != b && #[trigger] set.regular@[k] == (#[trigger] active[a]).slot
                    && !set.regular@.take(k).contains((#[trigger] active[b]).slot) ==> outranks(
                    active[a],
                    active[b],
                    rate,
                )
            &&& set.optimistic@.len() == min_int(
                cfg.optimistic_slots as int,
                active.len() - set.regular@.len(),
            )
            &&& set.slots().no_duplicates()
            &&& forall|k: int|
                0 <= k < set.slots().len() ==> slot_among(active, #[trigger] set.slots()[k])
            &&& forall|j: int|
                0 <= j < peers.len() && !leech::is_eligible(
                    #[trigger] peers[j],
                    now,
                    cfg.anti_snub,
                ) ==> !set.slots().contains(peers[j].slot)
        }),
{
    let rate = |p: PeerView| p.down_rate_bps;
    let active = leech::eligible(peers, now, cfg.anti_snub);
    lemma_leech_eligible(peers, now, cfg.anti_snub);
    law_regular_slots_go_to_the_best(active, rate, cfg.regular_slots as int, set.regular@);
    law_every_slot_is_given(active, rate, cfg, rotation_counter, set);
    assert forall|j: int|
        0 <= j < peers.len() && !leech::is_eligible(#[trigger] peers[j], now, cfg.anti_snub) implies
        !set.slots().contains(peers[j].slot) by {
        lemma_not_among(peers, active, set.slots(), j);
    }
}

/// A peer without regard to when it last did something of use.
pub open spec fn timeless(p: PeerView) -> PeerView {
    PeerView { last_activity: 0, ..p }
}

/// The same peers, but for when they last did something of use.
pub open spec fn alike_but_for_time(p: Seq<PeerView>, q: Seq<PeerView>) -> bool {
    &&& p.len() == q.len()
    &&& forall|i: int|
        0 <= i < p.len() ==> timeless(#[trigger] p[i]) == timeless(#[trigger] q[i])
}

proof fn lemma_alike_skip(p: Seq<PeerView>, q: Seq<PeerView>)
    requires
        alike_but_for_time(p, q),
        p.len() > 0,
    ensures
        alike_but_for_time(p.skip(1), q.skip(1)),
        p[0].slot == q[0].slot,
        p[0].is_interested == q[0].is_interested,
        p[0].is_new == q[0].is_new,
{
    let a = p.skip(1);
    let b = q.skip(1);
    assert(timeless(p[0]) == timeless(q[0]));
    assert forall|i: int| 0 <= i < a.len() implies timeless(#[trigger] a[i]) == timeless(#[trigger] b[i]) by {
        assert(a[i] == p[i + 1] && b[i] == q[i + 1]);
    }
}

proof fn lemma_alike_prepend(x: PeerView, p: Seq<PeerView>, y: PeerView, q: Seq<PeerView>)
    requires
        alike_but_for_time(p, q),
        timeless(x) == timeless(y),
    ensures
        alike_but_for_time(seq![x] + p, seq![y] + q),
{
    let a = seq![x] + p;
    let b = seq![y] + q;
    assert forall|i: int| 0 <= i < a.len() implies timeless(#[trigger] a[i]) == timeless(#[trigger] b[i]) by {
        if i > 0 {
            assert(a[i] == p[i - 1] && b[i] == q[i - 1]);
        }
    }
}

proof fn lemma_alike_eligible(p: Seq<PeerView>, q: Seq<PeerView>)
    requires
        alike_but_for_time(p, q),
    ensures
        alike_but_for_time(seed::eligible(p), seed::eligible(q)),
    decreases p.len(),
{
    if p.len() > 0 {
        lemma_alike_skip(p, q);
        lemma_alike_eligible(p.skip(1), q.skip(1));
        lemma_alike_prepend(p[0], seed::eligible(p.skip(1)), q[0], seed::eligible(q.skip(1)));
    }
}

proof fn lemma_alike_others(p: Seq<PeerView>, q: Seq<PeerView>, taken: Seq<PeerSlot>)
    requires
        alike_but_for_time(p, q),
    ensures
        alike_but_for_time(others(p, taken), others(q, taken)),
    decreases p.len(),
{
    if p.len() > 0 {
        lemma_alike_skip(p, q);
        lemma_alike_others(p.skip(1), q.skip(1), taken);
        lemma_alike_prepend(p[0], others(p.skip(1), taken), q[0], others(q.skip(1), taken));
    }
}

proof fn lemma_alike_weight(p: Seq<PeerView>, q: Seq<PeerView>, new_peer_weight: u32)
    requires
        alike_but_for_time(p, q),
    ensures
        total_weight(p, new_peer_weight) == total_weight(q, new_peer_weight),
    decreases p.len(),
{
    if p.len() > 0 {
        lemma_alike_skip(p, q);
        lemma_alike_weight(p.skip(1), q.skip(1), new_peer_weight);
    }
}

proof fn lemma_alike_drawn(p: Seq<PeerView>, q: Seq<PeerView>, new_peer_weight: u32, target: int)
    requires
        alike_but_for_time(p, q),
    ensures
        drawn(p, new_peer_weight, target) == drawn(q, new_peer_weight, target),
    decreases p.len(),
{
    if p.len() > 0 {
        lemma_alike_skip(p, q);
        lemma_alike_drawn(
            p.skip(1),
            q.skip(1),
            new_peer_weight,
            target - weight_of(p[0], new_peer_weight),
        );
    }
}

proof fn lemma_alike_lots(
    p: Seq<PeerView>,
    q: Seq<PeerView>,
    n: nat,
    new_peer_weight: u32,
    counter: u64,
)
    requires
        alike_but_for_time(p, q),
    ensures
        lots(p, n, new_peer_weight, counter) == lots(q, n, new_peer_weight, counter),
    decreases n,
{
    let total = total_weight(p, new_peer_weight);
    lemma_alike_weight(p, q, new_peer_weight);
    if n > 0 && p.len() > 0 && total > 0 {
        let next = next_counter(counter);
        let target = lot_of(next) as int % total;
        lemma_drawn(p, new_peer_weight, target);
        lemma_alike_drawn(p, q, new_peer_weight, target);
        let d = drawn(p, new_peer_weight, target);
        let a = p.remove(d);
        let b = q.remove(d);
        assert(timeless(p[d]) == timeless(q[d]));
        assert forall|i: int| 0 <= i < a.len() implies timeless(#[trigger] a[i]) == timeless(#[trigger] b[i]) by {
            let j = if i < d { i } else { i + 1 };
            assert(a[i] == p[j] && b[i] == q[j]);
        }
        lemma_alike_lots(a, b, (n - 1) as nat, new_peer_weight, next);
    }
}

/// A seed does not look at when peers last did something of use.
pub proof fn law_seed_ignores_activity(
    p: Seq<PeerView>,
    q: Seq<PeerView>,
    cfg: ChokerConfig,
    rotation_counter: u64,
    a: UnchokeSet,
    b: UnchokeSet,
)
    requires
        alike_but_for_time(p, q),
        chosen(seed::eligible(p), |x: PeerView| x.up_rate_bps, cfg, rotation_counter, a),
        chosen(seed::eligible(q), |x: PeerView| x.up_rate_bps, cfg, rotation_counter, b),
    ensures
        a.regular@ == b.regular@,
        a.optimistic@ == b.optimistic@,
{
    let rate = |x: PeerView| x.up_rate_bps;
    let u = seed::eligible(p);
    let v = seed::eligible(q);
    lemma_alike_eligible(p, q);
    assert forall|i: int| 0 <= i < u.len() implies rank_keys(u, rate)[i] == rank_keys(
        v,
        rate,
    )[i] by {
        assert(timeless(u[i]) == timeless(v[i]));
    }
    assert(rank_keys(u, rate) =~= rank_keys(v, rate));
    lemma_alike_others(u, v, a.regular@);
    lemma_alike_lots(
        others(u, a.regular@),
        others(v, a.regular@),
        cfg.optimistic_slots as nat,
        cfg.new_peer_weight,
        rotation_counter,
    );
    assert(chosen(v, rate, cfg, rotation_counter, a));
    law_choice_is_determined(v, rate, cfg, rotation_counter, a, b);
}

/// A peer is active while it is new, and for as long after it last did something of
/// use as the settings say.
pub proof fn law_who_is_active(p: PeerView, now: u64, anti_snub: u64)
    ensures
        p.is_new ==> leech::is_eligible(p, now, anti_snub),
        (!p.is_new && now >= p.last_activity) ==> (leech::is_eligible(p, now, anti_snub) <==> now
            - p.last_activity <= anti_snub),
        now < p.last_activity ==> leech::is_eligible(p, now, anti_snub),
        seed::is_eligible(p) <==> p.is_interested,
{
}

/// A new peer is drawn on as many lots as the settings say, any other on one: the
/// lots of a peer are those behind the lots of the peers before it.
pub proof fn law_new_peers_have_more_lots(
    peers: Seq<PeerView>,
    new_peer_weight: u32,
    i: int,
    target: int,
)
    requires
        0 <= i < peers.len(),
        total_weight(peers.take(i), new_peer_weight) <= target < total_weight(
            peers.take(i),
            new_peer_weight,
        ) + (if peers[i].is_new {
            new_peer_weight as int
        } else {
            1
        }),
    ensures
        drawn(peers, new_peer_weight, target) == i,
        total_weight(seq![peers[i]], new_peer_weight) == (if peers[i].is_new {
            new_peer_weight as int
        } else {
            1
        }),
    decreases peers.len(),
{
    let alone = seq![peers[i]];
    assert(alone.skip(1) =~= Seq::<PeerView>::empty());
    assert(total_weight(alone.skip(1), new_peer_weight) == 0);
    if i == 0 {
        assert(peers.take(0) =~= Seq::<PeerView>::empty());
    } else {
        let rest = peers.skip(1);
        assert(peers.take(i).skip(1) =~= rest.take(i - 1));
        assert(peers.take(i)[0] == peers[0]);
        assert(rest[i - 1] == peers[i]);
        crate::session::choker::lemma_total_weight(rest.take(i - 1), new_peer_weight);
        law_new_peers_have_more_lots(
            rest,
            new_peer_weight,
            i - 1,
            target - weight_of(peers[0], new_peer_weight),
        );
    }
}

/// Unless told otherwise, four peers are served for their rate and one by lot, a
/// peer is active for a minute after its last block, and a new one has three lots.
pub proof fn law_usual_choice()
    ensures
        usual_config().regular_slots == 4,
        usual_config().optimistic_slots == 1,
        usual_config().anti_snub == 60 * 1_000_000_000,
        usual_config().new_peer_weight == 3,
{
}

} // verus!
