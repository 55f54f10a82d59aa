//! Which peers are served: the best by rate, and some by lot so that others get
//! a chance.
//!
//! Times are nanoseconds on one monotonic clock.
use crate::arith::{wrapped, wrapped_product, wrapping, wrapping_product};
use crate::ids::PeerSlot;
use crate::order::{lemma_same_items, pair_le, pairs_sorted, sort_pairs};
use vstd::prelude::*;
use vstd::relations::sorted_by;
use vstd::seq_lib::lemma_sorted_unique;

pub mod laws;
pub mod leech;
pub mod seed;

pub use leech::LeechChoker;
pub use seed::SeedChoker;

verus! {

/// Usual number of peers that are served for their rate.
pub const DEFAULT_REGULAR_SLOTS: usize = 4;

/// Usual number of peers that are served by lot.
pub const DEFAULT_OPTIMISTIC_SLOTS: usize = 1;

/// Usual time after which a peer that sent nothing is passed over: one minute.
pub const DEFAULT_ANTI_SNUB: u64 = 60_000_000_000;

/// Usual weight of a new peer in the draw.
pub const DEFAULT_NEW_PEER_WEIGHT: u32 = 3;

/// Usual time between choices by rate: ten seconds.
pub const DEFAULT_REGULAR_ROTATION: u64 = 10_000_000_000;

/// Usual time between draws: half a minute.
pub const DEFAULT_OPTIMISTIC_ROTATION: u64 = 30_000_000_000;

/// How peers are chosen.
#[derive(Debug, Clone, Copy, PartialEq, Eq, Structural)]
pub struct ChokerConfig {
    /// Peers that are served for their rate.
    pub regular_slots: usize,
    /// Peers that are served by lot.
    pub optimistic_slots: usize,
    /// Time after which a peer that sent nothing is passed over.
    pub anti_snub: u64,
    /// Weight of a new peer in the draw.
    pub new_peer_weight: u32,
}

/// The usual choice.
pub open spec fn usual_config() -> ChokerConfig {
    ChokerConfig {
        regular_slots: DEFAULT_REGULAR_SLOTS,
        optimistic_slots: DEFAULT_OPTIMISTIC_SLOTS,
        anti_snub: DEFAULT_ANTI_SNUB,
        new_peer_weight: DEFAULT_NEW_PEER_WEIGHT,
    }
}

impl Default for ChokerConfig {
    fn default() -> (r: Self)
        ensures
            r == usual_config(),
    {
        ChokerConfig {
            regular_slots: DEFAULT_REGULAR_SLOTS,
            optimistic_slots: DEFAULT_OPTIMISTIC_SLOTS,
            anti_snub: DEFAULT_ANTI_SNUB,
            new_peer_weight: DEFAULT_NEW_PEER_WEIGHT,
        }
    }
}

/// A peer as the choice sees it.
#[derive(Debug, Clone, Copy, PartialEq, Eq, Structural)]
pub struct PeerView {
    /// The connection.
    pub slot: PeerSlot,
    /// Bytes per second that it sends us.
    pub down_rate_bps: u64,
    /// Bytes per second that we send it.
    pub up_rate_bps: u64,
    /// It wants what we have.
    pub is_interested: bool,
    /// It came lately.
    pub is_new: bool,
    /// When it last did something of use.
    pub last_activity: u64,
}

/// The peers to serve.
#[derive(Debug, PartialEq, Eq)]
pub struct UnchokeSet {
    /// For their rate, the best first.
    pub regular: Vec<PeerSlot>,
    /// By lot.
    pub optimistic: Vec<PeerSlot>,
}

impl UnchokeSet {
    /// All of them.
    pub open spec fn slots(self) -> Seq<PeerSlot> {
        self.regular@ + self.optimistic@
    }

    /// All of them.
    pub fn all(&self) -> (r: Vec<PeerSlot>)
        ensures
            r@ == self.slots(),
    {
        let mut out: Vec<PeerSlot> = Vec::new();
        let mut i: usize = 0;
        while i < self.regular.len()
            invariant
                i <= self.regular@.len(),
                out@ == self.regular@.take(i as int),
            decreases self.regular@.len() - i,
        {
            out.push(self.regular[i]);
            i = i + 1;
            assert(out@ =~= self.regular@.take(i as int));
        }
        let mut j: usize = 0;
        assert(out@ =~= self.regular@ + self.optimistic@.take(0));
        while j < self.optimistic.len()
            invariant
                j <= self.optimistic@.len(),
                out@ == self.regular@ + self.optimistic@.take(j as int),
            decreases self.optimistic@.len() - j,
        {
            out.push(self.optimistic[j]);
            j = j + 1;
            assert(out@ =~= self.regular@ + self.optimistic@.take(j as int));
        }
        assert(self.optimistic@.take(j as int) =~= self.optimistic@);
        out
    }

    /// The one at place `i`, those for their rate first.
    pub fn iter(&self, i: usize) -> (r: Option<PeerSlot>)
        ensures
            r == (if i < self.slots().len() {
                Some(self.slots()[i as int])
            } else {
                None
            }),
    {
        if i < self.regular.len() {
            Some(self.regular[i])
        } else if i - self.regular.len() < self.optimistic.len() {
            Some(self.optimistic[i - self.regular.len()])
        } else {
            None
        }
    }
}

/// The weight of a peer in the draw.
pub open spec fn weight_of(p: PeerView, new_peer_weight: u32) -> int {
    if p.is_new {
        new_peer_weight as int
    } else {
        1
    }
}

/// The weights of the peers together.
pub open spec fn total_weight(peers: Seq<PeerView>, new_peer_weight: u32) -> int
    decreases peers.len(),
{
    if peers.len() == 0 {
        0
    } else {
        weight_of(peers[0], new_peer_weight) + total_weight(peers.skip(1), new_peer_weight)
    }
}

/// The peer on whom the lot `target` falls when the peers stand side by side,
/// each as wide as its weight.
pub open spec fn drawn(peers: Seq<PeerView>, new_peer_weight: u32, target: int) -> int
    decreases peers.len(),
{
    if peers.len() == 0 || weight_of(peers[0], new_peer_weight) > target {
        0
    } else {
        1 + drawn(peers.skip(1), new_peer_weight, target - weight_of(peers[0], new_peer_weight))
    }
}

/// The next number of the sequence that lots are made from.
pub open spec fn next_counter(counter: u64) -> u64 {
    wrapped(counter, 0x9E37_79B9_7F4A_7C15)
}

/// The lot that a number stands for.
pub open spec fn lot_of(counter: u64) -> u64 {
    let a = wrapped_product(counter ^ (counter >> 30), 0xBF58_476D_1CE4_E5B9);
    let b = wrapped_product(a ^ (a >> 27), 0x94D0_49BB_1331_11EB);
    b ^ (b >> 31)
}

/// The peers that are drawn, one after the other, no peer twice.
pub open spec fn lots(
    peers: Seq<PeerView>,
    n: nat,
    new_peer_weight: u32,
    counter: u64,
) -> Seq<PeerSlot>
    decreases n,
{
    let total = total_weight(peers, new_peer_weight);
    if n == 0 || peers.len() == 0 || total <= 0 {
        Seq::empty()
    } else {
        let next = next_counter(counter);
        let i = drawn(peers, new_peer_weight, lot_of(next) as int % total);
        seq![peers[i].slot] + lots(peers.remove(i), (n - 1) as nat, new_peer_weight, next)
    }
}

/// The weight of a peer in the draw.
fn weight(p: &PeerView, new_peer_weight: u32) -> (r: u64)
    ensures
        r == weight_of(*p, new_peer_weight),
{
    if p.is_new {
        new_peer_weight as u64
    } else {
        1
    }
}

/// The lot that a number stands for.
fn lot(counter: u64) -> (r: u64)
    ensures
        r == lot_of(counter),
{
    let a: u64 = wrapping_product(counter ^ (counter >> 30), 0xBF58_476D_1CE4_E5B9);
    let b: u64 = wrapping_product(a ^ (a >> 27), 0x94D0_49BB_1331_11EB);
    b ^ (b >> 31)
}

/// Weights are not negative.
pub proof fn lemma_total_weight(peers: Seq<PeerView>, new_peer_weight: u32)
    ensures
        total_weight(peers, new_peer_weight) >= 0,
    decreases peers.len(),
{
    if peers.len() > 0 {
        lemma_total_weight(peers.skip(1), new_peer_weight);
    }
}

/// The lot falls on a peer.
proof fn lemma_drawn(peers: Seq<PeerView>, new_peer_weight: u32, target: int)
    requires
        0 <= target < total_weight(peers, new_peer_weight),
    ensures
        0 <= drawn(peers, new_peer_weight, target) < peers.len(),
        weight_of(peers[drawn(peers, new_peer_weight, target)], new_peer_weight) > 0,
    decreases peers.len(),
{
    if peers.len() > 0 && weight_of(peers[0], new_peer_weight) <= target {
        let rest = peers.skip(1);
        let left = target - weight_of(peers[0], new_peer_weight);
        lemma_drawn(rest, new_peer_weight, left);
        assert(rest[drawn(rest, new_peer_weight, left)] == peers[1 + drawn(
            rest,
            new_peer_weight,
            left,
        )]);
    }
}

/// Taking a peer out takes its weight out.
proof fn lemma_total_remove(peers: Seq<PeerView>, new_peer_weight: u32, i: int)
    requires
        0 <= i < peers.len(),
    ensures
        total_weight(peers.remove(i), new_peer_weight) == total_weight(peers, new_peer_weight)
            - weight_of(peers[i], new_peer_weight),
    decreases peers.len(),
{
    let rest = peers.remove(i);
    if i == 0 {
        assert(rest =~= peers.skip(1));
    } else {
        lemma_total_remove(peers.skip(1), new_peer_weight, i - 1);
        assert(rest.skip(1) =~= peers.skip(1).remove(i - 1));
        assert(peers.skip(1)[i - 1] == peers[i]);
    }
}

/// The weights of the peers together.
fn weigh(peers: &Vec<PeerView>, new_peer_weight: u32) -> (r: u64)
    requires
        total_weight(peers@, new_peer_weight) <= u64::MAX,
    ensures
        r == total_weight(peers@, new_peer_weight),
{
    let mut sum: u64 = 0;
    let mut i: usize = 0;
    assert(peers@.skip(0) =~= peers@);
    while i < peers.len()
        invariant
            i <= peers@.len(),
            total_weight(peers@, new_peer_weight) <= u64::MAX,
            sum + total_weight(peers@.skip(i as int), new_peer_weight) == total_weight(
                peers@,
                new_peer_weight,
            ),
        decreases peers@.len() - i,
    {
        proof {
            assert(peers@.skip(i as int).skip(1) =~= peers@.skip(i + 1));
            lemma_total_weight(peers@.skip(i + 1), new_peer_weight);
        }
        sum = sum + weight(&peers[i], new_peer_weight);
        i = i + 1;
    }
    sum
}

/// The peer on whom the lot falls.
fn draw(peers: &Vec<PeerView>, new_peer_weight: u32, target: u64) -> (r: usize)
    requires
        target < total_weight(peers@, new_peer_weight),
    ensures
        r == drawn(peers@, new_peer_weight, target as int),
        r < peers@.len(),
{
    proof {
        lemma_drawn(peers@, new_peer_weight, target as int);
    }
    let mut left: u64 = target;
    let mut i: usize = 0;
    assert(peers@.skip(0) =~= peers@);
    while i < peers.len() && weight(&peers[i], new_peer_weight) <= left
        invariant
            i <= peers@.len(),
            drawn(peers@, new_peer_weight, target as int) < peers@.len(),
            i + drawn(peers@.skip(i as int), new_peer_weight, left as int) == drawn(
                peers@,
                new_peer_weight,
                target as int,
            ),
        decreases peers@.len() - i,
    {
        assert(peers@.skip(i as int).skip(1) =~= peers@.skip(i + 1));
        left = left - weight(&peers[i], new_peer_weight);
        i = i + 1;
    }
    i
}

/// Draws `n` peers by lot. The lots depend on the counter alone.
pub fn pick_optimistic(
    eligible: &[PeerView],
    n: usize,
    new_peer_weight: u32,
    rotation_counter: u64,
) -> (r: Vec<PeerSlot>)
    requires
        total_weight(eligible@, new_peer_weight) <= u64::MAX,
    ensures
        r@ == lots(eligible@, n as nat, new_peer_weight, rotation_counter),
{
    let mut picks: Vec<PeerSlot> = Vec::new();
    let mut remaining: Vec<PeerView> = Vec::new();
    let mut k: usize = 0;
    while k < eligible.len()
        invariant
            k <= eligible@.len(),
            remaining@ == eligible@.take(k as int),
        decreases eligible@.len() - k,
    {
        remaining.push(eligible[k]);
        k = k + 1;
        assert(remaining@ =~= eligible@.take(k as int));
    }
    assert(remaining@ =~= eligible@);
    let mut counter: u64 = rotation_counter;
    let mut left: usize = n;
    let mut open: bool = true;
    let ghost want = lots(eligible@, n as nat, new_peer_weight, rotation_counter);
    assert(picks@ + want =~= want);
    while open && left > 0 && remaining.len() > 0
        invariant
            total_weight(remaining@, new_peer_weight) <= u64::MAX,
            want == lots(eligible@, n as nat, new_peer_weight, rotation_counter),
            picks@ + lots(remaining@, left as nat, new_peer_weight, counter) == want,
            !open ==> picks@ == want,
        decreases left + (if open {
            1int
        } else {
            0
        }),
    {
        let total: u64 = weigh(&remaining, new_peer_weight);
        let ghost now = lots(remaining@, left as nat, new_peer_weight, counter);
        if total == 0 {
            assert(now =~= Seq::<PeerSlot>::empty());
            assert(picks@ + now =~= picks@);
            open = false;
        } else {
            let next: u64 = wrapping(counter, 0x9E37_79B9_7F4A_7C15);
            let target: u64 = lot(next) % total;
            let chosen: usize = draw(&remaining, new_peer_weight, target);
            proof {
                lemma_total_remove(remaining@, new_peer_weight, chosen as int);
            }
            let ghost before = picks@;
            let ghost pool = remaining@;
            let peer = remaining.remove(chosen);
            picks.push(peer.slot);
            assert(now == seq![peer.slot] + lots(
                remaining@,
                (left - 1) as nat,
                new_peer_weight,
                next,
            ));
            assert(picks@ + lots(remaining@, (left - 1) as nat, new_peer_weight, next) =~= before
                + now);
            counter = next;
            left = left - 1;
        }
    }
    if open {
        assert(lots(remaining@, left as nat, new_peer_weight, counter) =~= Seq::<
            PeerSlot,
        >::empty());
        assert(picks@ =~= want);
    }
    picks
}

/// Choosing by rate, the peers as pairs: the greater the rate the smaller the
/// first number, so that the best come first and, among equals, the one with the
/// smaller slot.
pub open spec fn rank_keys(peers: Seq<PeerView>, rate: spec_fn(PeerView) -> u64) -> Seq<(u64, u64)> {
    Seq::new(peers.len(), |i: int| ((u64::MAX - rate(peers[i])) as u64, peers[i].slot.0))
}

/// `regular` are the slots of the best `n` of `peers`, the best first.
pub open spec fn best_by_rate(
    peers: Seq<PeerView>,
    rate: spec_fn(PeerView) -> u64,
    n: int,
    regular: Seq<PeerSlot>,
) -> bool {
    exists|ranked: Seq<(u64, u64)>| #[trigger]
        pairs_sorted(ranked) && ranked.to_multiset() == rank_keys(peers, rate).to_multiset()
            && regular.len() == (if n < ranked.len() {
            n
        } else {
            ranked.len() as int
        }) && forall|i: int| 0 <= i < regular.len() ==> (#[trigger] regular[i]).0 == ranked[i].1
}

/// The peers whose slots are not among `taken`.
pub open spec fn others(peers: Seq<PeerView>, taken: Seq<PeerSlot>) -> Seq<PeerView>
    decreases peers.len(),
{
    if peers.len() == 0 {
        peers
    } else if taken.contains(peers[0].slot) {
        others(peers.skip(1), taken)
    } else {
        seq![peers[0]] + others(peers.skip(1), taken)
    }
}

/// A part of the peers weighs no more than all of them.
pub proof fn lemma_others_weight(peers: Seq<PeerView>, taken: Seq<PeerSlot>, new_peer_weight: u32)
    ensures
        total_weight(others(peers, taken), new_peer_weight) <= total_weight(
            peers,
            new_peer_weight,
        ),
    decreases peers.len(),
{
    if peers.len() > 0 {
        let rest = others(peers.skip(1), taken);
        lemma_others_weight(peers.skip(1), taken, new_peer_weight);
        if !taken.contains(peers[0].slot) {
            assert((seq![peers[0]] + rest).skip(1) =~= rest);
        }
    }
}

/// The slots of the best `n` of the peers with these keys, the best first.
fn take_best(keys: Vec<(u64, u64)>, n: usize) -> (r: Vec<PeerSlot>)
    ensures
        exists|ranked: Seq<(u64, u64)>| #[trigger]
            pairs_sorted(ranked) && ranked.to_multiset() == keys@.to_multiset() && r@.len() == (if n
                < ranked.len() {
                n as int
            } else {
                ranked.len() as int
            }) && forall|i: int| 0 <= i < r@.len() ==> (#[trigger] r@[i]).0 == ranked[i].1,
{
    let ranked = sort_pairs(keys);
    let mut out: Vec<PeerSlot> = Vec::new();
    let mut i: usize = 0;
    while i < n && i < ranked.len()
        invariant
            i <= ranked@.len(),
            i <= n,
            out@.len() == i,
            forall|j: int| 0 <= j < i ==> (#[trigger] out@[j]).0 == ranked@[j].1,
        decreases ranked@.len() - i,
    {
        out.push(PeerSlot(ranked[i].1));
        i = i + 1;
    }
    assert(pairs_sorted(ranked@));
    out
}

/// Whether a slot stands in the list.
fn has_slot(s: &Vec<PeerSlot>, slot: PeerSlot) -> (r: bool)
    ensures
        r == s@.contains(slot),
{
    let mut i: usize = 0;
    while i < s.len()
        invariant
            i <= s@.len(),
            forall|j: int| 0 <= j < i ==> s@[j] != slot,
        decreases s@.len() - i,
    {
        if s[i] == slot {
            assert(s@[i as int] == slot);
            return true;
        }
        i = i + 1;
    }
    false
}

/// The peers whose slots are not among `taken`.
fn leave_out(peers: &Vec<PeerView>, taken: &Vec<PeerSlot>) -> (r: Vec<PeerView>)
    ensures
        r@ == others(peers@, taken@),
{
    let mut out: Vec<PeerView> = Vec::new();
    let mut i: usize = 0;
    assert(peers@.skip(0) =~= peers@);
    assert(out@ + others(peers@, taken@) =~= others(peers@, taken@));
    while i < peers.len()
        invariant
            i <= peers@.len(),
            out@ + others(peers@.skip(i as int), taken@) == others(peers@, taken@),
        decreases peers@.len() - i,
    {
        let ghost before = out@;
        let ghost rest = peers@.skip(i as int);
        assert(rest.skip(1) =~= peers@.skip(i + 1));
        if !has_slot(taken, peers[i].slot) {
            out.push(peers[i]);
        }
        assert(out@ + others(peers@.skip(i + 1), taken@) =~= before + others(rest, taken@));
        i = i + 1;
    }
    assert(out@ + others(peers@.skip(i as int), taken@) =~= out@);
    out
}

/// What a choice among the eligible peers gives: the best by rate, and some of
/// the others by lot.
pub open spec fn chosen(
    eligible: Seq<PeerView>,
    rate: spec_fn(PeerView) -> u64,
    cfg: ChokerConfig,
    rotation_counter: u64,
    set: UnchokeSet,
) -> bool {
    &&& best_by_rate(eligible, rate, cfg.regular_slots as int, set.regular@)
    &&& set.optimistic@ == lots(
        others(eligible, set.regular@),
        cfg.optimistic_slots as nat,
        cfg.new_peer_weight,
        rotation_counter,
    )
}

/// Chooses among the eligible peers, whose keys by rate are given.
fn choose_peers(
    eligible: &Vec<PeerView>,
    keys: Vec<(u64, u64)>,
    cfg: &ChokerConfig,
    rotation_counter: u64,
    Ghost(rate): Ghost<spec_fn(PeerView) -> u64>,
) -> (r: UnchokeSet)
    requires
        keys@ == rank_keys(eligible@, rate),
        total_weight(eligible@, cfg.new_peer_weight) <= u64::MAX,
    ensures
        chosen(eligible@, rate, *cfg, rotation_counter, r),
{
    let regular = take_best(keys, cfg.regular_slots);
    let rest = leave_out(eligible, &regular);
    proof {
        lemma_others_weight(eligible@, regular@, cfg.new_peer_weight);
    }
    let optimistic = pick_optimistic(
        rest.as_slice(),
        cfg.optimistic_slots,
        cfg.new_peer_weight,
        rotation_counter,
    );
    UnchokeSet { regular, optimistic }
}

/// Chooses the peers to serve.
pub trait Unchoker {
    /// How peers are chosen.
    spec fn settings(&self) -> ChokerConfig;

    /// The peers to serve. The counter should grow from call to call; the draw
    /// depends on it and on the peers alone.
    fn select(&self, peers: &[PeerView], now: u64, rotation_counter: u64) -> (r: UnchokeSet)
        requires
            total_weight(peers@, self.settings().new_peer_weight) <= u64::MAX,
    ;

    /// How peers are chosen.
    fn config(&self) -> (r: &ChokerConfig)
        ensures
            *r == self.settings(),
    ;
}

/// No more peers are served than there are slots for.
pub proof fn law_slots_are_bounded(
    eligible: Seq<PeerView>,
    rate: spec_fn(PeerView) -> u64,
    cfg: ChokerConfig,
    rotation_counter: u64,
    set: UnchokeSet,
)
    requires
        chosen(eligible, rate, cfg, rotation_counter, set),
    ensures
        set.regular@.len() <= cfg.regular_slots,
        set.optimistic@.len() <= cfg.optimistic_slots,
{
    lemma_lots_bounded(
        others(eligible, set.regular@),
        cfg.optimistic_slots as nat,
        cfg.new_peer_weight,
        rotation_counter,
    );
}

proof fn lemma_lots_bounded(peers: Seq<PeerView>, n: nat, new_peer_weight: u32, counter: u64)
    ensures
        lots(peers, n, new_peer_weight, counter).len() <= n,
        lots(peers, n, new_peer_weight, counter).len() <= peers.len(),
    decreases n,
{
    let total = total_weight(peers, new_peer_weight);
    if n > 0 && peers.len() > 0 && total > 0 {
        let next = next_counter(counter);
        let target = lot_of(next) as int % total;
        lemma_drawn(peers, new_peer_weight, target);
        lemma_lots_bounded(
            peers.remove(drawn(peers, new_peer_weight, target)),
            (n - 1) as nat,
            new_peer_weight,
            next,
        );
    }
}

/// Every peer that is drawn is one of those that the draw is among.
proof fn lemma_lots_among(
    peers: Seq<PeerView>,
    n: nat,
    new_peer_weight: u32,
    counter: u64,
    k: int,
)
    requires
        0 <= k < lots(peers, n, new_peer_weight, counter).len(),
    ensures
        exists|i: int|
            0 <= i < peers.len() && (#[trigger] peers[i]).slot == lots(
                peers,
                n,
                new_peer_weight,
                counter,
            )[k],
    decreases n,
{
    let total = total_weight(peers, new_peer_weight);
    let next = next_counter(counter);
    let target = lot_of(next) as int % total;
    lemma_drawn(peers, new_peer_weight, target);
    let d = drawn(peers, new_peer_weight, target);
    if k == 0 {
        assert(peers[d].slot == lots(peers, n, new_peer_weight, counter)[0]);
    } else {
        let rest = peers.remove(d);
        lemma_lots_among(rest, (n - 1) as nat, new_peer_weight, next, k - 1);
        let got = lots(rest, (n - 1) as nat, new_peer_weight, next)[k - 1];
        let i = choose|i: int| 0 <= i < rest.len() && (#[trigger] rest[i]).slot == got;
        let j = if i < d {
            i
        } else {
            i + 1
        };
        assert(peers[j] == rest[i]);
    }
}

proof fn lemma_others_part(peers: Seq<PeerView>, taken: Seq<PeerSlot>, i: int)
    requires
        0 <= i < others(peers, taken).len(),
    ensures
        !taken.contains(others(peers, taken)[i].slot),
        exists|j: int| 0 <= j < peers.len() && #[trigger] peers[j] == others(peers, taken)[i],
    decreases peers.len(),
{
    let rest = peers.skip(1);
    if taken.contains(peers[0].slot) {
        lemma_others_part(rest, taken, i);
        let j = choose|j: int| 0 <= j < rest.len() && #[trigger] rest[j] == others(rest, taken)[i];
        assert(peers[j + 1] == rest[j]);
    } else if i > 0 {
        lemma_others_part(rest, taken, i - 1);
        let j = choose|j: int|
            0 <= j < rest.len() && #[trigger] rest[j] == others(rest, taken)[i - 1];
        assert(peers[j + 1] == rest[j]);
    } else {
        assert(peers[0] == others(peers, taken)[0]);
    }
}

/// Every peer that is served is eligible, and none that is served for its rate is
/// drawn by lot too.
pub proof fn law_served_peers_are_eligible(
    eligible: Seq<PeerView>,
    rate: spec_fn(PeerView) -> u64,
    cfg: ChokerConfig,
    rotation_counter: u64,
    set: UnchokeSet,
    k: int,
)
    requires
        chosen(eligible, rate, cfg, rotation_counter, set),
        0 <= k < set.slots().len(),
    ensures
        exists|i: int| 0 <= i < eligible.len() && (#[trigger] eligible[i]).slot == set.slots()[k],
        k >= set.regular@.len() ==> !set.regular@.contains(set.slots()[k]),
{
    let regular = set.regular@;
    if k < regular.len() {
        let keys = rank_keys(eligible, rate);
        let ranked = choose|ranked: Seq<(u64, u64)>| #[trigger]
            pairs_sorted(ranked) && ranked.to_multiset() == keys.to_multiset() && regular.len()
                == (if cfg.regular_slots < ranked.len() {
                cfg.regular_slots as int
            } else {
                ranked.len() as int
            }) && forall|i: int|
                0 <= i < regular.len() ==> (#[trigger] regular[i]).0 == ranked[i].1;
        assert(ranked.contains(ranked[k]));
        lemma_same_items(ranked, keys, ranked[k]);
        let i = choose|i: int| 0 <= i < keys.len() && keys[i] == ranked[k];
        assert(eligible[i].slot.0 == regular[k].0);
        assert(eligible[i].slot == set.slots()[k]);
    } else {
        let rest = others(eligible, regular);
        let j = k - regular.len();
        lemma_lots_among(
            rest,
            cfg.optimistic_slots as nat,
            cfg.new_peer_weight,
            rotation_counter,
            j,
        );
        let i = choose|i: int|
            0 <= i < rest.len() && (#[trigger] rest[i]).slot == set.optimistic@[j];
        lemma_others_part(eligible, regular, i);
        let e = choose|e: int| 0 <= e < eligible.len() && #[trigger] eligible[e] == rest[i];
        assert(eligible[e].slot == set.slots()[k]);
    }
}

/// Nobody who is passed over for the regular slots has a better rate than
/// somebody who got one.
pub proof fn law_best_rates_are_served(
    eligible: Seq<PeerView>,
    rate: spec_fn(PeerView) -> u64,
    n: int,
    regular: Seq<PeerSlot>,
    passed: int,
)
    requires
        0 <= n,
        best_by_rate(eligible, rate, n, regular),
        0 <= passed < eligible.len(),
        !regular.contains(eligible[passed].slot),
    ensures
        regular.len() == n,
        forall|k: int|
            0 <= k < regular.len() ==> exists|i: int|
                0 <= i < eligible.len() && (#[trigger] eligible[i]).slot == (#[trigger] regular[k])
                    && rate(eligible[i]) >= rate(eligible[passed]),
{
    let keys = rank_keys(eligible, rate);
    let ranked = choose|ranked: Seq<(u64, u64)>| #[trigger]
        pairs_sorted(ranked) && ranked.to_multiset() == keys.to_multiset() && regular.len() == (if n
            < ranked.len() {
            n
        } else {
            ranked.len() as int
        }) && forall|i: int| 0 <= i < regular.len() ==> (#[trigger] regular[i]).0 == ranked[i].1;
    assert(keys.contains(keys[passed]));
    lemma_same_items(ranked, keys, keys[passed]);
    let p = choose|p: int| 0 <= p < ranked.len() && ranked[p] == keys[passed];
    if p < regular.len() {
        assert(regular[p].0 == eligible[passed].slot.0);
        assert(regular[p] == eligible[passed].slot);
        assert(false);
    }
    assert forall|k: int| 0 <= k < regular.len() implies exists|i: int|
        0 <= i < eligible.len() && (#[trigger] eligible[i]).slot == (#[trigger] regular[k]) && rate(
            eligible[i],
        ) >= rate(eligible[passed]) by {
        assert(ranked.contains(ranked[k]));
        lemma_same_items(ranked, keys, ranked[k]);
        let i = choose|i: int| 0 <= i < keys.len() && keys[i] == ranked[k];
        assert(pair_le(ranked[k], ranked[p]));
        assert(eligible[i].slot.0 == regular[k].0);
        assert(eligible[i].slot == regular[k]);
    }
}

/// The peers and the counter decide the choice.
pub proof fn law_choice_is_determined(
    eligible: Seq<PeerView>,
    rate: spec_fn(PeerView) -> u64,
    cfg: ChokerConfig,
    rotation_counter: u64,
    a: UnchokeSet,
    b: UnchokeSet,
)
    requires
        chosen(eligible, rate, cfg, rotation_counter, a),
        chosen(eligible, rate, cfg, rotation_counter, b),
    ensures
        a.regular@ == b.regular@,
        a.optimistic@ == b.optimistic@,
{
    let n = cfg.regular_slots as int;
    let keys = rank_keys(eligible, rate);
    let x = choose|ranked: Seq<(u64, u64)>| #[trigger]
        pairs_sorted(ranked) && ranked.to_multiset() == keys.to_multiset() && a.regular@.len()
            == (if n < ranked.len() {
            n
        } else {
            ranked.len() as int
        }) && forall|i: int|
            0 <= i < a.regular@.len() ==> (#[trigger] a.regular@[i]).0 == ranked[i].1;
    let y = choose|ranked: Seq<(u64, u64)>| #[trigger]
        pairs_sorted(ranked) && ranked.to_multiset() == keys.to_multiset() && b.regular@.len()
            == (if n < ranked.len() {
            n
        } else {
            ranked.len() as int
        }) && forall|i: int|
            0 <= i < b.regular@.len() ==> (#[trigger] b.regular@[i]).0 == ranked[i].1;
    let leq = |p: (u64, u64), q: (u64, u64)| pair_le(p, q);
    assert(sorted_by(x, leq));
    assert(sorted_by(y, leq));
    lemma_sorted_unique(x, y, leq);
    assert forall|i: int| 0 <= i < a.regular@.len() implies a.regular@[i] == b.regular@[i] by {
        assert(a.regular@[i].0 == x[i].1);
        assert(b.regular@[i].0 == y[i].1);
    }
    assert(a.regular@ =~= b.regular@);
}

} // verus!
