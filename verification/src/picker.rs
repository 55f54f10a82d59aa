//! Piece picker: rarest first, with an endgame.
//!
//! For each piece the picker knows whether it is here already and how many
//! peers advertise it. It yields missing pieces that the fewest peers have;
//! once few enough are missing it yields any missing piece.
use crate::order::{lemma_same_distinct, lemma_same_items, pair_le, sort_pairs};
use vstd::prelude::*;

verus! {

/// Endgame threshold that a new picker has, as numerator and denominator: a
/// twentieth of the pieces.
pub const DEFAULT_ENDGAME_THRESHOLD: (u64, u64) = (5, 100);

/// Piece picker state.
#[derive(Debug)]
pub struct Picker {
    availability: Vec<u32>,
    have: Vec<bool>,
    endgame_threshold: (u64, u64),
    missing: u32,
}

/// What a picker holds.
#[verifier::ext_equal]
pub struct PickerModel {
    /// For each piece, how many known peers advertise it.
    pub availability: Seq<u32>,
    /// For each piece, whether it is here.
    pub have: Seq<bool>,
    /// The fraction of missing pieces at or below which endgame holds, as
    /// numerator and denominator.
    pub threshold: (u64, u64),
}

/// The number of pieces not here.
pub open spec fn count_missing(have: Seq<bool>) -> nat
    decreases have.len(),
{
    if have.len() == 0 {
        0
    } else {
        count_missing(have.drop_last()) + if have.last() {
            0nat
        } else {
            1nat
        }
    }
}

pub proof fn lemma_count_missing_bounds(have: Seq<bool>)
    ensures
        count_missing(have) <= have.len(),
        count_missing(have) == 0 <==> (forall|i: int| 0 <= i < have.len() ==> #[trigger] have[i]),
        count_missing(have) == have.len() <==> (forall|i: int|
            0 <= i < have.len() ==> !#[trigger] have[i]),
    decreases have.len(),
{
    if have.len() > 0 {
        let front = have.drop_last();
        lemma_count_missing_bounds(front);
        if count_missing(have) == 0 {
            assert forall|i: int| 0 <= i < have.len() implies #[trigger] have[i] by {
                if i < have.len() - 1 {
                    assert(front[i]);
                }
            }
        }
        if forall|i: int| 0 <= i < have.len() ==> #[trigger] have[i] {
            assert forall|i: int| 0 <= i < front.len() implies #[trigger] front[i] by {
                assert(have[i]);
            }
            assert(have[have.len() - 1]);
        }
        if count_missing(have) == have.len() {
            assert forall|i: int| 0 <= i < have.len() implies !#[trigger] have[i] by {
                if i < have.len() - 1 {
                    assert(!front[i]);
                }
            }
        }
        if forall|i: int| 0 <= i < have.len() ==> !#[trigger] have[i] {
            assert forall|i: int| 0 <= i < front.len() implies !#[trigger] front[i] by {
                assert(!have[i]);
            }
            assert(!have[have.len() - 1]);
        }
    }
}

proof fn lemma_count_missing_mark(have: Seq<bool>, i: int)
    requires
        0 <= i < have.len(),
        !have[i],
    ensures
        count_missing(have.update(i, true)) == count_missing(have) - 1,
    decreases have.len(),
{
    let after = have.update(i, true);
    if i == have.len() - 1 {
        assert(after.drop_last() =~= have.drop_last());
    } else {
        assert(after.drop_last() =~= have.drop_last().update(i, true));
        lemma_count_missing_mark(have.drop_last(), i);
    }
}

/// `counts` raised by one, without going over the top, wherever `bits` is set.
pub open spec fn raised(counts: Seq<u32>, bits: Seq<bool>) -> Seq<u32> {
    Seq::new(
        counts.len(),
        |i: int|
            if bits[i] && counts[i] < u32::MAX {
                (counts[i] + 1) as u32
            } else {
                counts[i]
            },
    )
}

/// `counts` lowered by one, without going below zero, wherever `bits` is set.
pub open spec fn lowered(counts: Seq<u32>, bits: Seq<bool>) -> Seq<u32> {
    Seq::new(
        counts.len(),
        |i: int|
            if bits[i] && counts[i] > 0 {
                (counts[i] - 1) as u32
            } else {
                counts[i]
            },
    )
}

impl PickerModel {
    /// A picker for `n` pieces, none here and none advertised.
    pub open spec fn fresh(n: u32) -> PickerModel {
        PickerModel {
            availability: Seq::new(n as nat, |i: int| 0u32),
            have: Seq::new(n as nat, |i: int| false),
            threshold: DEFAULT_ENDGAME_THRESHOLD,
        }
    }

    /// The model is that of a picker.
    pub open spec fn wf(self) -> bool {
        0 < self.have.len() <= u32::MAX && self.availability.len() == self.have.len()
    }

    /// Some pieces are missing, and they are no larger a part of all pieces than
    /// the threshold.
    pub open spec fn endgame(self) -> bool {
        let missing: nat = count_missing(self.have);
        missing > 0 && missing * self.threshold.1 <= self.threshold.0 * self.have.len()
    }

    /// Piece `i` may be picked: it is missing and, outside endgame, somebody
    /// has it.
    pub open spec fn candidate(self, i: int) -> bool {
        &&& 0 <= i < self.have.len()
        &&& !self.have[i]
        &&& self.endgame() || self.availability[i] > 0
    }

    /// Piece `i` is picked before piece `j`: rarer, or as rare and lower.
    /// Endgame looks at the index alone.
    pub open spec fn before(self, i: int, j: int) -> bool {
        if self.endgame() || self.availability[i] == self.availability[j] {
            i < j
        } else {
            self.availability[i] < self.availability[j]
        }
    }

    /// With piece `i` here.
    pub open spec fn marked(self, i: int) -> PickerModel {
        PickerModel { have: self.have.update(i, true), ..self }
    }

    /// With one more peer that has `bits`.
    pub open spec fn observed(self, bits: Seq<bool>) -> PickerModel {
        PickerModel { availability: raised(self.availability, bits), ..self }
    }

    /// With one peer less that has `bits`.
    pub open spec fn forgotten(self, bits: Seq<bool>) -> PickerModel {
        PickerModel { availability: lowered(self.availability, bits), ..self }
    }
}

/// A vector of `n` unset flags.
pub fn no_pieces(n: usize) -> (r: Vec<bool>)
    ensures
        r@ == Seq::new(n as nat, |i: int| false),
{
    let r: Vec<bool> = vec![false; n];
    assert(r@ =~= Seq::new(n as nat, |i: int| false));
    r
}

/// A vector of `n` set flags.
pub fn all_pieces(n: usize) -> (r: Vec<bool>)
    ensures
        r@ == Seq::new(n as nat, |i: int| true),
{
    let r: Vec<bool> = vec![true; n];
    assert(r@ =~= Seq::new(n as nat, |i: int| true));
    r
}

impl View for Picker {
    type V = PickerModel;

    closed spec fn view(&self) -> PickerModel {
        PickerModel {
            availability: self.availability@,
            have: self.have@,
            threshold: self.endgame_threshold,
        }
    }
}

impl Clone for Picker {
    fn clone(&self) -> (r: Self)
        ensures
            r@ == self@,
            self.wf() ==> r.wf(),
    {
        let availability = self.availability.clone();
        let have = self.have.clone();
        assert(availability@ =~= self.availability@);
        assert(have@ =~= self.have@);
        Picker {
            availability,
            have,
            endgame_threshold: self.endgame_threshold,
            missing: self.missing,
        }
    }
}

impl Picker {
    /// The counters agree with the pieces.
    pub closed spec fn wf(&self) -> bool {
        self@.wf() && self.missing == count_missing(self.have@)
    }

    /// What every well-formed picker satisfies.
    pub proof fn lemma_wf(&self)
        requires
            self.wf(),
        ensures
            self@.wf(),
    {
    }

    /// A picker for `piece_count` pieces: all missing, none advertised.
    pub fn new(piece_count: u32) -> (r: Picker)
        requires
            piece_count > 0,
        ensures
            r.wf(),
            r@ == PickerModel::fresh(piece_count),
    {
        let availability: Vec<u32> = vec![0u32; piece_count as usize];
        let have = no_pieces(piece_count as usize);
        proof {
            lemma_count_missing_bounds(have@);
        }
        let r = Picker {
            availability,
            have,
            endgame_threshold: DEFAULT_ENDGAME_THRESHOLD,
            missing: piece_count,
        };
        assert(r@ =~= PickerModel::fresh(piece_count));
        r
    }

    /// The same picker with the endgame threshold `numerator / denominator`.
    pub fn with_endgame_threshold(self, numerator: u64, denominator: u64) -> (r: Picker)
        requires
            self.wf(),
        ensures
            r.wf(),
            r@ == (PickerModel { threshold: (numerator, denominator), ..self@ }),
    {
        Picker { endgame_threshold: (numerator, denominator), ..self }
    }

    /// The number of pieces.
    pub fn piece_count(&self) -> (r: u32)
        requires
            self.wf(),
        ensures
            r == self@.have.len(),
    {
        self.have.len() as u32
    }

    /// The number of pieces not here yet.
    pub fn missing_count(&self) -> (r: u32)
        requires
            self.wf(),
        ensures
            r == count_missing(self@.have),
    {
        self.missing
    }

    /// Whether piece `index` is here.
    pub fn has_piece(&self, index: u32) -> (r: bool)
        requires
            index < self@.have.len(),
        ensures
            r == self@.have[index as int],
    {
        self.have[index as usize]
    }

    /// How many known peers advertise piece `index`.
    pub fn availability(&self, index: u32) -> (r: u32)
        requires
            index < self@.availability.len(),
        ensures
            r == self@.availability[index as int],
    {
        self.availability[index as usize]
    }

    /// For each piece, whether it is here.
    pub fn have_snapshot(&self) -> (r: Vec<bool>)
        ensures
            r@ == self@.have,
    {
        let r = self.have.clone();
        assert(r@ =~= self.have@);
        r
    }

    /// Records that piece `index` is here now. A second time changes nothing.
    pub fn mark_have(&mut self, index: u32)
        requires
            old(self).wf(),
            index < old(self)@.have.len(),
        ensures
            final(self).wf(),
            final(self)@ == old(self)@.marked(index as int),
    {
        let i: usize = index as usize;
        if !self.have[i] {
            proof {
                lemma_count_missing_mark(self.have@, i as int);
            }
            self.have.set(i, true);
            self.missing = self.missing - 1;
        }
        assert(self@ =~= old(self)@.marked(index as int));
    }

    /// Records that one more peer advertises `bits`, one flag per piece. A
    /// counter that is full stays full.
    pub fn observe_peer_bitfield(&mut self, bits: &[bool])
        requires
            old(self).wf(),
            bits@.len() == old(self)@.have.len(),
        ensures
            final(self).wf(),
            final(self)@ == old(self)@.observed(bits@),
    {
        let ghost before = self.availability@;
        let ghost goal = raised(before, bits@);
        let mut i: usize = 0;
        while i < bits.len()
            invariant
                i <= bits@.len(),
                bits@.len() == before.len(),
                self.availability@.len() == before.len(),
                goal == raised(before, bits@),
                self.have == old(self).have,
                self.missing == old(self).missing,
                self.endgame_threshold == old(self).endgame_threshold,
                forall|j: int| 0 <= j < i ==> self.availability@[j] == goal[j],
                forall|j: int| i <= j < before.len() ==> self.availability@[j] == before[j],
            decreases bits@.len() - i,
        {
            if bits[i] {
                let n: u32 = self.availability[i].saturating_add(1);
                self.availability.set(i, n);
            }
            i = i + 1;
        }
        assert(self.availability@ =~= goal);
        assert(self@ =~= old(self)@.observed(bits@));
    }

    /// Records that a peer that advertised `bits` is gone. A counter that is
    /// zero stays zero.
    pub fn forget_peer_bitfield(&mut self, bits: &[bool])
        requires
            old(self).wf(),
            bits@.len() == old(self)@.have.len(),
        ensures
            final(self).wf(),
            final(self)@ == old(self)@.forgotten(bits@),
    {
        let ghost before = self.availability@;
        let ghost goal = lowered(before, bits@);
        let mut i: usize = 0;
        while i < bits.len()
            invariant
                i <= bits@.len(),
                bits@.len() == before.len(),
                self.availability@.len() == before.len(),
                goal == lowered(before, bits@),
                self.have == old(self).have,
                self.missing == old(self).missing,
                self.endgame_threshold == old(self).endgame_threshold,
                forall|j: int| 0 <= j < i ==> self.availability@[j] == goal[j],
                forall|j: int| i <= j < before.len() ==> self.availability@[j] == before[j],
            decreases bits@.len() - i,
        {
            if bits[i] {
                let n: u32 = self.availability[i].saturating_sub(1);
                self.availability.set(i, n);
            }
            i = i + 1;
        }
        assert(self.availability@ =~= goal);
        assert(self@ =~= old(self)@.forgotten(bits@));
    }

    /// Whether so few pieces are missing that rarity no longer matters.
    pub fn in_endgame(&self) -> (r: bool)
        requires
            self.wf(),
        ensures
            r == self@.endgame(),
    {
        let total: u128 = self.have.len() as u128;
        let missing: u128 = self.missing as u128;
        let num: u128 = self.endgame_threshold.0 as u128;
        let den: u128 = self.endgame_threshold.1 as u128;
        assert(missing * den <= 0xffff_ffff * 0xffff_ffff_ffff_ffff) by (nonlinear_arith)
            requires
                missing <= 0xffff_ffff,
                den <= 0xffff_ffff_ffff_ffff,
        ;
        assert(num * total <= 0xffff_ffff_ffff_ffff * 0xffff_ffff) by (nonlinear_arith)
            requires
                num <= 0xffff_ffff_ffff_ffff,
                total <= 0xffff_ffff,
        ;
        missing > 0 && missing * den <= num * total
    }

    /// The piece to request next: the candidate that comes before all others,
    /// if there is any.
    pub fn pick(&self) -> (r: Option<u32>)
        requires
            self.wf(),
        ensures
            match r {
                Some(p) => self@.candidate(p as int) && forall|j: int| #[trigger]
                    self@.candidate(j) && j != p ==> self@.before(p as int, j),
                None => forall|j: int| !#[trigger] self@.candidate(j),
            },
    {
        proof {
            lemma_count_missing_bounds(self.have@);
        }
        if self.missing == 0 {
            return None;
        }
        let endgame = self.in_endgame();
        let mut best: Option<u32> = None;
        let mut i: usize = 0;
        while i < self.have.len()
            invariant
                self.wf(),
                i <= self.have@.len(),
                endgame == self@.endgame(),
                match best {
                    Some(p) => p < i && self@.candidate(p as int) && forall|j: int|
                        j < i && #[trigger] self@.candidate(j) && j != p ==> self@.before(
                            p as int,
                            j,
                        ),
                    None => forall|j: int| j < i ==> !#[trigger] self@.candidate(j),
                },
            decreases self.have@.len() - i,
        {
            if !self.have[i] && (endgame || self.availability[i] > 0) {
                let better: bool = match best {
                    None => true,
                    Some(p) => !endgame && self.availability[i] < self.availability[p as usize],
                };
                if better {
                    best = Some(i as u32);
                }
            }
            i = i + 1;
        }
        best
    }

    /// The first `n` pieces to request, in the order in which they would be
    /// picked; all of them where there are fewer.
    pub fn pick_n(&self, n: usize) -> (r: Vec<u32>)
        requires
            self.wf(),
        ensures
            r@.len() <= n,
            forall|x: int| 0 <= x < r@.len() ==> self@.candidate(#[trigger] r@[x] as int),
            forall|x: int, y: int|
                0 <= x < y < r@.len() ==> self@.before(
                    #[trigger] r@[x] as int,
                    #[trigger] r@[y] as int,
                ),
            forall|j: int|
                #[trigger] self@.candidate(j) ==> r@.contains(j as u32) || (r@.len() == n && forall|
                    x: int,
                |
                    0 <= x < r@.len() ==> self@.before(#[trigger] r@[x] as int, j)),
    {
        let endgame = self.in_endgame();
        let mut keys: Vec<(u64, u64)> = Vec::new();
        let mut i: usize = 0;
        while i < self.have.len()
            invariant
                self.wf(),
                i <= self.have@.len(),
                endgame == self@.endgame(),
                forall|x: int|
                    0 <= x < keys@.len() ==> {
                        &&& (#[trigger] keys@[x]).1 < i
                        &&& self@.candidate(keys@[x].1 as int)
                        &&& keys@[x].0 == (if endgame {
                            0
                        } else {
                            self@.availability[keys@[x].1 as int] as int
                        })
                    },
                forall|x: int, y: int|
                    0 <= x < y < keys@.len() ==> (#[trigger] keys@[x]).1 < (#[trigger] keys@[y]).1,
                forall|j: int|
                    0 <= j < i && #[trigger] self@.candidate(j) ==> exists|x: int|
                        0 <= x < keys@.len() && (#[trigger] keys@[x]).1 == j,
            decreases self.have@.len() - i,
        {
            let ghost before = keys@;
            if !self.have[i] && (endgame || self.availability[i] > 0) {
                let rarity: u64 = if endgame {
                    0
                } else {
                    self.availability[i] as u64
                };
                keys.push((rarity, i as u64));
                assert(keys@[before.len() as int].1 == i);
            }
            assert forall|j: int| 0 <= j < i + 1 && #[trigger] self@.candidate(j) implies exists|
                x: int,
            |
                0 <= x < keys@.len() && (#[trigger] keys@[x]).1 == j by {
                if j < i {
                    let x = choose|x: int| 0 <= x < before.len() && (#[trigger] before[x]).1 == j;
                    assert(keys@[x].1 == j);
                }
            }
            i = i + 1;
        }
        let ghost unsorted = keys@;
        let sorted = sort_pairs(keys);
        proof {
            assert(unsorted.no_duplicates());
            lemma_same_distinct(unsorted, sorted@);
            assert forall|x: int| 0 <= x < sorted@.len() implies {
                &&& (#[trigger] sorted@[x]).1 < self@.have.len()
                &&& self@.candidate(sorted@[x].1 as int)
                &&& sorted@[x].0 == (if endgame {
                    0
                } else {
                    self@.availability[sorted@[x].1 as int] as int
                })
            } by {
                assert(sorted@.contains(sorted@[x]));
                lemma_same_items(unsorted, sorted@, sorted@[x]);
                let y = choose|y: int| 0 <= y < unsorted.len() && unsorted[y] == sorted@[x];
                assert(unsorted[y].1 < self@.have.len());
            }
            assert forall|x: int, y: int| 0 <= x < y < sorted@.len() implies self@.before(
                (#[trigger] sorted@[x]).1 as int,
                (#[trigger] sorted@[y]).1 as int,
            ) by {
                assert(pair_le(sorted@[x], sorted@[y]));
                assert(sorted@[x] != sorted@[y]);
            }
        }
        let mut out: Vec<u32> = Vec::new();
        let mut k: usize = 0;
        while k < sorted.len() && k < n
            invariant
                k <= sorted@.len(),
                k <= n,
                out@.len() == k,
                self@.wf(),
                forall|x: int|
                    0 <= x < sorted@.len() ==> (#[trigger] sorted@[x]).1 < self@.have.len(),
                forall|x: int| 0 <= x < k ==> out@[x] == (#[trigger] sorted@[x]).1,
            decreases sorted@.len() - k,
        {
            assert(sorted@[k as int].1 < self@.have.len());
            out.push(sorted[k].1 as u32);
            k = k + 1;
        }
        proof {
            assert forall|x: int| 0 <= x < out@.len() implies self@.candidate(
                #[trigger] out@[x] as int,
            ) by {
                assert(out@[x] == sorted@[x].1);
            }
            assert forall|x: int, y: int| 0 <= x < y < out@.len() implies self@.before(
                #[trigger] out@[x] as int,
                #[trigger] out@[y] as int,
            ) by {
                assert(out@[x] == sorted@[x].1);
                assert(out@[y] == sorted@[y].1);
            }
            assert forall|j: int| #[trigger] self@.candidate(j) implies out@.contains(j as u32) || (
            out@.len() == n && forall|x: int|
                0 <= x < out@.len() ==> self@.before(#[trigger] out@[x] as int, j)) by {
                let y = choose|y: int| 0 <= y < unsorted.len() && (#[trigger] unsorted[y]).1 == j;
                assert(unsorted.contains(unsorted[y]));
                lemma_same_items(unsorted, sorted@, unsorted[y]);
                let z = choose|z: int| 0 <= z < sorted@.len() && sorted@[z] == unsorted[y];
                if z < k {
                    assert(out@[z] == sorted@[z].1);
                    assert(out@[z] == j as u32);
                } else {
                    assert forall|x: int| 0 <= x < out@.len() implies self@.before(
                        #[trigger] out@[x] as int,
                        j,
                    ) by {
                        assert(out@[x] == sorted@[x].1);
                    }
                }
            }
        }
        out
    }
}

/// Picking one piece is picking the first of many: the piece that `pick` may
/// return is the only one with no candidate before it.
pub proof fn law_pick_is_unique(m: PickerModel, p: int, q: int)
    requires
        m.wf(),
        m.candidate(p),
        m.candidate(q),
        forall|j: int| #[trigger] m.candidate(j) && j != p ==> m.before(p, j),
        forall|j: int| #[trigger] m.candidate(j) && j != q ==> m.before(q, j),
    ensures
        p == q,
{
}

/// Marking a piece twice is the same as marking it once.
pub proof fn law_mark_have_idempotent(m: PickerModel, i: int)
    requires
        m.wf(),
        0 <= i < m.have.len(),
    ensures
        m.marked(i).marked(i) == m.marked(i),
        count_missing(m.marked(i).have) == count_missing(m.have) - (if m.have[i] {
            0int
        } else {
            1int
        }),
{
    assert(m.marked(i).marked(i) =~= m.marked(i));
    if !m.have[i] {
        lemma_count_missing_mark(m.have, i);
    } else {
        assert(m.have.update(i, true) =~= m.have);
    }
}

/// Forgetting a peer takes back what observing it did, as long as no counter
/// was full.
pub proof fn law_forget_undoes_observe(m: PickerModel, bits: Seq<bool>)
    requires
        m.wf(),
        bits.len() == m.have.len(),
        forall|i: int| 0 <= i < m.have.len() ==> #[trigger] m.availability[i] < u32::MAX,
    ensures
        m.observed(bits).forgotten(bits) == m,
{
    assert forall|i: int| 0 <= i < m.have.len() implies m.observed(bits).forgotten(
        bits,
    ).availability[i] == m.availability[i] by {
        assert(m.availability[i] < u32::MAX);
    }
    assert(m.observed(bits).forgotten(bits) =~= m);
}

/// A piece can be picked exactly if it is missing and a peer has it, or so few are
/// missing that it no longer matters who has them. Before that the piece that fewer
/// peers have goes first, and of two that as many have the lower; after it the
/// lower always does.
pub proof fn law_rarest_goes_first(m: PickerModel, i: int, j: int)
    requires
        m.wf(),
        0 <= i < m.have.len(),
        0 <= j < m.have.len(),
        i != j,
    ensures
        m.candidate(i) <==> !m.have[i] && (m.endgame() || m.availability[i] > 0),
        m.endgame() ==> (m.before(i, j) <==> i < j),
        !m.endgame() ==> (m.before(i, j) <==> m.availability[i] < m.availability[j] || (
        m.availability[i] == m.availability[j] && i < j)),
{
}

/// Endgame is when pieces are missing, but no larger a share of all than the
/// threshold: none while none is missing, and never less readily as pieces come in.
pub proof fn law_endgame_comes_with_progress(m: PickerModel, i: int)
    requires
        m.wf(),
        0 <= i < m.have.len(),
    ensures
        (forall|k: int| 0 <= k < m.have.len() ==> #[trigger] m.have[k]) ==> !m.endgame(),
        m.threshold.0 == 0 && m.threshold.1 > 0 ==> !m.endgame(),
        (m.threshold.0 >= m.threshold.1 && !m.have[i]) ==> m.endgame(),
        (m.endgame() && exists|k: int| 0 <= k < m.have.len() && k != i && !#[trigger] m.have[k])
            ==> m.marked(i).endgame(),
{
    lemma_count_missing_bounds(m.have);
    let missing = count_missing(m.have) as int;
    if m.threshold.0 == 0 && m.threshold.1 > 0 {
        assert(missing > 0 ==> missing * m.threshold.1 > 0) by (nonlinear_arith)
            requires
                m.threshold.1 > 0,
        ;
    }
    if m.threshold.0 >= m.threshold.1 && !m.have[i] {
        assert(missing * m.threshold.1 <= m.threshold.0 * m.have.len()) by (nonlinear_arith)
            requires
                0 <= missing <= m.have.len(),
                m.threshold.0 >= m.threshold.1,
        ;
    }
    law_mark_have_idempotent(m, i);
    lemma_count_missing_bounds(m.marked(i).have);
    if m.endgame() && exists|k: int| 0 <= k < m.have.len() && k != i && !#[trigger] m.have[k] {
        let k = choose|k: int| 0 <= k < m.have.len() && k != i && !#[trigger] m.have[k];
        assert(!m.marked(i).have[k]);
        let fewer = count_missing(m.marked(i).have) as int;
        assert(fewer * m.threshold.1 <= missing * m.threshold.1) by (nonlinear_arith)
            requires
                0 <= fewer <= missing,
        ;
    }
}

/// A peer that is observed or forgotten counts for exactly the pieces that it has,
/// and says nothing of what is here.
pub proof fn law_a_peer_counts_for_its_pieces(m: PickerModel, bits: Seq<bool>, i: int)
    requires
        m.wf(),
        bits.len() == m.have.len(),
        0 <= i < m.have.len(),
    ensures
        m.observed(bits).have == m.have,
        m.forgotten(bits).have == m.have,
        !bits[i] ==> m.observed(bits).availability[i] == m.availability[i]
            && m.forgotten(bits).availability[i] == m.availability[i],
        (bits[i] && m.availability[i] < u32::MAX) ==> m.observed(bits).availability[i]
            == m.availability[i] + 1,
        (bits[i] && m.availability[i] > 0) ==> m.forgotten(bits).availability[i]
            == m.availability[i] - 1,
        m.marked(i).have[i],
        forall|k: int| 0 <= k < m.have.len() && k != i ==> #[trigger] m.marked(i).have[k] == m.have[k],
        m.marked(i).availability == m.availability,
{
}

} // verus!
