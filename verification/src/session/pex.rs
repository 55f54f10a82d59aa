//! Peer exchange: what to tell peers about other peers, and how often.
//!
//! Times are nanoseconds on one monotonic clock.
use crate::ids::PeerSlot;
use crate::net::PeerAddr;
use std::collections::HashMap;
use vstd::prelude::*;

verus! {

broadcast use vstd::std_specs::hash::group_hash_axioms;

/// Most peers named as added, and most named as dropped, in one message.
pub const MAX_PEX_ADVERTISE: usize = 50;

/// Least time between two messages to the same peer.
pub const PEX_INTERVAL: u64 = 60_000_000_000;

/// Least time between two messages taken from the same peer.
pub const PEX_INBOUND_INTERVAL: u64 = 10_000_000_000;

/// A peer that a message names as added.
#[derive(Debug, Clone, Copy, PartialEq, Eq, Structural)]
pub struct PexPeer {
    /// Its address.
    pub addr: PeerAddr,
    /// Flag bits; none are set on what this library sends.
    pub flags: u8,
}

/// The change in a set of peers.
#[derive(Debug)]
pub struct PexMessage {
    /// Peers that came.
    pub added: Vec<PexPeer>,
    /// Peers that went.
    pub dropped: Vec<PeerAddr>,
}

/// Peer exchange state of one torrent.
#[derive(Debug)]
pub struct PexState {
    last_advertised: Vec<PeerAddr>,
    last_sent: HashMap<u64, u64>,
    last_received: HashMap<u64, u64>,
    enabled: bool,
}

/// What peer exchange state holds.
#[verifier::ext_equal]
pub struct PexModel {
    /// The peers that others were told of and not told to forget.
    pub advertised: Seq<PeerAddr>,
    /// When each peer was last sent a message.
    pub sent: Map<u64, u64>,
    /// When each peer's message was last taken.
    pub received: Map<u64, u64>,
    /// Whether peers are exchanged at all.
    pub enabled: bool,
}

/// The items of `s` that are not in `t`, in order.
pub open spec fn without(s: Seq<PeerAddr>, t: Seq<PeerAddr>) -> Seq<PeerAddr>
    decreases s.len(),
{
    if s.len() == 0 {
        Seq::empty()
    } else if t.contains(s.last()) {
        without(s.drop_last(), t)
    } else {
        without(s.drop_last(), t).push(s.last())
    }
}

/// The items of `s`, each once, where it first occurs.
pub open spec fn distinct(s: Seq<PeerAddr>) -> Seq<PeerAddr>
    decreases s.len(),
{
    if s.len() == 0 {
        Seq::empty()
    } else if distinct(s.drop_last()).contains(s.last()) {
        distinct(s.drop_last())
    } else {
        distinct(s.drop_last()).push(s.last())
    }
}

/// As much of `s` as one message may name.
pub open spec fn capped(s: Seq<PeerAddr>) -> Seq<PeerAddr> {
    if s.len() <= MAX_PEX_ADVERTISE {
        s
    } else {
        s.take(MAX_PEX_ADVERTISE as int)
    }
}

/// The addresses of connected peers.
pub open spec fn addrs_of(peers: Seq<(PeerSlot, PeerAddr)>) -> Seq<PeerAddr> {
    Seq::new(peers.len(), |i: int| peers[i].1)
}

impl PexModel {
    /// No address is remembered twice.
    pub open spec fn wf(self) -> bool {
        self.advertised.no_duplicates()
    }

    /// The peers that a message now would name as added.
    pub open spec fn added(self, current: Seq<PeerAddr>) -> Seq<PeerAddr> {
        capped(without(distinct(current), self.advertised))
    }

    /// The peers that a message now would name as dropped.
    pub open spec fn dropped(self, current: Seq<PeerAddr>) -> Seq<PeerAddr> {
        capped(without(self.advertised, current))
    }

    /// There is nothing to tell.
    pub open spec fn unchanged(self, current: Seq<PeerAddr>) -> bool {
        self.added(current).len() == 0 && self.dropped(current).len() == 0
    }

    /// The state after such a message was built.
    pub open spec fn told(self, current: Seq<PeerAddr>) -> PexModel {
        PexModel {
            advertised: without(self.advertised, self.dropped(current)) + self.added(current),
            ..self
        }
    }

    /// Whether peer `slot` is due for a message.
    pub open spec fn due(self, slot: PeerSlot, now: u64) -> bool {
        !self.sent.contains_key(slot.0) || now - self.sent[slot.0] >= PEX_INTERVAL
    }

    /// Whether a message from peer `slot` is taken.
    pub open spec fn accepts(self, slot: PeerSlot, now: u64) -> bool {
        !self.received.contains_key(slot.0) || now - self.received[slot.0] >= PEX_INBOUND_INTERVAL
    }

    /// With nothing remembered of peer `slot`.
    pub open spec fn without_peer(self, slot: PeerSlot) -> PexModel {
        PexModel { sent: self.sent.remove(slot.0), received: self.received.remove(slot.0), ..self }
    }
}

pub proof fn lemma_without(s: Seq<PeerAddr>, t: Seq<PeerAddr>)
    ensures
        forall|a: PeerAddr| #[trigger]
            without(s, t).contains(a) <==> s.contains(a) && !t.contains(a),
        s.no_duplicates() ==> without(s, t).no_duplicates(),
        without(s, t).len() <= s.len(),
    decreases s.len(),
{
    if s.len() > 0 {
        let front = s.drop_last();
        lemma_without(front, t);
        assert(s =~= front.push(s.last()));
        assert forall|a: PeerAddr| #[trigger]
            without(s, t).contains(a) <==> s.contains(a) && !t.contains(a) by {
            lemma_push_contains(front, s.last(), a);
            lemma_push_contains(without(front, t), s.last(), a);
        }
        if s.no_duplicates() {
            assert(front.no_duplicates());
            if front.contains(s.last()) {
                let i = choose|i: int| 0 <= i < front.len() && front[i] == s.last();
                assert(s[i] == s[s.len() - 1]);
            }
            assert(!without(front, t).contains(s.last()));
            lemma_push_distinct(without(front, t), s.last());
        }
    }
}

pub proof fn lemma_push_contains(s: Seq<PeerAddr>, x: PeerAddr, a: PeerAddr)
    ensures
        s.push(x).contains(a) <==> s.contains(a) || a == x,
{
    if s.contains(a) {
        let i = choose|i: int| 0 <= i < s.len() && s[i] == a;
        assert(s.push(x)[i] == a);
    }
    if a == x {
        assert(s.push(x)[s.len() as int] == a);
    }
    if s.push(x).contains(a) {
        let i = choose|i: int| 0 <= i < s.push(x).len() && s.push(x)[i] == a;
        if i < s.len() {
            assert(s[i] == a);
        }
    }
}

proof fn lemma_push_distinct(s: Seq<PeerAddr>, x: PeerAddr)
    requires
        s.no_duplicates(),
        !s.contains(x),
    ensures
        s.push(x).no_duplicates(),
{
    let t = s.push(x);
    assert forall|i: int, j: int| 0 <= i < t.len() && 0 <= j < t.len() && i != j implies t[i]
        != t[j] by {
        if i < s.len() {
            assert(s.contains(s[i]));
        }
        if j < s.len() {
            assert(s.contains(s[j]));
        }
    }
}

pub proof fn lemma_distinct(s: Seq<PeerAddr>)
    ensures
        distinct(s).no_duplicates(),
        forall|a: PeerAddr| #[trigger] distinct(s).contains(a) <==> s.contains(a),
    decreases s.len(),
{
    if s.len() > 0 {
        let front = s.drop_last();
        lemma_distinct(front);
        assert(s =~= front.push(s.last()));
        if !distinct(front).contains(s.last()) {
            lemma_push_distinct(distinct(front), s.last());
        }
        assert forall|a: PeerAddr| #[trigger] distinct(s).contains(a) <==> s.contains(a) by {
            lemma_push_contains(front, s.last(), a);
            lemma_push_contains(distinct(front), s.last(), a);
        }
    }
}

/// Whether `a` is in `v`.
fn has_addr(v: &Vec<PeerAddr>, a: PeerAddr) -> (r: bool)
    ensures
        r == v@.contains(a),
{
    let mut i: usize = 0;
    while i < v.len()
        invariant
            i <= v@.len(),
            forall|j: int| 0 <= j < i ==> v@[j] != a,
        decreases v@.len() - i,
    {
        if v[i] == a {
            assert(v@[i as int] == a);
            return true;
        }
        i = i + 1;
    }
    false
}

/// The items of `s` that are not in `t`.
fn without_addrs(s: &Vec<PeerAddr>, t: &Vec<PeerAddr>) -> (r: Vec<PeerAddr>)
    ensures
        r@ == without(s@, t@),
{
    let mut out: Vec<PeerAddr> = Vec::new();
    let mut i: usize = 0;
    assert(s@.take(0) =~= Seq::<PeerAddr>::empty());
    while i < s.len()
        invariant
            i <= s@.len(),
            out@ == without(s@.take(i as int), t@),
        decreases s@.len() - i,
    {
        assert(s@.take(i + 1).drop_last() =~= s@.take(i as int));
        if !has_addr(t, s[i]) {
            out.push(s[i]);
        }
        i = i + 1;
    }
    assert(s@.take(i as int) =~= s@);
    out
}

impl View for PexState {
    type V = PexModel;

    closed spec fn view(&self) -> PexModel {
        PexModel {
            advertised: self.last_advertised@,
            sent: self.last_sent@,
            received: self.last_received@,
            enabled: self.enabled,
        }
    }
}

impl PexState {
    /// Fresh state; a private torrent exchanges no peers.
    pub fn new(private: bool) -> (r: PexState)
        ensures
            r@ == (PexModel {
                advertised: Seq::empty(),
                sent: Map::empty(),
                received: Map::empty(),
                enabled: !private,
            }),
            r@.wf(),
    {
        PexState {
            last_advertised: Vec::new(),
            last_sent: HashMap::new(),
            last_received: HashMap::new(),
            enabled: !private,
        }
    }

    /// Whether peers are exchanged at all.
    pub fn is_enabled(&self) -> (r: bool)
        ensures
            r == self@.enabled,
    {
        self.enabled
    }

    /// Whether it is long enough since the last message to this peer.
    pub fn should_send_to(&self, slot: PeerSlot, now: u64) -> (r: bool)
        ensures
            r == self@.due(slot, now),
    {
        match self.last_sent.get(&slot.0) {
            None => true,
            Some(last) => now >= *last && now - *last >= PEX_INTERVAL,
        }
    }

    /// The message that brings others up to date with the connected peers, if
    /// there is anything to tell. What it names counts as told; peers beyond the
    /// caps wait for a later message.
    pub fn build_message(&mut self, current: &Vec<(PeerSlot, PeerAddr)>) -> (r: Option<PexMessage>)
        requires
            old(self)@.wf(),
        ensures
            final(self)@.wf(),
            match r {
                None => old(self)@.unchanged(addrs_of(current@)) && final(self)@ == old(self)@,
                Some(m) => {
                    &&& !old(self)@.unchanged(addrs_of(current@))
                    &&& m.added@ == Seq::new(
                        old(self)@.added(addrs_of(current@)).len(),
                        |i: int|
                            PexPeer { addr: old(self)@.added(addrs_of(current@))[i], flags: 0 },
                    )
                    &&& m.dropped@ == old(self)@.dropped(addrs_of(current@))
                    &&& final(self)@ == old(self)@.told(addrs_of(current@))
                },
            },
    {
        let ghost cur = addrs_of(current@);
        let mut plain: Vec<PeerAddr> = Vec::new();
        let mut unique: Vec<PeerAddr> = Vec::new();
        let mut i: usize = 0;
        assert(cur.take(0) =~= Seq::<PeerAddr>::empty());
        while i < current.len()
            invariant
                i <= current@.len(),
                cur == addrs_of(current@),
                plain@ == cur.take(i as int),
                unique@ == distinct(cur.take(i as int)),
            decreases current@.len() - i,
        {
            let a = current[i].1;
            assert(cur.take(i + 1).drop_last() =~= cur.take(i as int));
            assert(cur.take(i + 1) =~= cur.take(i as int).push(a));
            if !has_addr(&unique, a) {
                unique.push(a);
            }
            plain.push(a);
            i = i + 1;
        }
        assert(cur.take(i as int) =~= cur);
        let mut added = without_addrs(&unique, &self.last_advertised);
        added.truncate(MAX_PEX_ADVERTISE);
        let mut dropped = without_addrs(&self.last_advertised, &plain);
        dropped.truncate(MAX_PEX_ADVERTISE);
        assert(added@ =~= self@.added(cur));
        assert(dropped@ =~= self@.dropped(cur));
        if added.len() == 0 && dropped.len() == 0 {
            return None;
        }
        let mut kept = without_addrs(&self.last_advertised, &dropped);
        let mut named: Vec<PexPeer> = Vec::new();
        let ghost base = kept@;
        let mut k: usize = 0;
        assert(base + added@.take(0) =~= base);
        while k < added.len()
            invariant
                k <= added@.len(),
                kept@ == base + added@.take(k as int),
                named@ == Seq::new(k as nat, |i: int| PexPeer { addr: added@[i], flags: 0 }),
            decreases added@.len() - k,
        {
            kept.push(added[k]);
            named.push(PexPeer { addr: added[k], flags: 0 });
            assert(kept@ =~= base + added@.take(k + 1));
            assert(named@ =~= Seq::new(
                (k + 1) as nat,
                |i: int| PexPeer { addr: added@[i], flags: 0 },
            ));
            k = k + 1;
        }
        assert(added@.take(k as int) =~= added@);
        proof {
            lemma_told_distinct(self@, cur);
        }
        self.last_advertised = kept;
        Some(PexMessage { added: named, dropped })
    }

    /// Records that a message was sent to this peer.
    pub fn record_sent(&mut self, slot: PeerSlot, now: u64)
        ensures
            final(self)@ == (PexModel { sent: old(self)@.sent.insert(slot.0, now), ..old(self)@ }),
    {
        self.last_sent.insert(slot.0, now);
    }

    /// Whether it is long enough since the last message taken from this peer.
    pub fn should_accept_from(&self, slot: PeerSlot, now: u64) -> (r: bool)
        ensures
            r == self@.accepts(slot, now),
    {
        match self.last_received.get(&slot.0) {
            None => true,
            Some(last) => now >= *last && now - *last >= PEX_INBOUND_INTERVAL,
        }
    }

    /// Records that a message was taken from this peer.
    pub fn record_received(&mut self, slot: PeerSlot, now: u64)
        ensures
            final(self)@ == (PexModel {
                received: old(self)@.received.insert(slot.0, now),
                ..old(self)@
            }),
    {
        self.last_received.insert(slot.0, now);
    }

    /// Forgets when messages went to and came from this peer.
    pub fn peer_disconnected(&mut self, slot: PeerSlot)
        ensures
            final(self)@ == old(self)@.without_peer(slot),
    {
        self.last_sent.remove(&slot.0);
        self.last_received.remove(&slot.0);
        assert(self@ =~= old(self)@.without_peer(slot));
    }
}

proof fn lemma_capped(s: Seq<PeerAddr>)
    ensures
        forall|a: PeerAddr| #[trigger] capped(s).contains(a) ==> s.contains(a),
        s.no_duplicates() ==> capped(s).no_duplicates(),
{
    assert forall|a: PeerAddr| #[trigger] capped(s).contains(a) implies s.contains(a) by {
        let i = choose|i: int| 0 <= i < capped(s).len() && capped(s)[i] == a;
        assert(s[i] == a);
    }
}

/// What was told holds no address twice.
pub proof fn lemma_told_distinct(m: PexModel, current: Seq<PeerAddr>)
    requires
        m.wf(),
    ensures
        m.told(current).wf(),
{
    let kept = without(m.advertised, m.dropped(current));
    let added = m.added(current);
    lemma_without(m.advertised, m.dropped(current));
    lemma_distinct(current);
    lemma_without(distinct(current), m.advertised);
    lemma_capped(without(distinct(current), m.advertised));
    let all = kept + added;
    assert forall|i: int, j: int| 0 <= i < all.len() && 0 <= j < all.len() && i != j implies all[i]
        != all[j] by {
        if i < kept.len() && j >= kept.len() {
            assert(kept.contains(kept[i]));
            assert(added.contains(added[j - kept.len()]));
        }
        if j < kept.len() && i >= kept.len() {
            assert(kept.contains(kept[j]));
            assert(added.contains(added[i - kept.len()]));
        }
    }
}

/// A message tells the truth: what it adds is connected and was not told of
/// before, what it drops was told of and is no longer connected, and neither
/// list is longer than the cap.
pub proof fn law_message_is_difference(m: PexModel, current: Seq<PeerAddr>, a: PeerAddr)
    ensures
        m.added(current).len() <= MAX_PEX_ADVERTISE,
        m.dropped(current).len() <= MAX_PEX_ADVERTISE,
        m.added(current).contains(a) ==> current.contains(a) && !m.advertised.contains(a),
        m.dropped(current).contains(a) ==> m.advertised.contains(a) && !current.contains(a),
{
    lemma_distinct(current);
    lemma_without(distinct(current), m.advertised);
    lemma_without(m.advertised, current);
    lemma_capped(without(distinct(current), m.advertised));
    lemma_capped(without(m.advertised, current));
}

/// Where the whole change fits in one message, the others know exactly the
/// connected peers afterwards, and there is nothing more to tell.
pub proof fn law_small_change_told_at_once(m: PexModel, current: Seq<PeerAddr>)
    requires
        m.wf(),
        without(distinct(current), m.advertised).len() <= MAX_PEX_ADVERTISE,
        without(m.advertised, current).len() <= MAX_PEX_ADVERTISE,
    ensures
        forall|a: PeerAddr| #[trigger]
            m.told(current).advertised.contains(a) <==> current.contains(a),
        m.told(current).unchanged(current),
{
    let told = m.told(current);
    let kept = without(m.advertised, m.dropped(current));
    let added = m.added(current);
    lemma_distinct(current);
    lemma_without(distinct(current), m.advertised);
    lemma_without(m.advertised, current);
    lemma_without(m.advertised, m.dropped(current));
    assert forall|a: PeerAddr| #[trigger] told.advertised.contains(a) <==> current.contains(a) by {
        if told.advertised.contains(a) {
            let i = choose|i: int| 0 <= i < told.advertised.len() && told.advertised[i] == a;
            if i < kept.len() {
                assert(kept.contains(a));
                assert(!without(m.advertised, current).contains(a));
            } else {
                assert(added[i - kept.len()] == a);
                assert(added.contains(a));
            }
        }
        if current.contains(a) {
            assert(distinct(current).contains(a));
            if m.advertised.contains(a) {
                assert(!without(m.advertised, current).contains(a));
                assert(kept.contains(a));
                let i = choose|i: int| 0 <= i < kept.len() && kept[i] == a;
                assert(told.advertised[i] == a);
            } else {
                assert(without(distinct(current), m.advertised).contains(a));
                let i = choose|i: int| 0 <= i < added.len() && added[i] == a;
                assert(told.advertised[kept.len() + i] == a);
            }
        }
    }
    lemma_without(distinct(current), told.advertised);
    lemma_without(told.advertised, current);
    if told.added(current).len() > 0 {
        let a = told.added(current)[0];
        lemma_capped(without(distinct(current), told.advertised));
        assert(told.added(current).contains(a));
        assert(current.contains(a));
        assert(told.advertised.contains(a));
    }
    if told.dropped(current).len() > 0 {
        let a = told.dropped(current)[0];
        lemma_capped(without(told.advertised, current));
        assert(told.dropped(current).contains(a));
        assert(told.advertised.contains(a));
        assert(current.contains(a));
    }
}

/// After a message to a peer it is not due until the interval has passed, and
/// after it left it is due again.
pub proof fn law_due_again_after_interval(m: PexModel, slot: PeerSlot, at: u64, now: u64)
    ensures
        (PexModel { sent: m.sent.insert(slot.0, at), ..m }).due(slot, now) <==> now
            >= at + PEX_INTERVAL,
        m.without_peer(slot).due(slot, now),
        m.without_peer(slot).accepts(slot, now),
{
}

} // verus!
