//! Which user of a shared UDP socket a datagram belongs to: trackers by the
//! transaction that they answer, the DHT by the first byte.
//!
//! Times are nanoseconds on one monotonic clock.
use crate::keyed::{find_key, keys_distinct, lemma_find, lemma_find_at};
use crate::arith::{wrapped, wrapping};
use vstd::arithmetic::div_mod::lemma_fundamental_div_mod_converse;
use vstd::prelude::*;

verus! {

/// Longest datagram that is received.
pub const RECV_BUFFER_SIZE: usize = 8192;

/// Usual time that a tracker has to answer: one minute.
pub const DEFAULT_TRACKER_TXN_TTL: u64 = 60_000_000_000;

/// Most transactions at once.
pub const MAX_PENDING_TRACKER_TXNS: usize = 10_000;

/// Time to wait after a failed receive: ten milliseconds.
pub const RECV_BACKOFF: u64 = 10_000_000;

/// What can go wrong.
#[derive(Debug)]
#[non_exhaustive]
pub enum DemuxError {
    /// The socket failed.
    Io(String),
    /// There are too many transactions.
    TooManyPendingTransactions,
    /// The transaction is under way already.
    DuplicateTransactionId(u32),
    /// There is a DHT already.
    DhtAlreadyRegistered,
}

/// A transaction that waits for its answer.
#[derive(Debug)]
pub struct PendingTxn<H> {
    /// Where the answer goes.
    pub sender: H,
    /// Until when it is waited for.
    pub expires_at: u64,
}

/// Where a datagram belongs.
#[derive(Debug)]
pub enum Dispatch<H> {
    /// To the DHT.
    Dht,
    /// To whoever waits for this answer of a tracker.
    Tracker(H),
    /// To nobody.
    Unmatched,
}

/// The transactions that wait, and the DHT if there is one. `H` is where an
/// answer goes, `D` where the DHT's datagrams go.
#[derive(Debug)]
pub struct UdpDemux<H, D> {
    pending: Vec<(u32, PendingTxn<H>)>,
    dropped_unmatched: u64,
    dht: Option<D>,
}

/// The transaction that a tracker's answer names: bytes four to seven, the
/// highest first.
pub open spec fn txid_of(packet: Seq<u8>) -> u32 {
    (packet[4] * 0x100_0000 + packet[5] * 0x1_0000 + packet[6] * 0x100 + packet[7]) as u32
}

/// Those that are waited for after `now`.
pub open spec fn unexpired<H>(pending: Seq<(u32, PendingTxn<H>)>, now: u64) -> Seq<
    (u32, PendingTxn<H>),
>
    decreases pending.len(),
{
    if pending.len() == 0 {
        pending
    } else if pending.last().1.expires_at > now {
        unexpired(pending.drop_last(), now).push(pending.last())
    } else {
        unexpired(pending.drop_last(), now)
    }
}

/// What follows on a failed receive.
#[derive(Debug, Clone, Copy, PartialEq, Eq, Structural)]
pub enum RecvTurn {
    /// The socket is gone.
    Stop,
    /// Try again after this time.
    Backoff(u64),
}

/// What follows on a failed receive: the end if the failure is final, otherwise
/// another attempt after a moment.
pub fn after_recv_error(fatal: bool) -> (r: RecvTurn)
    ensures
        r == (if fatal {
            RecvTurn::Stop
        } else {
            RecvTurn::Backoff(RECV_BACKOFF)
        }),
{
    if fatal {
        RecvTurn::Stop
    } else {
        RecvTurn::Backoff(RECV_BACKOFF)
    }
}

impl<H, D> UdpDemux<H, D> {
    /// The transactions that wait.
    pub closed spec fn waiting(&self) -> Seq<(u32, PendingTxn<H>)> {
        self.pending@
    }

    /// Datagrams that belonged to nobody.
    pub closed spec fn dropped(&self) -> u64 {
        self.dropped_unmatched
    }

    /// Where the DHT's datagrams go.
    pub closed spec fn dht_of(&self) -> Option<D> {
        self.dht
    }

    /// No transaction waits twice, and there are not too many.
    pub open spec fn wf(&self) -> bool {
        &&& keys_distinct(self.waiting())
        &&& self.waiting().len() <= MAX_PENDING_TRACKER_TXNS
    }

    /// Nobody waits yet.
    pub fn new() -> (r: UdpDemux<H, D>)
        ensures
            r.wf(),
            r.waiting() == Seq::<(u32, PendingTxn<H>)>::empty(),
            r.dropped() == 0,
            r.dht_of() is None,
    {
        UdpDemux { pending: Vec::new(), dropped_unmatched: 0, dht: None }
    }

    /// Where a transaction stands.
    fn find(&self, transaction_id: u32) -> (r: Option<usize>)
        ensures
            match (r, find_key(self.waiting(), transaction_id)) {
                (Some(i), Some(j)) => i == j && i < self.pending@.len(),
                (None, None) => true,
                _ => false,
            },
    {
        let mut i: usize = 0;
        while i < self.pending.len()
            invariant
                i <= self.pending@.len(),
                forall|j: int| 0 <= j < i ==> (#[trigger] self.pending@[j]).0 != transaction_id,
            decreases self.pending@.len() - i,
        {
            if self.pending[i].0 == transaction_id {
                proof {
                    lemma_find_at(self.pending@, transaction_id, i as int);
                }
                return Some(i);
            }
            i = i + 1;
        }
        proof {
            lemma_find(self.pending@, transaction_id);
        }
        None
    }

    /// Waits for the answer to a transaction, for `ttl` from `now` on.
    pub fn register_tracker_response(
        &mut self,
        transaction_id: u32,
        sender: H,
        now: u64,
        ttl: u64,
    ) -> (r: Result<(), DemuxError>)
        requires
            old(self).wf(),
            now + ttl <= u64::MAX,
        ensures
            final(self).wf(),
            final(self).dropped() == old(self).dropped(),
            final(self).dht_of() == old(self).dht_of(),
            if old(self).waiting().len() >= MAX_PENDING_TRACKER_TXNS {
                r == Err::<(), DemuxError>(DemuxError::TooManyPendingTransactions) && final(
                    self).waiting() == old(self).waiting()
            } else if find_key(old(self).waiting(), transaction_id) is Some {
                r == Err::<(), DemuxError>(DemuxError::DuplicateTransactionId(transaction_id))
                    && final(self).waiting() == old(self).waiting()
            } else {
                r is Ok && final(self).waiting() == old(self).waiting().push(
                    (
                        transaction_id,
                        PendingTxn { sender, expires_at: (now + ttl) as u64 },
                    ),
                )
            },
    {
        if self.pending.len() >= MAX_PENDING_TRACKER_TXNS {
            return Err(DemuxError::TooManyPendingTransactions);
        }
        if self.find(transaction_id).is_some() {
            return Err(DemuxError::DuplicateTransactionId(transaction_id));
        }
        let ghost before = self.pending@;
        proof {
            lemma_find(before, transaction_id);
        }
        self.pending.push((transaction_id, PendingTxn { sender, expires_at: now + ttl }));
        assert forall|a: int, b: int|
            0 <= a < self.pending@.len() && 0 <= b < self.pending@.len() && a != b implies (
        #[trigger] self.pending@[a]).0 != (#[trigger] self.pending@[b]).0 by {
            if a < before.len() {
                assert(self.pending@[a] == before[a]);
            }
            if b < before.len() {
                assert(self.pending@[b] == before[b]);
            }
        }
        Ok(())
    }

    /// Sets where the DHT's datagrams go, once.
    pub fn register_dht(&mut self, tx: D) -> (r: Result<(), DemuxError>)
        ensures
            final(self).waiting() == old(self).waiting(),
            final(self).dropped() == old(self).dropped(),
            match old(self).dht_of() {
                Some(_) => r == Err::<(), DemuxError>(DemuxError::DhtAlreadyRegistered) && final(
                    self).dht_of() == old(self).dht_of(),
                None => r is Ok && final(self).dht_of() == Some(tx),
            },
    {
        if self.dht.is_some() {
            Err(DemuxError::DhtAlreadyRegistered)
        } else {
            self.dht = Some(tx);
            Ok(())
        }
    }

    /// Where the DHT's datagrams go.
    pub fn dht(&self) -> (r: Option<&D>)
        ensures
            match (r, self.dht_of()) {
                (Some(a), Some(b)) => *a == b,
                (None, None) => true,
                _ => false,
            },
    {
        match &self.dht {
            Some(d) => Some(d),
            None => None,
        }
    }

    /// Datagrams that belonged to nobody.
    pub fn dropped_unmatched(&self) -> (r: u64)
        ensures
            r == self.dropped(),
    {
        self.dropped_unmatched
    }

    /// Counts a datagram that nobody took.
    pub fn note_dropped(&mut self)
        ensures
            final(self).waiting() == old(self).waiting(),
            final(self).dht_of() == old(self).dht_of(),
            final(self).dropped() == wrapped(old(self).dropped(), 1),
    {
        self.dropped_unmatched = wrapping(self.dropped_unmatched, 1);
    }

    /// Where a datagram belongs. One that begins with `d` is the DHT's, if there
    /// is one; any other is the answer to the transaction that it names. One
    /// that belongs to nobody is counted.
    pub fn dispatch(&mut self, packet: &[u8]) -> (r: Dispatch<H>)
        requires
            old(self).wf(),
        ensures
            final(self).wf(),
            final(self).dht_of() == old(self).dht_of(),
            ({
                let found = find_key(old(self).waiting(), txid_of(packet@));
                if packet@.len() > 0 && packet@[0] == 100 && old(self).dht_of() is Some {
                    r is Dht && final(self).waiting() == old(self).waiting() && final(
                        self).dropped() == old(self).dropped()
                } else if packet@.len() >= 8 && packet@[0] != 100 && found is Some {
                    let i = found->0;
                    r == Dispatch::Tracker(old(self).waiting()[i].1.sender) && final(
                        self).waiting() == old(self).waiting().remove(i) && final(self).dropped()
                        == old(self).dropped()
                } else {
                    r is Unmatched && final(self).waiting() == old(self).waiting() && final(
                        self).dropped() == wrapped(old(self).dropped(), 1)
                }
            }),
    {
        if packet.len() == 0 {
            self.note_dropped();
            return Dispatch::Unmatched;
        }
        if packet[0] == 100 {
            if self.dht.is_some() {
                return Dispatch::Dht;
            }
            self.note_dropped();
            return Dispatch::Unmatched;
        }
        if packet.len() < 8 {
            self.note_dropped();
            return Dispatch::Unmatched;
        }
        let txid: u32 = packet[4] as u32 * 0x100_0000 + packet[5] as u32 * 0x1_0000 + packet[6]
            as u32 * 0x100 + packet[7] as u32;
        match self.find(txid) {
            Some(i) => {
                let ghost before = self.pending@;
                let (id, txn) = self.pending.remove(i);
                assert forall|a: int, b: int|
                    0 <= a < self.pending@.len() && 0 <= b < self.pending@.len() && a
                        != b implies (#[trigger] self.pending@[a]).0 != (
                #[trigger] self.pending@[b]).0 by {
                    let x = if a < i {
                        a
                    } else {
                        a + 1
                    };
                    let y = if b < i {
                        b
                    } else {
                        b + 1
                    };
                    assert(self.pending@[a] == before[x]);
                    assert(self.pending@[b] == before[y]);
                }
                Dispatch::Tracker(txn.sender)
            },
            None => {
                self.note_dropped();
                Dispatch::Unmatched
            },
        }
    }

    /// Waits no longer for answers that are overdue.
    pub fn sweep_expired(&mut self, now: u64)
        requires
            old(self).wf(),
        ensures
            final(self).wf(),
            final(self).dht_of() == old(self).dht_of(),
            final(self).dropped() == old(self).dropped(),
            final(self).waiting() == unexpired(old(self).waiting(), now),
    {
        let ghost before = self.pending@;
        let mut i: usize = self.pending.len();
        let ghost tail = Seq::<(u32, PendingTxn<H>)>::empty();
        assert(before.take(i as int) =~= before);
        assert(before + tail =~= before);
        assert(unexpired(before, now) + tail =~= unexpired(before, now));
        while i > 0
            invariant
                i <= before.len(),
                self.dht == old(self).dht,
                self.dropped_unmatched == old(self).dropped_unmatched,
                self.pending@ == before.take(i as int) + tail,
                unexpired(before.take(i as int), now) + tail == unexpired(before, now),
            decreases i,
        {
            i = i - 1;
            let ghost now_left = before.take(i + 1);
            let ghost last = before[i as int];
            assert(now_left.drop_last() =~= before.take(i as int));
            assert(now_left.last() == last);
            assert(self.pending@[i as int] == last);
            if self.pending[i].1.expires_at > now {
                proof {
                    let longer = seq![last] + tail;
                    assert(self.pending@ =~= before.take(i as int) + longer);
                    assert(unexpired(before.take(i as int), now) + longer =~= unexpired(
                        now_left,
                        now,
                    ) + tail);
                    tail = longer;
                }
            } else {
                let ghost all = self.pending@;
                self.pending.remove(i);
                assert(self.pending@ =~= all.remove(i as int));
                assert(all.remove(i as int) =~= before.take(i as int) + tail);
            }
        }
        assert(before.take(0) =~= Seq::<(u32, PendingTxn<H>)>::empty());
        assert(self.pending@ =~= unexpired(before, now));
        proof {
            lemma_unexpired(before, now);
        }
    }
}

proof fn lemma_unexpired<H>(pending: Seq<(u32, PendingTxn<H>)>, now: u64)
    ensures
        unexpired(pending, now).len() <= pending.len(),
        keys_distinct(pending) ==> keys_distinct(unexpired(pending, now)),
        forall|i: int|
            0 <= i < unexpired(pending, now).len() ==> pending.contains(
                #[trigger] unexpired(pending, now)[i],
            ) && unexpired(pending, now)[i].1.expires_at > now,
        forall|p: (u32, PendingTxn<H>)|
            pending.contains(p) && p.1.expires_at > now ==> #[trigger] unexpired(
                pending,
                now,
            ).contains(p),
    decreases pending.len(),
{
    if pending.len() > 0 {
        let front = pending.drop_last();
        let last = pending.last();
        let rest = unexpired(front, now);
        let out = unexpired(pending, now);
        lemma_unexpired(front, now);
        assert(pending[pending.len() - 1] == last);
        assert forall|i: int| 0 <= i < out.len() implies pending.contains(#[trigger] out[i])
            && out[i].1.expires_at > now by {
            if i < rest.len() {
                assert(out[i] == rest[i]);
                assert(front.contains(rest[i]));
                let k = choose|k: int| 0 <= k < front.len() && front[k] == rest[i];
                assert(pending[k] == rest[i]);
            }
        }
        if keys_distinct(pending) {
            assert forall|a: int, b: int|
                0 <= a < front.len() && 0 <= b < front.len() && a != b implies (
            #[trigger] front[a]).0 != (#[trigger] front[b]).0 by {
                assert(pending[a].0 != pending[b].0);
            }
            assert forall|a: int, b: int|
                0 <= a < out.len() && 0 <= b < out.len() && a != b implies (
            #[trigger] out[a]).0 != (#[trigger] out[b]).0 by {
                if a < rest.len() {
                    assert(out[a] == rest[a]);
                    assert(front.contains(rest[a]));
                    let k = choose|k: int| 0 <= k < front.len() && front[k] == rest[a];
                    assert(pending[k].0 != pending[pending.len() - 1].0);
                }
                if b < rest.len() {
                    assert(out[b] == rest[b]);
                    assert(front.contains(rest[b]));
                    let k = choose|k: int| 0 <= k < front.len() && front[k] == rest[b];
                    assert(pending[k].0 != pending[pending.len() - 1].0);
                }
            }
        }
        assert forall|p: (u32, PendingTxn<H>)|
            pending.contains(p) && p.1.expires_at > now implies #[trigger] out.contains(p) by {
            let i = choose|i: int| 0 <= i < pending.len() && pending[i] == p;
            if i < front.len() {
                assert(front[i] == p);
                assert(rest.contains(p));
                let k = choose|k: int| 0 <= k < rest.len() && rest[k] == p;
                assert(out[k] == p);
            } else {
                assert(out[rest.len() as int] == p);
            }
        }
    }
}

/// An overdue transaction is waited for no longer, and any other one still is.
pub proof fn law_overdue_answers_are_given_up<H>(
    pending: Seq<(u32, PendingTxn<H>)>,
    now: u64,
    p: (u32, PendingTxn<H>),
)
    ensures
        unexpired(pending, now).contains(p) <==> pending.contains(p) && p.1.expires_at > now,
{
    lemma_unexpired(pending, now);
    let out = unexpired(pending, now);
    if out.contains(p) {
        let i = choose|i: int| 0 <= i < out.len() && out[i] == p;
        assert(pending.contains(out[i]));
    }
}

/// An answer goes to whoever waits for its transaction, and nobody waits for it
/// after that.
pub proof fn law_answer_reaches_its_transaction<H>(
    pending: Seq<(u32, PendingTxn<H>)>,
    transaction_id: u32,
    txn: PendingTxn<H>,
)
    requires
        keys_distinct(pending),
        find_key(pending, transaction_id) is None,
    ensures
        ({
            let all = pending.push((transaction_id, txn));
            let found = find_key(all, transaction_id);
            &&& found is Some
            &&& all[found->0].1 == txn
            &&& all.remove(found->0) == pending
        }),
{
    let all = pending.push((transaction_id, txn));
    let n = pending.len() as int;
    lemma_find(pending, transaction_id);
    assert forall|j: int| 0 <= j < n implies (#[trigger] all[j]).0 != transaction_id by {
        assert(all[j] == pending[j]);
    }
    lemma_find_at(all, transaction_id, n);
    assert(all.remove(n) =~= pending);
}

/// A datagram names its transaction by its fifth to eighth bytes, the most
/// significant first.
pub proof fn law_transaction_is_named_big_endian(packet: Seq<u8>)
    requires
        packet.len() >= 8,
    ensures
        txid_of(packet) as int / 0x100_0000 == packet[4],
        txid_of(packet) as int / 0x1_0000 % 0x100 == packet[5],
        txid_of(packet) as int / 0x100 % 0x100 == packet[6],
        txid_of(packet) as int % 0x100 == packet[7],
{
    let (a, b, c, d) = (packet[4] as int, packet[5] as int, packet[6] as int, packet[7] as int);
    let n = txid_of(packet) as int;
    assert(n == a * 0x100_0000 + b * 0x1_0000 + c * 0x100 + d);
    lemma_fundamental_div_mod_converse(n, 0x100_0000, a, b * 0x1_0000 + c * 0x100 + d);
    lemma_fundamental_div_mod_converse(n, 0x1_0000, a * 0x100 + b, c * 0x100 + d);
    lemma_fundamental_div_mod_converse(a * 0x100 + b, 0x100, a, b);
    lemma_fundamental_div_mod_converse(n, 0x100, a * 0x1_0000 + b * 0x100 + c, d);
    lemma_fundamental_div_mod_converse(a * 0x1_0000 + b * 0x100 + c, 0x100, a * 0x100 + b, c);
}

} // verus!
