//! Which blocks are asked of whom.
use crate::ids::PeerSlot;
use crate::keyed::{find_key, lemma_find, lemma_find_unique};
use crate::session::effects::{law_choke_frees_what_was_asked, rest_as_before};
use crate::session::keeps::{
    lemma_assign_keeps, lemma_fill_all_keeps, lemma_first_eligible, lemma_first_free,
    lemma_with_piece_keeps,
};
use crate::session::messages::{
    Deed, ExtensionInput, MetadataMessage, PeerNote, PeerToSession, SessionCommand,
};
use crate::session::model::{next_needed, open_block, PeerModel, SessionModel};
use crate::session::params::{lemma_workable, BlockRequest};
use crate::session::pausing::law_pause_chokes_and_cancels;
use crate::session::progress::lemma_started;
use crate::session::sharing::law_exchange_tells_what_changed;
use crate::session::torrent::{after_event, on_event, on_message, possible, SessionEvent};
use vstd::prelude::*;

verus! {

/// The blocks of every piece in progress cover it.
pub open spec fn covered(m: SessionModel) -> bool {
    forall|k: int|
        0 <= k < m.in_progress.len() ==> m.params.size_of(
            (#[trigger] m.in_progress[k]).0 as int,
        ) <= m.in_progress[k].1.received.len() * 16384
}

/// Nothing is lost from `m` to `n`: every piece in progress still is, with the
/// bytes and blocks that were here, and every block is still asked of whom it
/// was; more may be asked for. Peers differ at most in how much is under way on
/// them, which is no less.
pub open spec fn grown(m: SessionModel, n: SessionModel) -> bool {
    &&& rest_as_before(m, n)
    &&& n.peers.len() == m.peers.len()
    &&& forall|i: int|
        0 <= i < m.peers.len() ==> {
            &&& (#[trigger] n.peers[i]).0 == m.peers[i].0
            &&& n.peers[i].1 == (PeerModel { in_flight: n.peers[i].1.in_flight, ..m.peers[i].1 })
            &&& n.peers[i].1.in_flight >= m.peers[i].1.in_flight
        }
    &&& n.in_progress.len() >= m.in_progress.len()
    &&& forall|k: int|
        0 <= k < m.in_progress.len() ==> {
            &&& (#[trigger] n.in_progress[k]).0 == m.in_progress[k].0
            &&& n.in_progress[k].1.buffer == m.in_progress[k].1.buffer
            &&& n.in_progress[k].1.received == m.in_progress[k].1.received
            &&& n.in_progress[k].1.claimed.len() == m.in_progress[k].1.claimed.len()
        }
    &&& forall|k: int, b: int|
        0 <= k < m.in_progress.len() && 0 <= b < m.in_progress[k].1.claimed.len()
            && m.in_progress[k].1.claimed[b] is Some ==> #[trigger] n.in_progress[k].1.claimed[b]
            == m.in_progress[k].1.claimed[b]
    &&& forall|k: int, b: int|
        m.in_progress.len() <= k < n.in_progress.len() && 0 <= b
            < n.in_progress[k].1.received.len() ==> !#[trigger] n.in_progress[k].1.received[b]
}

/// Block `b` of the piece at place `k` is asked of `slot` in `n`, and was asked
/// of nobody in `m`.
pub open spec fn newly_asked(m: SessionModel, n: SessionModel, slot: PeerSlot, k: int, b: int) -> bool {
    &&& 0 <= k < n.in_progress.len()
    &&& 0 <= b < n.in_progress[k].1.claimed.len()
    &&& n.in_progress[k].1.claimed[b] == Some(slot)
    &&& k < m.in_progress.len() ==> m.in_progress[k].1.claimed[b] is None
}

/// The request is the one for block `b` of the piece at place `k`: it starts at
/// the block and ends with it or with the piece.
pub open spec fn request_of(n: SessionModel, k: int, b: int, req: BlockRequest) -> bool {
    let size = n.params.size_of(n.in_progress[k].0 as int);
    &&& req.piece == n.in_progress[k].0
    &&& req.offset == b * 16384
    &&& 0 < req.length <= 16384
    &&& req.offset + req.length <= size
    &&& req.length < 16384 ==> req.offset + req.length == size
}

/// A request in order: it goes to a connected peer that does not choke us, for a
/// block that nobody was asked for and that is not here, of a piece that the peer
/// has and that is missing.
pub open spec fn in_order(m: SessionModel, n: SessionModel, slot: PeerSlot, req: BlockRequest) -> bool {
    &&& exists|i: int|
        0 <= i < m.peers.len() && (#[trigger] m.peers[i]).0 == slot && !m.peers[i].1.choking_us
            && m.peers[i].1.have[req.piece as int]
    &&& req.piece < m.params.piece_count
    &&& !m.picker.have[req.piece as int]
    &&& exists|k: int, b: int| #[trigger]
        newly_asked(m, n, slot, k, b) && request_of(n, k, b, req)
            && !n.in_progress[k].1.received[b]
}

/// What is sent is exactly the requests for the blocks that are newly asked for.
pub open spec fn requests_match(m: SessionModel, n: SessionModel, told: Seq<Deed>) -> bool {
    &&& forall|j: int|
        0 <= j < told.len() ==> ((#[trigger] told[j]) matches Deed::Send(
            slot,
            PeerNote::Request(req),
        ) && in_order(m, n, slot, req))
    &&& forall|slot: PeerSlot, k: int, b: int| #[trigger]
        newly_asked(m, n, slot, k, b) ==> exists|j: int|
            0 <= j < told.len() && (#[trigger] told[j] matches Deed::Send(
                to,
                PeerNote::Request(req),
            ) && to == slot && request_of(n, k, b, req))
}

/// How many of these messages go to `slot`.
pub open spec fn sent_to(told: Seq<Deed>, slot: PeerSlot) -> nat
    decreases told.len(),
{
    if told.len() == 0 {
        0
    } else {
        sent_to(told.drop_last(), slot) + (match told.last() {
            Deed::Send(to, _) if to == slot => 1nat,
            _ => 0nat,
        })
    }
}

/// As many requests more are under way on each peer as it was sent.
pub open spec fn flights_match(m: SessionModel, n: SessionModel, told: Seq<Deed>) -> bool {
    forall|i: int|
        0 <= i < m.peers.len() ==> (#[trigger] n.peers[i]).1.in_flight == m.peers[i].1.in_flight
            + sent_to(told, m.peers[i].0)
}

proof fn lemma_sent_to_add(a: Seq<Deed>, b: Seq<Deed>, slot: PeerSlot)
    ensures
        sent_to(a + b, slot) == sent_to(a, slot) + sent_to(b, slot),
    decreases b.len(),
{
    if b.len() == 0 {
        assert(a + b =~= a);
    } else {
        assert((a + b).drop_last() =~= a + b.drop_last());
        lemma_sent_to_add(a, b.drop_last(), slot);
    }
}

proof fn lemma_grown_composes(l: SessionModel, m: SessionModel, n: SessionModel)
    requires
        grown(l, m),
        grown(m, n),
    ensures
        grown(l, n),
{
    assert forall|i: int| 0 <= i < l.peers.len() implies {
        &&& (#[trigger] n.peers[i]).0 == l.peers[i].0
        &&& n.peers[i].1 == (PeerModel { in_flight: n.peers[i].1.in_flight, ..l.peers[i].1 })
        &&& n.peers[i].1.in_flight >= l.peers[i].1.in_flight
    } by {
        assert(m.peers[i].0 == l.peers[i].0);
    }
    assert forall|k: int| 0 <= k < l.in_progress.len() implies {
        &&& (#[trigger] n.in_progress[k]).0 == l.in_progress[k].0
        &&& n.in_progress[k].1.buffer == l.in_progress[k].1.buffer
        &&& n.in_progress[k].1.received == l.in_progress[k].1.received
        &&& n.in_progress[k].1.claimed.len() == l.in_progress[k].1.claimed.len()
    } by {
        assert(m.in_progress[k].0 == l.in_progress[k].0);
    }
    assert forall|k: int, b: int|
        0 <= k < l.in_progress.len() && 0 <= b < l.in_progress[k].1.claimed.len()
            && l.in_progress[k].1.claimed[b] is Some implies #[trigger] n.in_progress[k].1.claimed[b]
        == l.in_progress[k].1.claimed[b] by {
        assert(m.in_progress[k].0 == l.in_progress[k].0);
        assert(m.in_progress[k].1.claimed[b] == l.in_progress[k].1.claimed[b]);
    }
    assert forall|k: int, b: int|
        l.in_progress.len() <= k < n.in_progress.len() && 0 <= b
            < n.in_progress[k].1.received.len() implies !#[trigger] n.in_progress[k].1.received[b] by {
        if k < m.in_progress.len() {
            assert(n.in_progress[k].0 == m.in_progress[k].0);
            assert(!m.in_progress[k].1.received[b]);
        }
    }
}

proof fn lemma_requests_compose(
    l: SessionModel,
    m: SessionModel,
    n: SessionModel,
    first: Seq<Deed>,
    rest: Seq<Deed>,
)
    requires
        grown(l, m),
        grown(m, n),
        requests_match(l, m, first),
        requests_match(m, n, rest),
        flights_match(l, m, first),
        flights_match(m, n, rest),
    ensures
        requests_match(l, n, first + rest),
        flights_match(l, n, first + rest),
{
    let told = first + rest;
    assert forall|j: int| 0 <= j < told.len() implies ((#[trigger] told[j]) matches Deed::Send(
        slot,
        PeerNote::Request(req),
    ) && in_order(l, n, slot, req)) by {
        if j < first.len() {
            assert(told[j] == first[j]);
            let slot = first[j]->Send_0;
            let req = first[j]->Send_1->Request_0;
            assert(in_order(l, m, slot, req));
            let (k, b) = choose|k: int, b: int| #[trigger]
                newly_asked(l, m, slot, k, b) && request_of(m, k, b, req)
                    && !m.in_progress[k].1.received[b];
            assert(n.in_progress[k].0 == m.in_progress[k].0);
            assert(n.in_progress[k].1.claimed[b] == m.in_progress[k].1.claimed[b]);
            assert(newly_asked(l, n, slot, k, b));
            assert(request_of(n, k, b, req));
        } else {
            assert(told[j] == rest[j - first.len()]);
            let slot = told[j]->Send_0;
            let req = told[j]->Send_1->Request_0;
            assert(in_order(m, n, slot, req));
            let i = choose|i: int|
                0 <= i < m.peers.len() && (#[trigger] m.peers[i]).0 == slot
                    && !m.peers[i].1.choking_us && m.peers[i].1.have[req.piece as int];
            assert(m.peers[i].0 == l.peers[i].0);
            assert(l.peers[i].1.have == m.peers[i].1.have);
            let (k, b) = choose|k: int, b: int| #[trigger]
                newly_asked(m, n, slot, k, b) && request_of(n, k, b, req)
                    && !n.in_progress[k].1.received[b];
            if k < l.in_progress.len() {
                assert(m.in_progress[k].0 == l.in_progress[k].0);
                if l.in_progress[k].1.claimed[b] is Some {
                    assert(m.in_progress[k].1.claimed[b] == l.in_progress[k].1.claimed[b]);
                }
            }
            assert(newly_asked(l, n, slot, k, b));
        }
    }
    assert forall|slot: PeerSlot, k: int, b: int| #[trigger]
        newly_asked(l, n, slot, k, b) implies exists|j: int|
        0 <= j < told.len() && (#[trigger] told[j] matches Deed::Send(to, PeerNote::Request(req))
            && to == slot && request_of(n, k, b, req)) by {
        if newly_asked(m, n, slot, k, b) {
            let j = choose|j: int|
                0 <= j < rest.len() && (#[trigger] rest[j] matches Deed::Send(
                    to,
                    PeerNote::Request(req),
                ) && to == slot && request_of(n, k, b, req));
            assert(told[first.len() + j] == rest[j]);
        } else {
            assert(k < m.in_progress.len());
            assert(n.in_progress[k].0 == m.in_progress[k].0);
            assert(m.in_progress[k].1.claimed[b] is Some);
            assert(n.in_progress[k].1.claimed[b] == m.in_progress[k].1.claimed[b]);
            assert(newly_asked(l, m, slot, k, b));
            let j = choose|j: int|
                0 <= j < first.len() && (#[trigger] first[j] matches Deed::Send(
                    to,
                    PeerNote::Request(req),
                ) && to == slot && request_of(m, k, b, req));
            assert(told[j] == first[j]);
            assert(request_of(n, k, b, first[j]->Send_1->Request_0));
        }
    }
    assert forall|i: int| 0 <= i < l.peers.len() implies (#[trigger] n.peers[i]).1.in_flight
        == l.peers[i].1.in_flight + sent_to(told, l.peers[i].0) by {
        lemma_sent_to_add(first, rest, l.peers[i].0);
        assert(m.peers[i].0 == l.peers[i].0);
        assert(m.peers[i].1.in_flight == l.peers[i].1.in_flight + sent_to(first, l.peers[i].0));
    }
}

proof fn lemma_nothing_asked(m: SessionModel)
    ensures
        grown(m, m),
        requests_match(m, m, Seq::empty()),
        flights_match(m, m, Seq::empty()),
{
}

/// Asking for one block asks for it alone.
proof fn lemma_assign(m: SessionModel, slot: PeerSlot)
    requires
        m.wf(),
        m.assign(slot) is Some,
        m.peers[find_key(m.peers, slot)->0].1.can_request(),
    ensures
        ({
            let (n, told) = m.assign(slot)->0;
            &&& grown(m, n)
            &&& requests_match(m, n, told)
            &&& flights_match(m, n, told)
            &&& n.room(slot) == m.room(slot) - 1
            &&& covered(m) ==> covered(n)
        }),
{
    let (n, told) = m.assign(slot)->0;
    lemma_find(m.peers, slot);
    let i = find_key(m.peers, slot)->0;
    let have = m.peers[i].1.have;
    lemma_first_eligible(m, have, 0);
    let p = m.first_eligible(have, 0)->0;
    let piece = p as u32;
    let mid = m.with_piece(piece);
    lemma_with_piece_keeps(m, piece);
    lemma_find(m.in_progress, piece);
    let k = find_key(mid.in_progress, piece)->0;
    let q = mid.in_progress[k].1;
    lemma_first_free(q, 0);
    let b = q.first_free(0)->0;
    lemma_workable(m.params, p);
    if find_key(m.in_progress, piece) is None {
        lemma_started(m, piece);
    }
    assert(mid.in_progress[k].1.wf(mid.params.size_of(mid.in_progress[k].0 as int)));
    let size = m.params.size_of(p);
    let req = told[0]->Send_1->Request_0;
    assert(b * 16384 < size) by {
        assert(b <= q.received.len() - 1);
    }
    assert(newly_asked(m, n, slot, k, b));
    assert(request_of(n, k, b, req));
    assert(in_order(m, n, slot, req));
    assert forall|s: PeerSlot, x: int, c: int| #[trigger] newly_asked(m, n, s, x, c) implies s == slot && x
        == k && c == b by {
        if x == k && c == b {
        } else if x < m.in_progress.len() {
            assert(n.in_progress[x].1.claimed[c] == m.in_progress[x].1.claimed[c]);
        } else {
            assert(q.claimed[c] is None);
        }
    }
    assert(told.drop_last() =~= Seq::<Deed>::empty());
    assert(sent_to(told.drop_last(), slot) == 0);
    assert forall|j: int| 0 <= j < m.peers.len() implies (#[trigger] n.peers[j]).1.in_flight
        == m.peers[j].1.in_flight + sent_to(told, m.peers[j].0) by {
        assert(sent_to(told.drop_last(), m.peers[j].0) == 0);
        if j != i {
            assert(m.peers[j].0 != m.peers[i].0);
        }
    }
    assert(n.peers[i].0 == slot);
    assert forall|j: int| 0 <= j < i implies (#[trigger] n.peers[j]).0 != slot by {
        assert(n.peers[j].0 == m.peers[j].0);
    }
    crate::keyed::lemma_find_at(n.peers, slot, i);
    if covered(m) {
        assert forall|x: int| 0 <= x < n.in_progress.len() implies n.params.size_of(
            (#[trigger] n.in_progress[x]).0 as int,
        ) <= n.in_progress[x].1.received.len() * 16384 by {
            if x < m.in_progress.len() {
                assert(n.in_progress[x].0 == m.in_progress[x].0);
                assert(m.params.size_of(m.in_progress[x].0 as int)
                    <= m.in_progress[x].1.received.len() * 16384);
            }
        }
    }
}

/// A peer with the pieces `have` has no block left to be asked for: each piece
/// that it has and that is missing is in progress, with every block here or asked
/// for, or has no byte.
pub open spec fn nothing_left(n: SessionModel, have: Seq<bool>) -> bool {
    forall|p: int|
        0 <= p < n.params.piece_count && #[trigger] have[p] && !n.picker.have[p] ==> {
            ||| n.params.size_of(p) == 0
            ||| exists|k: int|
                0 <= k < n.in_progress.len() && (#[trigger] n.in_progress[k]).0 == p && forall|
                    b: int,
                |
                    0 <= b < n.in_progress[k].1.received.len() ==> n.in_progress[k].1.received[b]
                        || (#[trigger] n.in_progress[k].1.claimed[b]) is Some
        }
}

/// The peer chokes us, has as much under way as it may, or has no block left to
/// be asked for.
pub open spec fn busy(n: SessionModel, i: int) -> bool {
    let p = n.peers[i].1;
    p.choking_us || p.in_flight >= p.max_in_flight || nothing_left(n, p.have)
}

proof fn lemma_busy_stays(m: SessionModel, n: SessionModel, i: int)
    requires
        grown(m, n),
        m.wf(),
        0 <= i < m.peers.len(),
        busy(m, i),
    ensures
        busy(n, i),
{
    assert(n.peers[i].0 == m.peers[i].0);
    let have = m.peers[i].1.have;
    if nothing_left(m, have) {
        assert forall|p: int|
            0 <= p < n.params.piece_count && #[trigger] have[p] && !n.picker.have[p] implies {
            ||| n.params.size_of(p) == 0
            ||| exists|k: int|
                0 <= k < n.in_progress.len() && (#[trigger] n.in_progress[k]).0 == p && forall|
                    b: int,
                |
                    0 <= b < n.in_progress[k].1.received.len() ==> n.in_progress[k].1.received[b]
                        || (#[trigger] n.in_progress[k].1.claimed[b]) is Some
        } by {
            if n.params.size_of(p) != 0 {
                let k = choose|k: int|
                    0 <= k < m.in_progress.len() && (#[trigger] m.in_progress[k]).0 == p && forall|
                        b: int,
                    |
                        0 <= b < m.in_progress[k].1.received.len()
                            ==> m.in_progress[k].1.received[b] || (
                        #[trigger] m.in_progress[k].1.claimed[b]) is Some;
                assert(n.in_progress[k].0 == m.in_progress[k].0);
                assert(m.in_progress[k].1.wf(m.params.size_of(m.in_progress[k].0 as int)));
                assert forall|b: int| 0 <= b < n.in_progress[k].1.received.len() implies n.in_progress[k].1.received[b]
                    || (#[trigger] n.in_progress[k].1.claimed[b]) is Some by {
                    assert(m.in_progress[k].1.received[b] || m.in_progress[k].1.claimed[b] is Some);
                }
            }
        }
    }
}

proof fn lemma_no_assignment(m: SessionModel, slot: PeerSlot)
    requires
        m.wf(),
        covered(m),
        m.assign(slot) is None,
        find_key(m.peers, slot) is Some,
    ensures
        nothing_left(m, m.peers[find_key(m.peers, slot)->0].1.have),
{
    lemma_find(m.peers, slot);
    let i = find_key(m.peers, slot)->0;
    let have = m.peers[i].1.have;
    lemma_first_eligible(m, have, 0);
    if let Some(p) = m.first_eligible(have, 0) {
        let piece = p as u32;
        lemma_with_piece_keeps(m, piece);
        lemma_find(m.in_progress, piece);
        lemma_workable(m.params, p);
        let mid = m.with_piece(piece);
        let k = find_key(mid.in_progress, piece)->0;
        let q = mid.in_progress[k].1;
        lemma_first_free(q, 0);
        assert(mid.in_progress[k].1.wf(mid.params.size_of(mid.in_progress[k].0 as int)));
        if find_key(m.in_progress, piece) is None {
            lemma_started(m, piece);
            assert(q.free(0));
        } else {
            let b = choose|b: int| #[trigger] open_block(q, b) && 0 <= b < m.params.blocks_of(p);
            assert(m.params.size_of(m.in_progress[k].0 as int)
                <= m.in_progress[k].1.received.len() * 16384);
            assert(b < q.received.len());
            assert(q.free(b));
        }
    } else {
        assert forall|p: int|
            0 <= p < m.params.piece_count && #[trigger] have[p] && !m.picker.have[p] implies {
            ||| m.params.size_of(p) == 0
            ||| exists|k: int|
                0 <= k < m.in_progress.len() && (#[trigger] m.in_progress[k]).0 == p && forall|
                    b: int,
                |
                    0 <= b < m.in_progress[k].1.received.len() ==> m.in_progress[k].1.received[b]
                        || (#[trigger] m.in_progress[k].1.claimed[b]) is Some
        } by {
            assert(!m.eligible(have, p));
            lemma_find(m.in_progress, p as u32);
            lemma_workable(m.params, p);
            if let Some(k) = find_key(m.in_progress, p as u32) {
                let q = m.in_progress[k].1;
                assert(q.wf(m.params.size_of(m.in_progress[k].0 as int)));
                assert forall|b: int| 0 <= b < q.received.len() implies q.received[b] || (
                #[trigger] m.in_progress[k].1.claimed[b]) is Some by {
                    if !q.received[b] && q.claimed[b] is None {
                        assert(open_block(q, b));
                        assert(b * 16384 < m.params.size_of(p)) by {
                            assert(b <= q.received.len() - 1);
                        }
                        assert(b < m.params.blocks_of(p));
                        assert(m.has_open_block(q, p));
                    }
                }
            }
        }
    }
}

proof fn lemma_fill(m: SessionModel, slot: PeerSlot, room: nat)
    requires
        m.wf(),
    ensures
        ({
            let (n, told) = m.fill(slot, room);
            &&& grown(m, n)
            &&& requests_match(m, n, told)
            &&& flights_match(m, n, told)
            &&& covered(m) ==> covered(n)
            &&& (covered(m) && find_key(m.peers, slot) is Some && room >= m.room(slot)) ==> busy(
                n,
                find_key(m.peers, slot)->0,
            )
        }),
    decreases room,
{
    lemma_find(m.peers, slot);
    lemma_nothing_asked(m);
    if let Some(i) = find_key(m.peers, slot) {
        if room > 0 && m.peers[i].1.can_request() {
            match m.assign(slot) {
                None => {
                    if covered(m) {
                        lemma_no_assignment(m, slot);
                    }
                },
                Some((next, first)) => {
                    lemma_assign(m, slot);
                    lemma_assign_keeps(m, slot);
                    lemma_fill(next, slot, (room - 1) as nat);
                    let (end, rest) = next.fill(slot, (room - 1) as nat);
                    lemma_grown_composes(m, next, end);
                    lemma_requests_compose(m, next, end, first, rest);
                    assert(next.slots() == m.slots());
                    assert forall|j: int| 0 <= j < m.peers.len() implies (
                    #[trigger] next.peers[j]).0 == m.peers[j].0 by {
                        assert(next.slots()[j] == m.slots()[j]);
                    }
                    crate::keyed::lemma_find_same_keys(next.peers, m.peers, slot);
                },
            }
        }
    }
}

proof fn lemma_fill_all(m: SessionModel, slots: Seq<PeerSlot>)
    requires
        m.wf(),
    ensures
        ({
            let (n, told) = m.fill_all(slots);
            &&& grown(m, n)
            &&& requests_match(m, n, told)
            &&& flights_match(m, n, told)
            &&& covered(m) ==> covered(n)
            &&& covered(m) ==> forall|i: int|
                0 <= i < m.peers.len() && slots.contains((#[trigger] m.peers[i]).0) ==> busy(n, i)
        }),
    decreases slots.len(),
{
    lemma_nothing_asked(m);
    if slots.len() > 0 {
        let front = slots.drop_last();
        let slot = slots.last();
        let (mid, first) = m.fill_all(front);
        lemma_fill_all(m, front);
        lemma_fill_all_keeps(m, front);
        let (end, last) = mid.fill(slot, mid.room(slot));
        lemma_fill(mid, slot, mid.room(slot));
        lemma_grown_composes(m, mid, end);
        lemma_requests_compose(m, mid, end, first, last);
        if covered(m) {
            assert forall|i: int|
                0 <= i < m.peers.len() && slots.contains((#[trigger] m.peers[i]).0) implies busy(
                end,
                i,
            ) by {
                assert(mid.peers[i].0 == m.peers[i].0);
                if m.peers[i].0 == slot {
                    lemma_find_unique(mid.peers, i);
                } else {
                    let x = choose|x: int| 0 <= x < slots.len() && slots[x] == m.peers[i].0;
                    assert(front[x] == m.peers[i].0);
                    lemma_busy_stays(mid, end, i);
                }
            }
        }
    }
}

/// Blocks are asked for as long as there is anything to ask: what is sent are the
/// requests for the blocks that are newly asked for, each in order and each
/// once more under way on its peer; nothing that was here or asked for is lost;
/// and afterwards every peer chokes us, has as much under way as it may, or has
/// no block left to be asked for.
pub proof fn law_every_free_block_is_asked_for(m: SessionModel)
    requires
        m.wf(),
        m.state is Downloading,
    ensures
        ({
            let (n, told) = m.scheduled();
            &&& grown(m, n)
            &&& requests_match(m, n, told)
            &&& flights_match(m, n, told)
            &&& covered(m) ==> covered(n)
            &&& covered(m) ==> forall|i: int| 0 <= i < m.peers.len() ==> #[trigger] busy(n, i)
        }),
{
    lemma_fill_all(m, m.slots());
    let (n, told) = m.scheduled();
    if covered(m) {
        assert forall|i: int| 0 <= i < m.peers.len() implies #[trigger] busy(n, i) by {
            assert(m.slots()[i] == m.peers[i].0);
            assert(m.slots().contains(m.peers[i].0));
        }
    }
}

proof fn lemma_asked_behind(mid: SessionModel, first: Seq<Deed>)
    requires
        mid.wf(),
        mid.state is Downloading,
    ensures
        ({
            let (n, rest) = mid.scheduled();
            let told = first + rest;
            &&& told.len() >= first.len()
            &&& told.take(first.len() as int) == first
            &&& grown(mid, n)
            &&& requests_match(mid, n, told.skip(first.len() as int))
            &&& flights_match(mid, n, told.skip(first.len() as int))
            &&& covered(mid) ==> forall|i: int| 0 <= i < mid.peers.len() ==> #[trigger] busy(n, i)
        }),
{
    law_every_free_block_is_asked_for(mid);
    let rest = mid.scheduled().1;
    assert((first + rest).take(first.len() as int) =~= first);
    assert((first + rest).skip(first.len() as int) =~= rest);
}

/// After every event, unless it ends the session, blocks are asked for as long as
/// there is anything to ask, where the torrent is neither complete nor paused. What
/// the event itself has to say comes first.
#[verifier::rlimit(50)]
pub proof fn law_blocks_are_asked_for_after_every_event(
    m: SessionModel,
    event: SessionEvent,
    now: u64,
)
    requires
        m.wf(),
        possible(m, event),
        on_event(m, event, now).0.wf(),
    ensures
        ({
            let (mid, first) = on_event(m, event, now);
            let (n, told) = after_event(m, event, now);
            let over = event is Closed || event == SessionEvent::Command(
                SessionCommand::Shutdown,
            );
            &&& (over || mid.state is Completed || mid.paused) ==> n == mid && told == first
            &&& (!over && mid.state is Downloading && !mid.paused) ==> {
                &&& told.len() >= first.len()
                &&& told.take(first.len() as int) == first
                &&& grown(mid, n)
                &&& requests_match(mid, n, told.skip(first.len() as int))
                &&& flights_match(mid, n, told.skip(first.len() as int))
                &&& covered(mid) ==> forall|i: int|
                    0 <= i < mid.peers.len() ==> #[trigger] busy(n, i)
            }
        }),
{
    let (mid, first) = on_event(m, event, now);
    if mid.state is Downloading {
        lemma_asked_behind(mid, first);
    }
}

/// The blocks of every piece in progress cover it from the start, and still do after
/// every event that leaves the torrent's parameters as they are.
pub proof fn law_blocks_cover_their_pieces(m: SessionModel, event: SessionEvent, now: u64)
    requires
        m.wf(),
        covered(m),
        !(event is MetadataVerified),
    ensures
        m.in_progress.len() == 0 ==> covered(m),
        covered(on_event(m, event, now).0),
{
    let n = on_event(m, event, now).0;
    match event {
        SessionEvent::Completion { piece, result } => {
            lemma_less_is_covered(m, piece);
        },
        SessionEvent::DiskGone { piece } => {
            lemma_less_is_covered(m, piece);
        },
        SessionEvent::Command(SessionCommand::Pause) => {
            lemma_pause_is_covered(m);
        },
        SessionEvent::PexTick => {
            lemma_round_is_covered(m, now);
        },
        SessionEvent::Peer(msg) => {
            lemma_word_is_covered(m, msg, now);
        },
        _ => {},
    }
}

proof fn lemma_less_is_covered(m: SessionModel, piece: u32)
    requires
        covered(m),
        m.wf(),
    ensures
        covered(m.without_piece(piece)),
{
    let n = m.without_piece(piece);
    lemma_find(m.in_progress, piece);
    if let Some(at) = find_key(m.in_progress, piece) {
        assert forall|k: int| 0 <= k < n.in_progress.len() implies n.params.size_of(
            (#[trigger] n.in_progress[k]).0 as int,
        ) <= n.in_progress[k].1.received.len() * 16384 by {
            let j = if k < at { k } else { k + 1 };
            assert(n.in_progress[k] == m.in_progress[j]);
        }
    }
}

proof fn lemma_same_blocks_are_covered(m: SessionModel, n: SessionModel)
    requires
        covered(m),
        n.params == m.params,
        n.in_progress.len() == m.in_progress.len(),
        forall|k: int|
            0 <= k < m.in_progress.len() ==> (#[trigger] n.in_progress[k]).0 == m.in_progress[k].0
                && n.in_progress[k].1.received.len() == m.in_progress[k].1.received.len(),
    ensures
        covered(n),
{
    assert forall|k: int| 0 <= k < n.in_progress.len() implies n.params.size_of(
        (#[trigger] n.in_progress[k]).0 as int,
    ) <= n.in_progress[k].1.received.len() * 16384 by {
        assert(m.params.size_of(m.in_progress[k].0 as int) <= m.in_progress[k].1.received.len()
            * 16384);
    }
}

proof fn lemma_pause_is_covered(m: SessionModel)
    requires
        m.wf(),
        covered(m),
    ensures
        covered(m.pausing(true).0),
{
    if !m.paused {
        law_pause_chokes_and_cancels(m, 0);
        lemma_same_blocks_are_covered(m, m.pausing(true).0);
    }
}

proof fn lemma_round_is_covered(m: SessionModel, now: u64)
    requires
        m.wf(),
        covered(m),
    ensures
        covered(m.pex_round(now).0),
{
    law_exchange_tells_what_changed(m, now);
}

proof fn lemma_word_is_covered(m: SessionModel, msg: PeerToSession, now: u64)
    requires
        m.wf(),
        covered(m),
    ensures
        covered(on_message(m, msg, now).0),
{
    let n = on_message(m, msg, now).0;
    match msg {
        PeerToSession::Disconnected { slot, .. } => {
            lemma_same_blocks_are_covered(m, n);
        },
        PeerToSession::Choked { slot } => {
            law_choke_frees_what_was_asked(m, slot, now);
            lemma_same_blocks_are_covered(m, n);
        },
        PeerToSession::Have { slot, piece } => {
            lemma_same_blocks_are_covered(m, n);
        },
        PeerToSession::Bitfield { slot, .. } => {
            lemma_same_blocks_are_covered(m, n);
        },
        PeerToSession::Rejected { slot, req } => {
            lemma_find(m.in_progress, req.piece);
            lemma_same_blocks_are_covered(m, n);
        },
        PeerToSession::BlockReceived { slot, piece, offset, data } => {
            if piece < m.params.piece_count {
                lemma_with_piece_keeps(m, piece);
                lemma_find(m.in_progress, piece);
                let mid = m.with_piece(piece);
                lemma_workable(m.params, piece as int);
                if find_key(m.in_progress, piece) is None {
                    lemma_started(m, piece);
                    assert forall|k: int| 0 <= k < mid.in_progress.len() implies mid.params.size_of(
                        (#[trigger] mid.in_progress[k]).0 as int,
                    ) <= mid.in_progress[k].1.received.len() * 16384 by {
                        if k < m.in_progress.len() {
                            assert(mid.in_progress[k] == m.in_progress[k]);
                        }
                    }
                }
                assert(covered(mid));
                if offset % 16384 == 0 {
                    crate::session::keeps::lemma_one_less_keeps(mid, slot);
                    lemma_same_blocks_are_covered(mid, n);
                }
            }
        },
        PeerToSession::ExtensionHandshake { slot, metadata_size, listen_port } => {
            let mid = m.told_size(metadata_size).told_port(slot, listen_port);
            lemma_asking_keeps_pieces(mid, slot, 4);
        },
        PeerToSession::ExtensionMessage { slot, input } => {
            if let ExtensionInput::Metadata(Some(note)) = input {
                if let MetadataMessage::Reject { piece } = note {
                    let mid = if m.metadata is Some {
                        SessionModel { metadata: Some(m.metadata->0.unasked(piece)), ..m }
                    } else {
                        m
                    };
                    lemma_asking_all_keeps_pieces(mid, mid.slots());
                }
            }
        },
        _ => {},
    }
}

proof fn lemma_asking_keeps_pieces(m: SessionModel, slot: PeerSlot, n: nat)
    ensures
        m.ask_metadata(slot, n).0.in_progress == m.in_progress,
        m.ask_metadata(slot, n).0.params == m.params,
    decreases n,
{
    if n > 0 && m.metadata is Some {
        if let Some(piece) = next_needed(m.metadata->0) {
            let next = SessionModel { metadata: Some(m.metadata->0.asked(piece, slot)), ..m };
            lemma_asking_keeps_pieces(next, slot, (n - 1) as nat);
        }
    }
}

proof fn lemma_asking_all_keeps_pieces(m: SessionModel, slots: Seq<PeerSlot>)
    ensures
        m.ask_metadata_all(slots).0.in_progress == m.in_progress,
        m.ask_metadata_all(slots).0.params == m.params,
    decreases slots.len(),
{
    if slots.len() > 0 && m.metadata is Some && next_needed(m.metadata->0) is Some {
        lemma_asking_keeps_pieces(m, slots[0], 4);
        lemma_asking_all_keeps_pieces(m.ask_metadata_of(slots[0]).0, slots.drop_first());
    }
}

} // verus!
