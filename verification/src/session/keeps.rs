//! What every event of a session keeps: each step leads from a well-formed
//! session to a well-formed one.
use crate::ids::PeerSlot;
use crate::keyed::{find_key, lemma_find, lemma_find_at, lemma_find_same_keys};
use crate::picker::{count_missing, lowered, raised};
use crate::session::disk::DiskError;
use crate::session::messages::PeerNote;
use crate::session::model::{
    all_claims, count_having, new_peer, next_needed, PeerModel, PieceModel, SessionModel,
};
use crate::session::params::{lemma_workable, BlockRequest, ParamsModel, BLOCK_SIZE};
use vstd::prelude::*;

verus! {

pub proof fn lemma_count_bound(peers: Seq<(PeerSlot, PeerModel)>, p: int)
    ensures
        count_having(peers, p) <= peers.len(),
    decreases peers.len(),
{
    if peers.len() > 0 {
        lemma_count_bound(peers.drop_last(), p);
    }
}

/// Changing one peer changes the count by that peer alone.
pub proof fn lemma_count_update(
    peers: Seq<(PeerSlot, PeerModel)>,
    i: int,
    e: (PeerSlot, PeerModel),
    p: int,
)
    requires
        0 <= i < peers.len(),
    ensures
        count_having(peers.update(i, e), p) == count_having(peers, p) - (if peers[i].1.have[p] {
            1int
        } else {
            0
        }) + (if e.1.have[p] {
            1int
        } else {
            0
        }),
    decreases peers.len(),
{
    let after = peers.update(i, e);
    if i == peers.len() - 1 {
        assert(after.drop_last() =~= peers.drop_last());
    } else {
        assert(after.drop_last() =~= peers.drop_last().update(i, e));
        lemma_count_update(peers.drop_last(), i, e, p);
    }
}

/// Peers with the same pieces count the same.
pub proof fn lemma_count_same(
    a: Seq<(PeerSlot, PeerModel)>,
    b: Seq<(PeerSlot, PeerModel)>,
    p: int,
)
    requires
        a.len() == b.len(),
        forall|i: int| 0 <= i < a.len() ==> (#[trigger] a[i]).1.have[p] == b[i].1.have[p],
    ensures
        count_having(a, p) == count_having(b, p),
    decreases a.len(),
{
    if a.len() > 0 {
        assert(a[a.len() - 1].1.have[p] == b[b.len() - 1].1.have[p]);
        assert forall|i: int| 0 <= i < a.drop_last().len() implies (
        #[trigger] a.drop_last()[i]).1.have[p] == b.drop_last()[i].1.have[p] by {
            assert(a[i].1.have[p] == b[i].1.have[p]);
        }
        lemma_count_same(a.drop_last(), b.drop_last(), p);
    }
}

/// Removing one peer lowers the count by that peer alone.
pub proof fn lemma_count_remove(peers: Seq<(PeerSlot, PeerModel)>, i: int, p: int)
    requires
        0 <= i < peers.len(),
    ensures
        count_having(peers.remove(i), p) == count_having(peers, p) - (if peers[i].1.have[p] {
            1int
        } else {
            0
        }),
    decreases peers.len(),
{
    let after = peers.remove(i);
    if i == peers.len() - 1 {
        assert(after =~= peers.drop_last());
    } else {
        assert(after.drop_last() =~= peers.drop_last().remove(i));
        assert(after.last() == peers.last());
        lemma_count_remove(peers.drop_last(), i, p);
    }
}

/// A peer may change in all but its pieces.
pub proof fn lemma_set_peer_keeps(m: SessionModel, i: int, p: PeerModel)
    requires
        m.wf(),
        0 <= i < m.peers.len(),
        p.have == m.peers[i].1.have,
        p.in_flight <= p.max_in_flight,
        m.paused ==> p.we_choking,
    ensures
        m.set_peer(i, p).wf(),
        forall|s: PeerSlot| #[trigger] find_key(m.set_peer(i, p).peers, s) == find_key(m.peers, s),
{
    let n = m.set_peer(i, p);
    assert forall|s: PeerSlot| #[trigger] find_key(n.peers, s) == find_key(m.peers, s) by {
        lemma_find_same_keys(n.peers, m.peers, s);
    }
    assert forall|a: int, b: int|
        0 <= a < n.peers.len() && 0 <= b < n.peers.len() && a != b implies (#[trigger] n.peers[a]).0
        != (#[trigger] n.peers[b]).0 by {
        assert(m.peers[a].0 != m.peers[b].0);
    }
    assert forall|x: int| 0 <= x < n.params.piece_count implies #[trigger] n.picker.availability[x]
        == count_having(n.peers, x) by {
        lemma_count_update(m.peers, i, (m.peers[i].0, p), x);
    }
}

/// All peers may change in all but their pieces.
pub proof fn lemma_set_peers_keeps(m: SessionModel, peers: Seq<(PeerSlot, PeerModel)>)
    requires
        m.wf(),
        peers.len() == m.peers.len(),
        forall|i: int|
            0 <= i < peers.len() ==> {
                &&& (#[trigger] peers[i]).0 == m.peers[i].0
                &&& peers[i].1.have == m.peers[i].1.have
                &&& peers[i].1.in_flight <= peers[i].1.max_in_flight
                &&& m.paused ==> peers[i].1.we_choking
            },
    ensures
        (SessionModel { peers, ..m }).wf(),
        forall|s: PeerSlot| #[trigger] find_key(peers, s) == find_key(m.peers, s),
{
    let n = SessionModel { peers, ..m };
    assert forall|s: PeerSlot| #[trigger] find_key(n.peers, s) == find_key(m.peers, s) by {
        lemma_find_same_keys(n.peers, m.peers, s);
    }
    assert forall|a: int, b: int|
        0 <= a < n.peers.len() && 0 <= b < n.peers.len() && a != b implies (#[trigger] n.peers[a]).0
        != (#[trigger] n.peers[b]).0 by {
        assert(m.peers[a].0 != m.peers[b].0);
    }
    assert forall|x: int| 0 <= x < n.params.piece_count implies #[trigger] n.picker.availability[x]
        == count_having(n.peers, x) by {
        lemma_count_same(n.peers, m.peers, x);
    }
}

/// The counters follow a peer whose pieces change.
pub proof fn lemma_peer_has_keeps(m: SessionModel, slot: PeerSlot, have: Seq<bool>, all: bool)
    requires
        m.wf(),
        have.len() == m.params.piece_count,
    ensures
        m.peer_has(slot, have, all).wf(),
{
    lemma_find(m.peers, slot);
    if let Some(i) = find_key(m.peers, slot) {
        let p = m.peers[i].1;
        let q = PeerModel { have, announced_have_all: p.announced_have_all || all, ..p };
        let e = (m.peers[i].0, q);
        let n = m.peer_has(slot, have, all);
        assert forall|s: PeerSlot| #[trigger] find_key(n.peers, s) == find_key(m.peers, s) by {
            lemma_find_same_keys(n.peers, m.peers, s);
        }
        assert forall|a: int, b: int|
            0 <= a < n.peers.len() && 0 <= b < n.peers.len() && a != b implies (
        #[trigger] n.peers[a]).0 != (#[trigger] n.peers[b]).0 by {
            assert(m.peers[a].0 != m.peers[b].0);
        }
        assert forall|x: int|
            0 <= x < n.params.piece_count implies #[trigger] n.picker.availability[x]
            == count_having(n.peers, x) by {
            lemma_count_update(m.peers, i, e, x);
            lemma_count_bound(m.peers, x);
            lemma_count_bound(n.peers, x);
            lemma_count_remove(m.peers, i, x);
            assert(n.peers == m.peers.update(i, e));
            assert(m.picker.availability[x] == count_having(m.peers, x));
            let mid = lowered(m.picker.availability, p.have);
            assert(mid[x] == m.picker.availability[x] - (if p.have[x] {
                1int
            } else {
                0
            }));
            assert(n.picker.availability == raised(mid, have));
        }
    }
}

/// The counters follow a peer that has one piece more.
pub proof fn lemma_one_more_piece(m: SessionModel, slot: PeerSlot, piece: u32)
    requires
        m.wf(),
        piece < m.params.piece_count,
    ensures
        m.peer_gains(slot, piece).wf(),
{
    lemma_find(m.peers, slot);
    if let Some(i) = find_key(m.peers, slot) {
        let p = m.peers[i].1;
        if !p.have[piece as int] {
            let q = PeerModel { have: p.have.update(piece as int, true), ..p };
            let e = (m.peers[i].0, q);
            let n = m.peer_gains(slot, piece);
            assert forall|s: PeerSlot| #[trigger] find_key(n.peers, s) == find_key(m.peers, s) by {
                lemma_find_same_keys(n.peers, m.peers, s);
            }
            assert forall|a: int, b: int|
                0 <= a < n.peers.len() && 0 <= b < n.peers.len() && a != b implies (
            #[trigger] n.peers[a]).0 != (#[trigger] n.peers[b]).0 by {
                assert(m.peers[a].0 != m.peers[b].0);
            }
            assert forall|x: int|
                0 <= x < n.params.piece_count implies #[trigger] n.picker.availability[x]
                == count_having(n.peers, x) by {
                lemma_count_update(m.peers, i, e, x);
                lemma_count_bound(n.peers, x);
                assert(m.picker.availability[x] == count_having(m.peers, x));
            }
        }
    }
}

/// A new peer has no pieces and changes no counter.
pub proof fn law_register_keeps(m: SessionModel, slot: PeerSlot, max_in_flight: u32, fast: bool)
    requires
        m.wf(),
        m.peers.len() < u32::MAX,
    ensures
        m.register(slot, max_in_flight, fast).0.wf(),
        find_key(m.register(slot, max_in_flight, fast).0.peers, slot) is Some,
{
    lemma_find(m.peers, slot);
    if find_key(m.peers, slot) is None {
        let n = m.register(slot, max_in_flight, fast).0;
        let e = (slot, new_peer(m.params.piece_count, max_in_flight));
        assert(n.peers == m.peers.push(e));
        assert forall|a: int, b: int|
            0 <= a < n.peers.len() && 0 <= b < n.peers.len() && a != b implies (
        #[trigger] n.peers[a]).0 != (#[trigger] n.peers[b]).0 by {
            if a < m.peers.len() {
                assert(m.peers[a].0 != slot);
            }
            if b < m.peers.len() {
                assert(m.peers[b].0 != slot);
            }
        }
        assert forall|x: int|
            0 <= x < n.params.piece_count implies #[trigger] n.picker.availability[x]
            == count_having(n.peers, x) by {
            assert(n.peers.drop_last() =~= m.peers);
            assert(m.picker.availability[x] == count_having(m.peers, x));
        }
        assert forall|i: int, b: int|
            0 <= i < n.in_progress.len() && 0 <= b < n.in_progress[i].1.claimed.len()
                && #[trigger] n.in_progress[i].1.claimed[b] is Some implies find_key(
            n.peers,
            n.in_progress[i].1.claimed[b]->0,
        ) is Some by {
            let s = m.in_progress[i].1.claimed[b]->0;
            lemma_find(m.peers, s);
            let w = find_key(m.peers, s)->0;
            assert(n.peers[w].0 == s);
            lemma_find(n.peers, s);
        }
        lemma_find_at(n.peers, slot, m.peers.len() as int);
    }
}

/// Giving up the claims of a peer.
pub proof fn lemma_released_keeps(m: SessionModel, slot: PeerSlot)
    requires
        m.wf(),
    ensures
        m.released(slot).wf(),
        forall|i: int, b: int|
            0 <= i < m.in_progress.len() && 0 <= b < m.in_progress[i].1.claimed.len()
                ==> #[trigger] m.released(slot).in_progress[i].1.claimed[b] != Some(slot),
{
    let n = m.released(slot);
    assert forall|a: int, b: int|
        0 <= a < n.in_progress.len() && 0 <= b < n.in_progress.len() && a != b implies (
    #[trigger] n.in_progress[a]).0 != (#[trigger] n.in_progress[b]).0 by {
        assert(m.in_progress[a].0 != m.in_progress[b].0);
    }
    assert forall|i: int| 0 <= i < n.in_progress.len() implies {
        &&& (#[trigger] n.in_progress[i]).0 < n.params.piece_count
        &&& n.in_progress[i].1.wf(n.params.size_of(n.in_progress[i].0 as int))
    } by {
        let q = m.in_progress[i].1;
        assert(m.in_progress[i].0 < m.params.piece_count);
        assert(q.wf(m.params.size_of(m.in_progress[i].0 as int)));
        let r = n.in_progress[i].1;
        assert forall|b: int|
                0 <= b < r.claimed.len() && (#[trigger] r.claimed[b]) is Some implies !r.received[b] by {
            assert(q.claimed[b] is Some ==> !q.received[b]);
        }
    }
    assert forall|i: int, b: int|
        0 <= i < n.in_progress.len() && 0 <= b < n.in_progress[i].1.claimed.len()
            && #[trigger] n.in_progress[i].1.claimed[b] is Some implies find_key(
        n.peers,
        n.in_progress[i].1.claimed[b]->0,
    ) is Some by {
        assert(m.in_progress[i].1.claimed[b] is Some);
    }
}

/// The piece at one place may change, as long as it stays a piece of the torrent
/// and its claims are of connected peers.
pub proof fn lemma_set_piece_keeps(m: SessionModel, k: int, q: PieceModel)
    requires
        m.wf(),
        0 <= k < m.in_progress.len(),
        q.wf(m.params.size_of(m.in_progress[k].0 as int)),
        forall|b: int|
            0 <= b < q.claimed.len() && (#[trigger] q.claimed[b]) is Some ==> find_key(
                m.peers,
                q.claimed[b]->0,
            ) is Some,
    ensures
        m.set_piece(k, q).wf(),
        forall|p: u32| #[trigger]
            find_key(m.set_piece(k, q).in_progress, p) == find_key(m.in_progress, p),
{
    let n = m.set_piece(k, q);
    assert forall|p: u32| #[trigger] find_key(n.in_progress, p) == find_key(m.in_progress, p) by {
        lemma_find_same_keys(n.in_progress, m.in_progress, p);
    }
    assert forall|a: int, b: int|
        0 <= a < n.in_progress.len() && 0 <= b < n.in_progress.len() && a != b implies (
    #[trigger] n.in_progress[a]).0 != (#[trigger] n.in_progress[b]).0 by {
        assert(m.in_progress[a].0 != m.in_progress[b].0);
    }
    assert forall|i: int| 0 <= i < n.in_progress.len() implies {
        &&& (#[trigger] n.in_progress[i]).0 < n.params.piece_count
        &&& n.in_progress[i].1.wf(n.params.size_of(n.in_progress[i].0 as int))
    } by {
        assert(m.in_progress[i].0 < m.params.piece_count);
    }
    assert forall|i: int, b: int|
        0 <= i < n.in_progress.len() && 0 <= b < n.in_progress[i].1.claimed.len()
            && #[trigger] n.in_progress[i].1.claimed[b] is Some implies find_key(
        n.peers,
        n.in_progress[i].1.claimed[b]->0,
    ) is Some by {
        if i != k {
            assert(m.in_progress[i].1.claimed[b] is Some);
        } else {
            assert(q.claimed[b] is Some);
        }
    }
}

/// A piece may be started.
pub proof fn lemma_with_piece_keeps(m: SessionModel, piece: u32)
    requires
        m.wf(),
        piece < m.params.piece_count,
    ensures
        m.with_piece(piece).wf(),
        find_key(m.with_piece(piece).in_progress, piece) is Some,
        ({
            let k = find_key(m.with_piece(piece).in_progress, piece)->0;
            &&& 0 <= k < m.with_piece(piece).in_progress.len()
            &&& m.with_piece(piece).in_progress[k].0 == piece
            &&& find_key(m.in_progress, piece) is None ==> k == m.in_progress.len()
            &&& find_key(m.in_progress, piece) is Some ==> k == find_key(m.in_progress, piece)->0
        }),
{
    lemma_find(m.in_progress, piece);
    let n = m.with_piece(piece);
    if find_key(m.in_progress, piece) is None {
        lemma_workable(m.params, piece as int);
        lemma_find_at(n.in_progress, piece, m.in_progress.len() as int);
        assert forall|a: int, b: int|
            0 <= a < n.in_progress.len() && 0 <= b < n.in_progress.len() && a != b implies (
        #[trigger] n.in_progress[a]).0 != (#[trigger] n.in_progress[b]).0 by {
            if a < m.in_progress.len() {
                assert(m.in_progress[a].0 != piece);
            }
            if b < m.in_progress.len() {
                assert(m.in_progress[b].0 != piece);
            }
        }
        assert forall|i: int| 0 <= i < n.in_progress.len() implies {
            &&& (#[trigger] n.in_progress[i]).0 < n.params.piece_count
            &&& n.in_progress[i].1.wf(n.params.size_of(n.in_progress[i].0 as int))
        } by {
            if i < m.in_progress.len() {
                assert(m.in_progress[i].0 < m.params.piece_count);
            }
        }
        assert forall|i: int, b: int|
            0 <= i < n.in_progress.len() && 0 <= b < n.in_progress[i].1.claimed.len()
                && #[trigger] n.in_progress[i].1.claimed[b] is Some implies find_key(
            n.peers,
            n.in_progress[i].1.claimed[b]->0,
        ) is Some by {
            if i < m.in_progress.len() {
                assert(m.in_progress[i].1.claimed[b] is Some);
            }
        }
    }
}

/// A piece may be given up.
pub proof fn lemma_without_piece_keeps(m: SessionModel, piece: u32)
    requires
        m.wf(),
    ensures
        m.without_piece(piece).wf(),
        find_key(m.without_piece(piece).in_progress, piece) is None,
{
    lemma_find(m.in_progress, piece);
    let n = m.without_piece(piece);
    if let Some(k) = find_key(m.in_progress, piece) {
        assert forall|a: int, b: int|
            0 <= a < n.in_progress.len() && 0 <= b < n.in_progress.len() && a != b implies (
        #[trigger] n.in_progress[a]).0 != (#[trigger] n.in_progress[b]).0 by {
            let oa = if a < k { a } else { a + 1 };
            let ob = if b < k { b } else { b + 1 };
            assert(m.in_progress[oa].0 != m.in_progress[ob].0);
        }
        assert forall|i: int| 0 <= i < n.in_progress.len() implies {
            &&& (#[trigger] n.in_progress[i]).0 < n.params.piece_count
            &&& n.in_progress[i].1.wf(n.params.size_of(n.in_progress[i].0 as int))
            &&& n.in_progress[i].0 != piece
        } by {
            let o = if i < k { i } else { i + 1 };
            assert(m.in_progress[o].0 < m.params.piece_count);
            assert(m.in_progress[o].0 != m.in_progress[k].0);
        }
        assert forall|i: int, b: int|
            0 <= i < n.in_progress.len() && 0 <= b < n.in_progress[i].1.claimed.len()
                && #[trigger] n.in_progress[i].1.claimed[b] is Some implies find_key(
            n.peers,
            n.in_progress[i].1.claimed[b]->0,
        ) is Some by {
            let o = if i < k { i } else { i + 1 };
            assert(m.in_progress[o].1.claimed[b] is Some);
        }
        lemma_find(n.in_progress, piece);
    }
}

/// A peer that leaves takes its pieces and its claims with it.
pub proof fn law_disconnect_keeps(m: SessionModel, slot: PeerSlot)
    requires
        m.wf(),
    ensures
        m.on_disconnected(slot).0.wf(),
        find_key(m.on_disconnected(slot).0.peers, slot) is None,
{
    lemma_find(m.peers, slot);
    if let Some(i) = find_key(m.peers, slot) {
        let r = m.released(slot);
        lemma_released_keeps(m, slot);
        let n = m.on_disconnected(slot).0;
        assert(n.peers == m.peers.remove(i));
        assert forall|a: int, b: int|
            0 <= a < n.peers.len() && 0 <= b < n.peers.len() && a != b implies (
        #[trigger] n.peers[a]).0 != (#[trigger] n.peers[b]).0 by {
            let oa = if a < i { a } else { a + 1 };
            let ob = if b < i { b } else { b + 1 };
            assert(m.peers[oa].0 != m.peers[ob].0);
        }
        assert forall|a: int| 0 <= a < n.peers.len() implies {
            &&& (#[trigger] n.peers[a]).1.have.len() == n.params.piece_count
            &&& n.peers[a].1.in_flight <= n.peers[a].1.max_in_flight
            &&& n.peers[a].0 != slot
        } by {
            let oa = if a < i { a } else { a + 1 };
            assert(m.peers[oa].1.have.len() == m.params.piece_count);
            assert(m.peers[oa].0 != m.peers[i].0);
        }
        assert forall|x: int|
            0 <= x < n.params.piece_count implies #[trigger] n.picker.availability[x]
            == count_having(n.peers, x) by {
            lemma_count_remove(m.peers, i, x);
            assert(m.picker.availability[x] == count_having(m.peers, x));
        }
        assert forall|k: int, b: int|
            0 <= k < n.in_progress.len() && 0 <= b < n.in_progress[k].1.claimed.len()
                && #[trigger] n.in_progress[k].1.claimed[b] is Some implies find_key(
            n.peers,
            n.in_progress[k].1.claimed[b]->0,
        ) is Some by {
            assert(r.in_progress[k].1.claimed[b] is Some);
            assert(r.in_progress[k].1.claimed[b] != Some(slot));
            let s = r.in_progress[k].1.claimed[b]->0;
            lemma_find(m.peers, s);
            let w = find_key(m.peers, s)->0;
            let v = if w < i { w } else { w - 1 };
            assert(n.peers[v].0 == s);
            lemma_find(n.peers, s);
        }
        lemma_find(n.peers, slot);
    }
}

/// A choking peer has nothing under way.
pub proof fn law_choke_keeps(m: SessionModel, slot: PeerSlot)
    requires
        m.wf(),
    ensures
        m.on_choked(slot).wf(),
{
    lemma_find(m.peers, slot);
    if let Some(i) = find_key(m.peers, slot) {
        let p = PeerModel { choking_us: true, in_flight: 0, ..m.peers[i].1 };
        lemma_set_peer_keeps(m, i, p);
        lemma_released_keeps(m.set_peer(i, p), slot);
    } else {
        lemma_released_keeps(m, slot);
    }
}

/// Interest changes nothing but interest.
pub proof fn lemma_interest_keeps(m: SessionModel, slot: PeerSlot)
    requires
        m.wf(),
    ensures
        m.interest(slot).0.wf(),
        m.interest(slot).0.slots() == m.slots(),
{
    lemma_find(m.peers, slot);
    if let Some(i) = find_key(m.peers, slot) {
        let p = m.peers[i].1;
        lemma_set_peer_keeps(m, i, PeerModel { we_are_interested: m.wants(p.have), ..p });
    }
    assert(m.interest(slot).0.slots() =~= m.slots());
}

pub proof fn lemma_interest_all_keeps(m: SessionModel, slots: Seq<PeerSlot>)
    requires
        m.wf(),
    ensures
        m.interest_all(slots).0.wf(),
    decreases slots.len(),
{
    if slots.len() > 0 {
        lemma_interest_all_keeps(m, slots.drop_last());
        lemma_interest_keeps(m.interest_all(slots.drop_last()).0, slots.last());
    }
}

/// Taking one request back.
pub proof fn lemma_release_block_keeps(m: SessionModel, slot: PeerSlot, req: BlockRequest)
    requires
        m.wf(),
    ensures
        m.release_block(slot, req).wf(),
        m.release_block(slot, req).slots() == m.slots(),
        forall|s: PeerSlot| #[trigger]
            find_key(m.release_block(slot, req).peers, s) == find_key(m.peers, s),
{
    lemma_one_less_keeps(m, slot);
    let mid = m.one_less_in_flight(slot);
    lemma_find(mid.in_progress, req.piece);
    let idx: int = (req.offset / BLOCK_SIZE) as int;
    if let Some(k) = find_key(mid.in_progress, req.piece) {
        let q = mid.in_progress[k].1;
        assert(q.wf(mid.params.size_of(mid.in_progress[k].0 as int)));
        if idx < q.claimed.len() && q.claimed[idx] == Some(slot) {
            let r = PieceModel { claimed: q.claimed.update(idx, None), ..q };
            assert forall|b: int|
                0 <= b < r.claimed.len() && (#[trigger] r.claimed[b]) is Some implies !r.received[b] by {
                assert(q.claimed[b] is Some ==> !q.received[b]);
            }
            assert forall|b: int|
                0 <= b < r.claimed.len() && (#[trigger] r.claimed[b]) is Some implies find_key(
                mid.peers,
                r.claimed[b]->0,
            ) is Some by {
                assert(mid.in_progress[k].1.claimed[b] is Some);
            }
            lemma_set_piece_keeps(mid, k, r);
        }
    }
    assert(m.release_block(slot, req).slots() =~= m.slots());
}

pub proof fn lemma_one_less_keeps(m: SessionModel, slot: PeerSlot)
    requires
        m.wf(),
    ensures
        m.one_less_in_flight(slot).wf(),
        m.one_less_in_flight(slot).in_progress == m.in_progress,
        m.one_less_in_flight(slot).slots() == m.slots(),
        forall|s: PeerSlot| #[trigger]
            find_key(m.one_less_in_flight(slot).peers, s) == find_key(m.peers, s),
{
    lemma_find(m.peers, slot);
    if let Some(i) = find_key(m.peers, slot) {
        let p = m.peers[i].1;
        lemma_set_peer_keeps(
            m,
            i,
            PeerModel {
                in_flight: if p.in_flight > 0 {
                    (p.in_flight - 1) as u32
                } else {
                    0
                },
                ..p
            },
        );
    }
    assert(m.one_less_in_flight(slot).slots() =~= m.slots());
}

pub proof fn lemma_cancel_all_keeps(m: SessionModel, list: Seq<(PeerSlot, BlockRequest)>)
    requires
        m.wf(),
    ensures
        m.cancel_all(list).0.wf(),
        m.cancel_all(list).0.slots() == m.slots(),
    decreases list.len(),
{
    if list.len() > 0 {
        lemma_cancel_all_keeps(m, list.drop_last());
        lemma_release_block_keeps(
            m.cancel_all(list.drop_last()).0,
            list.last().0,
            list.last().1,
        );
    }
}

/// Pausing and resuming.
pub proof fn law_pausing_keeps(m: SessionModel, pause: bool)
    requires
        m.wf(),
    ensures
        m.pausing(pause).0.wf(),
        m.pausing(pause).0.paused == pause,
{
    if m.paused != pause {
        if pause {
            let peers = Seq::new(
                m.peers.len(),
                |i: int| (m.peers[i].0, PeerModel { we_choking: true, ..m.peers[i].1 }),
            );
            lemma_set_peers_keeps(m, peers);
            let choked = SessionModel { paused: true, peers, ..m };
            assert(choked.wf());
            lemma_cancel_all_keeps(choked, all_claims(m.in_progress, m.params));
            lemma_cancel_all_paused(choked, all_claims(m.in_progress, m.params));
        } else {
            let peers = Seq::new(
                m.peers.len(),
                |i: int|
                    (
                        m.peers[i].0,
                        PeerModel {
                            we_choking: m.peers[i].1.we_choking && !m.peers[i].1.peer_interested,
                            ..m.peers[i].1
                        },
                    ),
            );
            let going = SessionModel { paused: false, ..m };
            assert(going.wf());
            lemma_set_peers_keeps(going, peers);
        }
    }
}

proof fn lemma_cancel_all_paused(m: SessionModel, list: Seq<(PeerSlot, BlockRequest)>)
    ensures
        m.cancel_all(list).0.paused == m.paused,
    decreases list.len(),
{
    if list.len() > 0 {
        lemma_cancel_all_paused(m, list.drop_last());
    }
}

/// The disk's word on a piece.
pub proof fn law_completion_keeps(m: SessionModel, piece: u32, result: Result<(), DiskError>)
    requires
        m.wf(),
        result is Ok ==> piece < m.params.piece_count,
    ensures
        m.on_completion(piece, result).0.wf(),
{
    lemma_without_piece_keeps(m, piece);
    if result is Ok {
        let next = m.without_piece(piece);
        let marked = SessionModel { picker: next.picker.marked(piece as int), ..next };
        if count_missing(marked.picker.have) == 0 {
            let peers = Seq::new(
                marked.peers.len(),
                |i: int|
                    (
                        marked.peers[i].0,
                        PeerModel { we_are_interested: false, ..marked.peers[i].1 },
                    ),
            );
            lemma_set_peers_keeps(next, peers);
        } else {
            assert(marked.wf());
        }
    }
}

/// Pieces from the start.
pub proof fn law_initial_keeps(m: SessionModel, have: Seq<bool>)
    requires
        m.sound(),
    ensures
        m.with_initial(have).sound(),
        m.wf() ==> m.with_initial(have).wf(),
{
}

/// One block more is asked for.
pub proof fn lemma_assign_keeps(m: SessionModel, slot: PeerSlot)
    requires
        m.wf(),
        match find_key(m.peers, slot) {
            Some(i) => m.peers[i].1.can_request(),
            None => true,
        },
    ensures
        match m.assign(slot) {
            None => true,
            Some((next, _)) => {
                &&& next.wf()
                &&& next.slots() == m.slots()
                &&& next.state == m.state
                &&& next.paused == m.paused
                &&& next.params == m.params
            },
        },
{
    lemma_find(m.peers, slot);
    if let Some(i) = find_key(m.peers, slot) {
        let have = m.peers[i].1.have;
        lemma_first_eligible(m, have, 0);
        if let Some(p) = m.first_eligible(have, 0) {
            lemma_with_piece_keeps(m, p as u32);
            let next = m.with_piece(p as u32);
            let k = find_key(next.in_progress, p as u32)->0;
            let q = next.in_progress[k].1;
            lemma_first_free(q, 0);
            if let Some(b) = q.first_free(0) {
                let r = PieceModel { claimed: q.claimed.update(b, Some(slot)), ..q };
                assert(q.wf(next.params.size_of(next.in_progress[k].0 as int)));
                assert forall|c: int|
                0 <= c < r.claimed.len() && (#[trigger] r.claimed[c]) is Some implies !r.received[c] by {
                    assert(q.claimed[c] is Some ==> !q.received[c]);
                }
                assert forall|c: int|
                    0 <= c < r.claimed.len() && (#[trigger] r.claimed[c]) is Some implies find_key(
                    next.peers,
                    r.claimed[c]->0,
                ) is Some by {
                    if c != b {
                        assert(next.in_progress[k].1.claimed[c] is Some);
                    }
                }
                lemma_set_piece_keeps(next, k, r);
                lemma_set_peer_keeps(
                    next.set_piece(k, r),
                    i,
                    PeerModel { in_flight: (m.peers[i].1.in_flight + 1) as u32, ..m.peers[i].1 },
                );
                let (done, _) = m.assign(slot)->0;
                assert(done.slots() =~= m.slots());
            }
        }
    }
}

pub proof fn lemma_first_eligible(m: SessionModel, have: Seq<bool>, p: int)
    requires
        0 <= p,
    ensures
        match m.first_eligible(have, p) {
            Some(r) => p <= r < m.params.piece_count && m.eligible(have, r) && forall|j: int|
                p <= j < r ==> !#[trigger] m.eligible(have, j),
            None => forall|j: int| p <= j < m.params.piece_count ==> !#[trigger] m.eligible(have, j),
        },
    decreases m.params.piece_count - p,
{
    if p < m.params.piece_count && !m.eligible(have, p) {
        lemma_first_eligible(m, have, p + 1);
    }
}

pub proof fn lemma_first_free(q: PieceModel, i: int)
    requires
        0 <= i,
    ensures
        match q.first_free(i) {
            Some(r) => i <= r < q.received.len() && q.free(r) && forall|j: int|
                i <= j < r ==> !#[trigger] q.free(j),
            None => forall|j: int| i <= j < q.received.len() ==> !#[trigger] q.free(j),
        },
    decreases q.received.len() - i,
{
    if i < q.received.len() && !q.free(i) {
        lemma_first_free(q, i + 1);
    }
}

pub proof fn lemma_fill_keeps(m: SessionModel, slot: PeerSlot, room: nat)
    requires
        m.wf(),
    ensures
        m.fill(slot, room).0.wf(),
        m.fill(slot, room).0.slots() == m.slots(),
        m.fill(slot, room).0.state == m.state,
        m.fill(slot, room).0.paused == m.paused,
        m.fill(slot, room).0.params == m.params,
    decreases room,
{
    if let Some(i) = find_key(m.peers, slot) {
        if room > 0 && m.peers[i].1.can_request() {
            lemma_assign_keeps(m, slot);
            if let Some((next, _)) = m.assign(slot) {
                lemma_fill_keeps(next, slot, (room - 1) as nat);
            }
        }
    }
}

pub proof fn lemma_fill_all_keeps(m: SessionModel, slots: Seq<PeerSlot>)
    requires
        m.wf(),
    ensures
        m.fill_all(slots).0.wf(),
        m.fill_all(slots).0.slots() == m.slots(),
        m.fill_all(slots).0.state == m.state,
        m.fill_all(slots).0.paused == m.paused,
        m.fill_all(slots).0.params == m.params,
    decreases slots.len(),
{
    if slots.len() > 0 {
        lemma_fill_all_keeps(m, slots.drop_last());
        let mid = m.fill_all(slots.drop_last()).0;
        lemma_fill_keeps(mid, slots.last(), mid.room(slots.last()));
    }
}

/// Scheduling.
pub proof fn law_scheduled_keeps(m: SessionModel)
    requires
        m.wf(),
    ensures
        m.scheduled().0.wf(),
{
    lemma_fill_all_keeps(m, m.slots());
}

/// A block that comes in.
pub proof fn law_block_keeps(m: SessionModel, slot: PeerSlot, piece: u32, offset: u32, data: Seq<u8>)
    requires
        m.wf(),
    ensures
        m.on_block(slot, piece, offset, data).0.wf(),
{
    if piece < m.params.piece_count && offset % BLOCK_SIZE == 0 {
        lemma_with_piece_keeps(m, piece);
        let next = m.with_piece(piece);
        let k = find_key(next.in_progress, piece)->0;
        let q = next.in_progress[k].1;
        let idx: int = (offset / BLOCK_SIZE) as int;
        assert(q.wf(next.params.size_of(piece as int)));
        if idx < q.received.len() && !q.received[idx] && q.claimed[idx] == Some(slot) && offset
            + data.len() <= q.buffer.len() {
            lemma_one_less_keeps(next, slot);
            let less = next.one_less_in_flight(slot);
            let filled = q.filled(idx, offset as int, data);
            assert forall|b: int|
                0 <= b < filled.claimed.len() && (#[trigger] filled.claimed[b]) is Some implies !filled.received[b] by {
                assert(q.claimed[b] is Some ==> !q.received[b]);
            }
            assert forall|b: int|
                0 <= b < filled.claimed.len() && (#[trigger] filled.claimed[b]) is Some implies find_key(
                less.peers,
                filled.claimed[b]->0,
            ) is Some by {
                assert(next.in_progress[k].1.claimed[b] is Some);
            }
            lemma_set_piece_keeps(less, k, filled);
            let taken = less.set_piece(k, filled);
            lemma_set_piece_keeps(taken, k, PieceModel { buffer: Seq::empty(), ..filled });
        }
    }
}

/// Asking for metadata touches the metadata alone.
pub proof fn lemma_ask_metadata_keeps(m: SessionModel, slot: PeerSlot, n: nat)
    requires
        m.wf(),
    ensures
        m.ask_metadata(slot, n).0.wf(),
        m.ask_metadata(slot, n).0.peers == m.peers,
    decreases n,
{
    if n > 0 && m.metadata is Some {
        if let Some(piece) = next_needed(m.metadata->0) {
            let next = SessionModel { metadata: Some(m.metadata->0.asked(piece, slot)), ..m };
            lemma_ask_metadata_keeps(next, slot, (n - 1) as nat);
        }
    }
}

pub proof fn lemma_ask_metadata_all_keeps(m: SessionModel, slots: Seq<PeerSlot>)
    requires
        m.wf(),
    ensures
        m.ask_metadata_all(slots).0.wf(),
        m.ask_metadata_all(slots).0.peers == m.peers,
    decreases slots.len(),
{
    if slots.len() > 0 && m.metadata is Some && next_needed(m.metadata->0) is Some {
        lemma_ask_metadata_keeps(m, slots[0], crate::session::model::METADATA_REQUESTS as nat);
        lemma_ask_metadata_all_keeps(m.ask_metadata_of(slots[0]).0, slots.drop_first());
    }
}

/// The session starts over with the parameters of fetched metadata.
pub proof fn lemma_with_metadata_keeps(m: SessionModel, metadata: Seq<u8>, params: ParamsModel)
    requires
        m.wf(),
        params.workable(),
        m.pieces_wf(params),
    ensures
        m.with_metadata(metadata, params).wf(),
        m.with_metadata(metadata, params).slots() == m.slots(),
{
    let n = m.with_metadata(metadata, params);
    assert forall|s: PeerSlot| #[trigger] find_key(n.peers, s) == find_key(m.peers, s) by {
        lemma_find_same_keys(n.peers, m.peers, s);
    }
    assert forall|a: int, b: int|
        0 <= a < n.peers.len() && 0 <= b < n.peers.len() && a != b implies (#[trigger] n.peers[a]).0
        != (#[trigger] n.peers[b]).0 by {
        assert(m.peers[a].0 != m.peers[b].0);
    }
    assert forall|i: int| 0 <= i < n.peers.len() implies {
        &&& (#[trigger] n.peers[i]).1.have.len() == n.params.piece_count
        &&& n.peers[i].1.in_flight <= n.peers[i].1.max_in_flight
    } by {
        assert(m.peers[i].1.in_flight <= m.peers[i].1.max_in_flight);
    }
    assert forall|x: int| 0 <= x < n.params.piece_count implies #[trigger] n.picker.availability[x]
        == count_having(n.peers, x) by {
        lemma_count_bound(n.peers, x);
    }
    assert forall|i: int, b: int|
        0 <= i < n.in_progress.len() && 0 <= b < n.in_progress[i].1.claimed.len()
            && #[trigger] n.in_progress[i].1.claimed[b] is Some implies find_key(
        n.peers,
        n.in_progress[i].1.claimed[b]->0,
    ) is Some by {
        assert(m.in_progress[i].1.claimed[b] is Some);
    }
    assert(n.slots() =~= m.slots());
}

pub proof fn lemma_pex_to_keeps(m: SessionModel, slots: Seq<PeerSlot>, note: PeerNote, now: u64)
    requires
        m.wf(),
    ensures
        m.pex_to(slots, note, now).0.wf(),
        m.pex_to(slots, note, now).0.peers == m.peers,
    decreases slots.len(),
{
    if slots.len() > 0 {
        lemma_pex_to_keeps(m, slots.drop_last(), note, now);
    }
}

} // verus!
