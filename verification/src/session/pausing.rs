//! What comes of pausing a session and of going on, fact by fact.
use crate::ids::PeerSlot;
use crate::keyed::{find_key, lemma_find};
use crate::session::effects::{blocks_as_before, rest_as_before};
use crate::session::keeps::{lemma_cancel_all_keeps, lemma_set_peers_keeps};
use crate::session::laws::{law_pause_frees_every_block, lemma_all_claims_has};
use crate::session::messages::{Deed, PeerNote, SessionCommand};
use crate::session::model::{
    all_claims, chokes, piece_claims, unchokes, PeerModel, PieceModel, SessionModel,
};
use crate::session::params::{BlockRequest, ParamsModel};
use crate::session::torrent::{on_event, SessionEvent};
use vstd::prelude::*;

verus! {

/// How many of these blocks are asked of `slot`.
pub open spec fn asked_in(claimed: Seq<Option<PeerSlot>>, slot: PeerSlot) -> nat
    decreases claimed.len(),
{
    if claimed.len() == 0 {
        0
    } else {
        asked_in(claimed.drop_last(), slot) + if claimed.last() == Some(slot) {
            1nat
        } else {
            0nat
        }
    }
}

/// How many blocks are asked of `slot`.
pub open spec fn asked_of(in_progress: Seq<(u32, PieceModel)>, slot: PeerSlot) -> nat
    decreases in_progress.len(),
{
    if in_progress.len() == 0 {
        0
    } else {
        asked_of(in_progress.drop_last(), slot) + asked_in(in_progress.last().1.claimed, slot)
    }
}

/// The request for a block that somebody is asked for.
pub open spec fn is_request_for(m: SessionModel, k: int, b: int, slot: PeerSlot, req: BlockRequest) -> bool {
    let size = m.params.size_of(m.in_progress[k].0 as int);
    &&& 0 <= k < m.in_progress.len()
    &&& 0 <= b < m.in_progress[k].1.claimed.len()
    &&& m.in_progress[k].1.claimed[b] == Some(slot)
    &&& req.piece == m.in_progress[k].0
    &&& req.offset == b * 16384
    &&& req.length <= 16384
    &&& req.offset + req.length <= size
    &&& req.length < 16384 ==> req.offset + req.length == size
}

/// We do not choke the peer at place `i`.
pub open spec fn served_at(peers: Seq<(PeerSlot, PeerModel)>, i: int) -> bool {
    0 <= i < peers.len() && !peers[i].1.we_choking
}

/// We choke the peer at place `i`, and it is interested in us.
pub open spec fn waiting_at(peers: Seq<(PeerSlot, PeerModel)>, i: int) -> bool {
    0 <= i < peers.len() && peers[i].1.we_choking && peers[i].1.peer_interested
}

/// Somebody is asked for block `b` of the piece at place `k`.
pub open spec fn asked_at(m: SessionModel, k: int, b: int) -> bool {
    &&& 0 <= k < m.in_progress.len()
    &&& 0 <= b < m.in_progress[k].1.claimed.len()
    &&& m.in_progress[k].1.claimed[b] is Some
}

/// Word of a pause: a choke to a peer that we do not choke, or the request for a
/// block taken back from the peer that is asked for it.
pub open spec fn pause_word(m: SessionModel, d: Deed) -> bool {
    let to = d->Send_0;
    let note = d->Send_1;
    &&& d is Send
    &&& note is Choke || note is Cancel
    &&& note is Choke ==> exists|i: int| #[trigger]
        served_at(m.peers, i) && m.peers[i].0 == to
    &&& note is Cancel ==> exists|k: int, b: int| #[trigger]
        is_request_for(m, k, b, to, note->Cancel_0)
}

proof fn lemma_cancel_word(m: SessionModel, k: int, b: int, to: PeerSlot, req: BlockRequest)
    requires
        is_request_for(m, k, b, to, req),
    ensures
        pause_word(m, Deed::Send(to, PeerNote::Cancel(req))),
{
    let d = Deed::Send(to, PeerNote::Cancel(req));
    assert(is_request_for(m, k, b, d->Send_0, d->Send_1->Cancel_0));
}

/// How often `slot` stands in the list.
spec fn times(list: Seq<(PeerSlot, BlockRequest)>, slot: PeerSlot) -> nat
    decreases list.len(),
{
    if list.len() == 0 {
        0
    } else {
        times(list.drop_last(), slot) + if list.last().0 == slot {
            1nat
        } else {
            0nat
        }
    }
}

proof fn lemma_times_add(
    a: Seq<(PeerSlot, BlockRequest)>,
    b: Seq<(PeerSlot, BlockRequest)>,
    slot: PeerSlot,
)
    ensures
        times(a + b, slot) == times(a, slot) + times(b, slot),
    decreases b.len(),
{
    if b.len() == 0 {
        assert(a + b =~= a);
    } else {
        assert((a + b).drop_last() =~= a + b.drop_last());
        lemma_times_add(a, b.drop_last(), slot);
    }
}

proof fn lemma_times_piece(piece: u32, claimed: Seq<Option<PeerSlot>>, size: u32, slot: PeerSlot)
    ensures
        times(piece_claims(piece, claimed, size), slot) == asked_in(claimed, slot),
    decreases claimed.len(),
{
    if claimed.len() > 0 {
        let front = piece_claims(piece, claimed.drop_last(), size);
        let all = piece_claims(piece, claimed, size);
        lemma_times_piece(piece, claimed.drop_last(), size, slot);
        if claimed.last() is Some {
            assert(all.drop_last() =~= front);
        }
    }
}

proof fn lemma_times_all(ip: Seq<(u32, PieceModel)>, params: ParamsModel, slot: PeerSlot)
    ensures
        times(all_claims(ip, params), slot) == asked_of(ip, slot),
    decreases ip.len(),
{
    if ip.len() > 0 {
        let (piece, q) = ip.last();
        let size = params.size_of(piece as int);
        lemma_times_all(ip.drop_last(), params, slot);
        lemma_times_piece(piece, q.claimed, size, slot);
        lemma_times_add(
            all_claims(ip.drop_last(), params),
            piece_claims(piece, q.claimed, size),
            slot,
        );
    }
}

proof fn lemma_piece_claims_are(piece: u32, claimed: Seq<Option<PeerSlot>>, size: u32, j: int)
    requires
        0 <= j < piece_claims(piece, claimed, size).len(),
        (claimed.len() - 1) * 16384 < size,
    ensures
        ({
            let (slot, req) = piece_claims(piece, claimed, size)[j];
            exists|b: int|
                0 <= b < claimed.len() && #[trigger] claimed[b] == Some(slot) && req.piece == piece
                    && req.offset == b * 16384 && req.length <= 16384 && req.offset + req.length
                    <= size && (req.length < 16384 ==> req.offset + req.length == size)
        }),
    decreases claimed.len(),
{
    let front = claimed.drop_last();
    let some = piece_claims(piece, front, size);
    let (slot, req) = piece_claims(piece, claimed, size)[j];
    if claimed.len() > 0 {
        if j < some.len() {
            lemma_piece_claims_are(piece, front, size, j);
            let b = choose|b: int|
                0 <= b < front.len() && #[trigger] front[b] == Some(slot) && req.piece == piece
                    && req.offset == b * 16384 && req.length <= 16384 && req.offset + req.length
                    <= size && (req.length < 16384 ==> req.offset + req.length == size);
            assert(claimed[b] == Some(slot));
        } else {
            let b = claimed.len() - 1;
            assert(claimed[b] == Some(slot));
        }
    }
}

proof fn lemma_claims_are(m: SessionModel, n: int, j: int)
    requires
        m.wf(),
        0 <= n <= m.in_progress.len(),
        0 <= j < all_claims(m.in_progress.take(n), m.params).len(),
    ensures
        ({
            let (slot, req) = all_claims(m.in_progress.take(n), m.params)[j];
            exists|k: int, b: int| #[trigger] is_request_for(m, k, b, slot, req)
        }),
    decreases n,
{
    if n > 0 {
        let ip = m.in_progress.take(n);
        assert(ip.drop_last() =~= m.in_progress.take(n - 1));
        let some = all_claims(m.in_progress.take(n - 1), m.params);
        let (piece, q) = ip.last();
        let size = m.params.size_of(piece as int);
        let (slot, req) = all_claims(ip, m.params)[j];
        if j < some.len() {
            lemma_claims_are(m, n - 1, j);
        } else {
            assert(m.in_progress[n - 1].1.wf(m.params.size_of(m.in_progress[n - 1].0 as int)));
            lemma_piece_claims_are(piece, q.claimed, size, j - some.len());
            let b = choose|b: int|
                0 <= b < q.claimed.len() && #[trigger] q.claimed[b] == Some(slot) && req.piece
                    == piece && req.offset == b * 16384 && req.length <= 16384 && req.offset
                    + req.length <= size && (req.length < 16384 ==> req.offset + req.length == size);
            assert(is_request_for(m, n - 1, b, slot, req));
        }
    }
}

proof fn lemma_cancelled(m: SessionModel, list: Seq<(PeerSlot, BlockRequest)>)
    requires
        m.wf(),
        forall|j: int|
            0 <= j < list.len() ==> find_key(m.peers, (#[trigger] list[j]).0) is Some,
    ensures
        ({
            let (n, told) = m.cancel_all(list);
            &&& rest_as_before(m, n)
            &&& blocks_as_before(m, n)
            &&& n.peers.len() == m.peers.len()
            &&& forall|i: int|
                0 <= i < m.peers.len() ==> {
                    let left = m.peers[i].1.in_flight - times(list, m.peers[i].0);
                    &&& (#[trigger] n.peers[i]).0 == m.peers[i].0
                    &&& n.peers[i].1 == (PeerModel {
                        in_flight: n.peers[i].1.in_flight,
                        ..m.peers[i].1
                    })
                    &&& n.peers[i].1.in_flight == (if left > 0 {
                        left
                    } else {
                        0
                    })
                }
            &&& told.len() == list.len()
            &&& forall|j: int|
                0 <= j < list.len() ==> #[trigger] told[j] == Deed::Send(
                    list[j].0,
                    PeerNote::Cancel(list[j].1),
                )
        }),
    decreases list.len(),
{
    if list.len() > 0 {
        let front = list.drop_last();
        let (slot, req) = list.last();
        assert forall|j: int| 0 <= j < front.len() implies find_key(
            m.peers,
            (#[trigger] front[j]).0,
        ) is Some by {
            assert(front[j] == list[j]);
        }
        lemma_cancelled(m, front);
        lemma_cancel_all_keeps(m, front);
        let (mid, first) = m.cancel_all(front);
        let (n, told) = m.cancel_all(list);
        assert(list[list.len() - 1].0 == slot);
        crate::keyed::lemma_find_same_keys(mid.peers, m.peers, slot);
        lemma_find(mid.peers, slot);
        lemma_find(mid.in_progress, req.piece);
        assert forall|i: int| 0 <= i < m.peers.len() implies {
            let left = m.peers[i].1.in_flight - times(list, m.peers[i].0);
            &&& (#[trigger] n.peers[i]).0 == m.peers[i].0
            &&& n.peers[i].1 == (PeerModel { in_flight: n.peers[i].1.in_flight, ..m.peers[i].1 })
            &&& n.peers[i].1.in_flight == (if left > 0 {
                left
            } else {
                0
            })
        } by {
            assert(mid.peers[i].0 == m.peers[i].0);
        }
        assert forall|k: int| 0 <= k < m.in_progress.len() implies {
            &&& (#[trigger] n.in_progress[k]).0 == m.in_progress[k].0
            &&& n.in_progress[k].1.buffer == m.in_progress[k].1.buffer
            &&& n.in_progress[k].1.received == m.in_progress[k].1.received
            &&& n.in_progress[k].1.claimed.len() == m.in_progress[k].1.claimed.len()
        } by {
            assert(mid.in_progress[k].0 == m.in_progress[k].0);
        }
        assert forall|j: int| 0 <= j < list.len() implies #[trigger] told[j] == Deed::Send(
            list[j].0,
            PeerNote::Cancel(list[j].1),
        ) by {
            if j < front.len() {
                assert(told[j] == first[j]);
                assert(front[j] == list[j]);
            }
        }
    }
}

/// Chokes go to exactly the peers that are not choked, each once, and unchokes to
/// exactly those that are and are interested.
proof fn lemma_choke_words(peers: Seq<(PeerSlot, PeerModel)>)
    ensures
        ({
            let all = chokes(peers);
            &&& forall|j: int|
                0 <= j < all.len() ==> exists|i: int|
                    0 <= i < peers.len() && !(#[trigger] peers[i]).1.we_choking && #[trigger] all[j]
                        == Deed::Send(peers[i].0, PeerNote::Choke)
            &&& forall|i: int| #[trigger]
                served_at(peers, i) ==> exists|j: int|
                    0 <= j < all.len() && #[trigger] all[j] == Deed::Send(
                        peers[i].0,
                        PeerNote::Choke,
                    )
        }),
        ({
            let all = unchokes(peers);
            &&& forall|j: int|
                0 <= j < all.len() ==> exists|i: int|
                    0 <= i < peers.len() && (#[trigger] peers[i]).1.we_choking
                        && peers[i].1.peer_interested && #[trigger] all[j] == Deed::Send(
                        peers[i].0,
                        PeerNote::Unchoke,
                    )
            &&& forall|i: int| #[trigger]
                waiting_at(peers, i) ==> exists|j: int|
                    0 <= j < all.len() && #[trigger] all[j] == Deed::Send(
                        peers[i].0,
                        PeerNote::Unchoke,
                    )
        }),
    decreases peers.len(),
{
    if peers.len() > 0 {
        let front = peers.drop_last();
        let last = peers.len() - 1;
        lemma_choke_words(front);
        let a = chokes(front);
        let b = chokes(peers);
        let c = unchokes(front);
        let d = unchokes(peers);
        assert forall|j: int| 0 <= j < b.len() implies exists|i: int|
            0 <= i < peers.len() && !(#[trigger] peers[i]).1.we_choking && #[trigger] b[j]
                == Deed::Send(peers[i].0, PeerNote::Choke) by {
            if j < a.len() {
                assert(b[j] == a[j]);
                let i = choose|i: int|
                    0 <= i < front.len() && !(#[trigger] front[i]).1.we_choking && a[j]
                        == Deed::Send(front[i].0, PeerNote::Choke);
                assert(peers[i] == front[i]);
            } else {
                assert(!peers[last].1.we_choking);
            }
        }
        assert forall|i: int| #[trigger] served_at(peers, i) implies exists|j: int|
            0 <= j < b.len() && #[trigger] b[j] == Deed::Send(peers[i].0, PeerNote::Choke) by {
            if i < last {
                assert(front[i] == peers[i]);
                assert(served_at(front, i));
                let j = choose|j: int|
                    0 <= j < a.len() && #[trigger] a[j] == Deed::Send(front[i].0, PeerNote::Choke);
                assert(b[j] == a[j]);
            } else {
                assert(b[a.len() as int] == Deed::Send(peers[i].0, PeerNote::Choke));
            }
        }
        assert forall|j: int| 0 <= j < d.len() implies exists|i: int|
            0 <= i < peers.len() && (#[trigger] peers[i]).1.we_choking && peers[i].1.peer_interested
                && #[trigger] d[j] == Deed::Send(peers[i].0, PeerNote::Unchoke) by {
            if j < c.len() {
                assert(d[j] == c[j]);
                let i = choose|i: int|
                    0 <= i < front.len() && (#[trigger] front[i]).1.we_choking
                        && front[i].1.peer_interested && c[j] == Deed::Send(
                        front[i].0,
                        PeerNote::Unchoke,
                    );
                assert(peers[i] == front[i]);
            } else {
                assert(peers[last].1.we_choking && peers[last].1.peer_interested);
            }
        }
        assert forall|i: int| #[trigger] waiting_at(peers, i) implies exists|j: int|
            0 <= j < d.len() && #[trigger] d[j] == Deed::Send(peers[i].0, PeerNote::Unchoke) by {
            if i < last {
                assert(front[i] == peers[i]);
                assert(waiting_at(front, i));
                let j = choose|j: int|
                    0 <= j < c.len() && #[trigger] c[j] == Deed::Send(
                        front[i].0,
                        PeerNote::Unchoke,
                    );
                assert(d[j] == c[j]);
            } else {
                assert(d[c.len() as int] == Deed::Send(peers[i].0, PeerNote::Unchoke));
            }
        }
    }
}

/// Pausing chokes every peer, and takes back every request: whoever was asked for
/// a block is told so, nobody is asked for anything any more, and as much less is
/// under way on each peer. What is here stays.
pub proof fn law_pause_chokes_and_cancels(m: SessionModel, now: u64)
    requires
        m.wf(),
        !m.paused,
    ensures
        ({
            let (n, told) = on_event(m, SessionEvent::Command(SessionCommand::Pause), now);
            &&& n.paused
            &&& rest_as_before(m, (SessionModel { paused: false, ..n }))
            &&& n.peers.len() == m.peers.len()
            &&& forall|i: int|
                0 <= i < m.peers.len() ==> {
                    let left = m.peers[i].1.in_flight - asked_of(m.in_progress, m.peers[i].0);
                    &&& (#[trigger] n.peers[i]).0 == m.peers[i].0
                    &&& n.peers[i].1 == (PeerModel {
                        we_choking: true,
                        in_flight: n.peers[i].1.in_flight,
                        ..m.peers[i].1
                    })
                    &&& n.peers[i].1.in_flight == (if left > 0 {
                        left
                    } else {
                        0
                    })
                }
            &&& blocks_as_before(m, n)
            &&& forall|k: int, b: int|
                0 <= k < m.in_progress.len() && 0 <= b < m.in_progress[k].1.claimed.len() ==> (
                #[trigger] n.in_progress[k].1.claimed[b]) is None
            &&& forall|j: int| 0 <= j < told.len() ==> pause_word(m, #[trigger] told[j])
            &&& forall|i: int| #[trigger]
                served_at(m.peers, i) ==> exists|j: int|
                    0 <= j < told.len() && #[trigger] told[j] == Deed::Send(
                        m.peers[i].0,
                        PeerNote::Choke,
                    )
            &&& forall|k: int, b: int| #[trigger]
                asked_at(m, k, b) ==> exists|j: int|
                    0 <= j < told.len() && ((#[trigger] told[j]) matches Deed::Send(
                        to,
                        PeerNote::Cancel(req),
                    ) && is_request_for(m, k, b, to, req))
        }),
{
    let (n, told) = on_event(m, SessionEvent::Command(SessionCommand::Pause), now);
    let list = all_claims(m.in_progress, m.params);
    let choked = SessionModel {
        paused: true,
        peers: Seq::new(
            m.peers.len(),
            |i: int| (m.peers[i].0, PeerModel { we_choking: true, ..m.peers[i].1 }),
        ),
        ..m
    };
    lemma_set_peers_keeps(m, choked.peers);
    assert((SessionModel { peers: choked.peers, ..m }).wf());
    assert(choked.wf());
    assert(m.in_progress.take(m.in_progress.len() as int) =~= m.in_progress);
    assert forall|j: int| 0 <= j < list.len() implies find_key(
        choked.peers,
        (#[trigger] list[j]).0,
    ) is Some && exists|k: int, b: int| #[trigger] is_request_for(m, k, b, list[j].0, list[j].1) by {
        lemma_claims_are(m, m.in_progress.len() as int, j);
        let (slot, req) = list[j];
        let (k, b) = choose|k: int, b: int| #[trigger] is_request_for(m, k, b, slot, req);
        assert(m.in_progress[k].1.claimed[b] is Some);
    }
    lemma_cancelled(choked, list);
    lemma_choke_words(m.peers);
    let first = chokes(m.peers);
    let rest = choked.cancel_all(list).1;
    assert(told == first + rest);
    assert forall|i: int| 0 <= i < m.peers.len() implies {
        let left = m.peers[i].1.in_flight - asked_of(m.in_progress, m.peers[i].0);
        &&& (#[trigger] n.peers[i]).0 == m.peers[i].0
        &&& n.peers[i].1 == (PeerModel {
            we_choking: true,
            in_flight: n.peers[i].1.in_flight,
            ..m.peers[i].1
        })
        &&& n.peers[i].1.in_flight == (if left > 0 {
            left
        } else {
            0
        })
    } by {
        lemma_times_all(m.in_progress, m.params, m.peers[i].0);
        assert(choked.peers[i].0 == m.peers[i].0);
    }
    assert forall|k: int| 0 <= k < m.in_progress.len() implies {
        &&& (#[trigger] n.in_progress[k]).0 == m.in_progress[k].0
        &&& n.in_progress[k].1.buffer == m.in_progress[k].1.buffer
        &&& n.in_progress[k].1.received == m.in_progress[k].1.received
        &&& n.in_progress[k].1.claimed.len() == m.in_progress[k].1.claimed.len()
    } by {
        assert(choked.in_progress[k] == m.in_progress[k]);
    }
    assert forall|k: int, b: int|
        0 <= k < m.in_progress.len() && 0 <= b < m.in_progress[k].1.claimed.len() implies (
    #[trigger] n.in_progress[k].1.claimed[b]) is None by {
        law_pause_frees_every_block(m, k, b);
    }
    assert forall|j: int| 0 <= j < told.len() implies pause_word(m, #[trigger] told[j]) by {
        if j < first.len() {
            assert(told[j] == first[j]);
            let i = choose|i: int|
                0 <= i < m.peers.len() && !(#[trigger] m.peers[i]).1.we_choking && first[j]
                    == Deed::Send(m.peers[i].0, PeerNote::Choke);
            assert(first[j] == Deed::Send(m.peers[i].0, PeerNote::Choke));
            assert(served_at(m.peers, i));
            assert(pause_word(m, told[j]));
        } else {
            let y = j - first.len();
            assert(told[j] == rest[y]);
            assert(rest[y] == Deed::Send(list[y].0, PeerNote::Cancel(list[y].1)));
            let (to, req) = list[y];
            let (k, b) = choose|k: int, b: int| #[trigger]
                is_request_for(m, k, b, list[y].0, list[y].1);
            assert(is_request_for(m, k, b, to, req));
            lemma_cancel_word(m, k, b, to, req);
        }
    }
    assert forall|i: int| #[trigger] served_at(m.peers, i) implies exists|j: int|
        0 <= j < told.len() && #[trigger] told[j] == Deed::Send(m.peers[i].0, PeerNote::Choke) by {
        let j = choose|j: int|
            0 <= j < first.len() && #[trigger] first[j] == Deed::Send(
                m.peers[i].0,
                PeerNote::Choke,
            );
        assert(told[j] == first[j]);
    }
    assert forall|k: int, b: int| #[trigger] asked_at(m, k, b) implies exists|j: int|
        0 <= j < told.len() && ((#[trigger] told[j]) matches Deed::Send(to, PeerNote::Cancel(req))
            && is_request_for(m, k, b, to, req)) by {
        lemma_all_claims_has(m.in_progress, m.params, k, b);
        let size = m.params.size_of(m.in_progress[k].0 as int);
        let e = (
            m.in_progress[k].1.claimed[b]->0,
            crate::session::model::block_request(m.in_progress[k].0, b, size),
        );
        assert(list.contains(e));
        let x = choose|x: int| 0 <= x < list.len() && list[x] == e;
        assert(told[first.len() + x] == rest[x]);
        assert(rest[x] == Deed::Send(list[x].0, PeerNote::Cancel(list[x].1)));
        assert(m.in_progress[k].1.wf(m.params.size_of(m.in_progress[k].0 as int)));
        assert(b * 16384 < size) by {
            assert(b <= m.in_progress[k].1.received.len() - 1);
        }
        assert(is_request_for(m, k, b, e.0, e.1));
    }
}

/// Going on unchokes exactly the peers that are interested in us and choked, and
/// changes nothing else.
pub proof fn law_going_on_unchokes_the_interested(m: SessionModel, now: u64)
    requires
        m.wf(),
        m.paused,
    ensures
        ({
            let (n, told) = on_event(m, SessionEvent::Command(SessionCommand::Resume), now);
            &&& !n.paused
            &&& rest_as_before(m, (SessionModel { paused: true, ..n }))
            &&& n.in_progress == m.in_progress
            &&& n.peers.len() == m.peers.len()
            &&& forall|i: int|
                0 <= i < m.peers.len() ==> {
                    &&& (#[trigger] n.peers[i]).0 == m.peers[i].0
                    &&& n.peers[i].1 == (PeerModel {
                        we_choking: m.peers[i].1.we_choking && !m.peers[i].1.peer_interested,
                        ..m.peers[i].1
                    })
                }
            &&& forall|j: int|
                0 <= j < told.len() ==> exists|i: int|
                    0 <= i < m.peers.len() && (#[trigger] m.peers[i]).1.we_choking
                        && m.peers[i].1.peer_interested && #[trigger] told[j] == Deed::Send(
                        m.peers[i].0,
                        PeerNote::Unchoke,
                    )
            &&& forall|i: int| #[trigger]
                waiting_at(m.peers, i) ==> exists|j: int|
                    0 <= j < told.len() && #[trigger] told[j] == Deed::Send(
                        m.peers[i].0,
                        PeerNote::Unchoke,
                    )
        }),
{
    lemma_choke_words(m.peers);
    let (n, told) = on_event(m, SessionEvent::Command(SessionCommand::Resume), now);
    assert(told == unchokes(m.peers));
    assert(rest_as_before(m, (SessionModel { paused: true, ..n })));
    assert forall|i: int| 0 <= i < m.peers.len() implies {
        &&& (#[trigger] n.peers[i]).0 == m.peers[i].0
        &&& n.peers[i].1 == (PeerModel {
            we_choking: m.peers[i].1.we_choking && !m.peers[i].1.peer_interested,
            ..m.peers[i].1
        })
    } by {}
    assert forall|j: int| 0 <= j < told.len() implies exists|i: int|
        0 <= i < m.peers.len() && (#[trigger] m.peers[i]).1.we_choking
            && m.peers[i].1.peer_interested && #[trigger] told[j] == Deed::Send(
            m.peers[i].0,
            PeerNote::Unchoke,
        ) by {}
}

} // verus!
