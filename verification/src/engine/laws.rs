//! What each change of the registry does, fact by fact.
use crate::engine::model::{
    inbound_torrent, law_adding_keeps, magnet_template_of, prepared, reservation, template_of,
    EngineModel, EntryModel,
};
use crate::engine::request::{AddMagnetRequest, AddTorrentRequest, PeerCapScope};
use crate::ids::{PeerSlot, TorrentId};
use crate::idset::{among, lemma_without, without};
use crate::keyed::{find_key, lemma_find, lemma_find_at, lemma_find_unique};
use crate::net::PeerAddr;
use crate::session::model::SessionModel;
use crate::session::shaper::laws::law_others_keep_their_buckets;
use crate::session::shaper::{DuplexModel, Flow, PeerTier};
use crate::session::stats::PeerStats;
use vstd::prelude::*;

verus! {

/// Every torrent but the one at place `i` is as it was, and so is everything that
/// is not about torrents, bandwidth or the number of peers.
pub open spec fn others_untouched<H>(m: EngineModel<H>, n: EngineModel<H>, i: int) -> bool {
    &&& n.torrents.len() == m.torrents.len()
    &&& n.torrents[i].0 == m.torrents[i].0
    &&& forall|j: int|
        0 <= j < m.torrents.len() && j != i ==> #[trigger] n.torrents[j] == m.torrents[j]
    &&& n.index == m.index
    &&& n.next_torrent == m.next_torrent && n.next_slot == m.next_slot
    &&& n.global_cap == m.global_cap && n.listen_port == m.listen_port
}

/// A place is given exactly if neither all torrents together nor this one have as
/// many peers as they may; and the limit on all is looked at first.
pub proof fn law_place_is_given_below_both_limits(
    global_count: int,
    global_cap: int,
    torrent_count: int,
    torrent_cap: int,
)
    ensures
        ({
            let r = reservation(global_count, global_cap, torrent_count, torrent_cap);
            &&& r is Ok <==> global_count < global_cap && torrent_count < torrent_cap
            &&& r == Err::<(), PeerCapScope>(PeerCapScope::Global) <==> global_count >= global_cap
            &&& r == Err::<(), PeerCapScope>(PeerCapScope::Torrent) <==> global_count < global_cap
                && torrent_count >= torrent_cap
        }),
{
}

/// A place that is taken counts once for its torrent and once for all; one that is
/// given back counts no longer. Nothing else changes.
pub proof fn law_a_place_counts_once<H>(m: EngineModel<H>, i: int, peer_id: Seq<u8>)
    requires
        m.wf(),
        0 <= i < m.torrents.len(),
    ensures
        ({
            let n = m.seated(i);
            let e = m.torrents[i].1;
            &&& others_untouched(m, n, i) && n.shaper == m.shaper
            &&& n.global_count == m.global_count + 1
            &&& n.torrents[i].1 == (EntryModel { peer_count: e.peer_count + 1, ..e })
            &&& m.room(i) is Ok <==> m.global_count < m.global_cap && e.peer_count < e.peer_cap
        }),
        ({
            let n = m.unseated(m.torrents[i].0);
            let e = m.torrents[i].1;
            &&& others_untouched(m, n, i) && n.shaper == m.shaper
            &&& n.global_count == m.global_count - 1
            &&& n.torrents[i].1 == (EntryModel { peer_count: e.peer_count - 1, ..e })
        }),
        ({
            let n = m.departed(m.torrents[i].0, peer_id);
            let e = m.torrents[i].1;
            let z = n.torrents[i].1;
            &&& others_untouched(m, n, i) && n.shaper == m.shaper
            &&& n.global_count == m.global_count - 1
            &&& z == (EntryModel { peer_count: e.peer_count - 1, ids: z.ids, ..e })
            &&& !among(z.ids, peer_id)
            &&& forall|p: Seq<u8>| p != peer_id ==> (#[trigger] among(z.ids, p) <==> among(e.ids, p))
        }),
        m.spare_place(m.torrents[i].0) <==> m.torrents[i].1.peer_count > m.torrents[i].1.ids.len(),
        m.holds_place(m.torrents[i].0, peer_id) <==> exists|k: int|
            0 <= k < m.torrents[i].1.ids.len() && #[trigger] m.torrents[i].1.ids[k] == peer_id,
{
    let id = m.torrents[i].0;
    lemma_find_unique(m.torrents, i);
    lemma_without(m.torrents[i].1.ids, peer_id);
    let freed = m.with_ids(i, without(m.torrents[i].1.ids, peer_id));
    assert forall|j: int| 0 <= j < i implies (#[trigger] freed.torrents[j]).0 != id by {
        assert(m.torrents[j].0 != m.torrents[i].0);
    }
    lemma_find_at(freed.torrents, id, i);
}

/// A torrent that is not registered has no place of its own to give back: only the
/// number of all peers goes down.
pub proof fn law_orphans_count_among_all<H>(m: EngineModel<H>, id: TorrentId, peer_id: Seq<u8>)
    requires
        forall|j: int| 0 <= j < m.torrents.len() ==> (#[trigger] m.torrents[j]).0 != id,
    ensures
        m.at(id) is None,
        m.unseated(id) == (EngineModel { global_count: m.global_count - 1, ..m }),
        m.departed(id, peer_id) == (EngineModel { global_count: m.global_count - 1, ..m }),
{
    lemma_find(m.torrents, id);
}

/// A connection is set up as its torrent says, with the address of the peer and,
/// where we listen, our port.
pub proof fn law_connection_is_set_up_by_its_torrent<H>(
    m: EngineModel<H>,
    i: int,
    addr: Option<PeerAddr>,
)
    requires
        0 <= i < m.torrents.len(),
    ensures
        ({
            let c = m.stamped(i, addr);
            let t = m.torrents[i].1.config;
            &&& c.remote_addr == addr
            &&& m.listen_port == 0 ==> c.local_listen_port is None
            &&& m.listen_port != 0 ==> c.local_listen_port == Some(m.listen_port)
            &&& c.peer_id == t.peer_id && c.info_hash == t.info_hash
            &&& c.fast_ext == t.fast_ext && c.extension_protocol == t.extension_protocol
            &&& c.max_in_flight == t.max_in_flight && c.max_payload == t.max_payload
            &&& c.handshake_timeout == t.handshake_timeout
            &&& c.extension_handshake_timeout == t.extension_handshake_timeout
            &&& c.metadata_size == t.metadata_size
        }),
{
}

/// A torrent is announced as the request says: its peers are set up with what was
/// asked for, and hear of the info dictionary as long as it is, where it is known.
/// One of a magnet link starts under its hash without one.
pub proof fn law_torrents_are_set_up_as_requested(req: AddTorrentRequest, magnet: AddMagnetRequest)
    requires
        req.info_dict_bytes matches Some(v) ==> v@.len() <= u64::MAX,
    ensures
        ({
            let t = template_of(req);
            &&& t.info_hash == req.info_hash && t.peer_id == req.peer_id
            &&& t.fast_ext == req.fast_ext && t.extension_protocol == req.extension_protocol
            &&& t.max_in_flight == req.max_in_flight && t.max_payload == req.max_payload
            &&& t.handshake_timeout == req.handshake_timeout
            &&& t.extension_handshake_timeout == req.extension_handshake_timeout
            &&& t.remote_addr is None && t.local_listen_port is None
            &&& req.info_dict_bytes is None ==> t.metadata_size is None
            &&& (req.info_dict_bytes matches Some(v) ==> t.metadata_size is Some
                && t.metadata_size->0 == v@.len())
        }),
        ({
            let t = magnet_template_of(magnet);
            &&& t.info_hash == magnet.magnet.info_hash && t.peer_id == magnet.peer_id
            &&& t.fast_ext == magnet.fast_ext && t.extension_protocol == magnet.extension_protocol
            &&& t.max_in_flight == magnet.max_in_flight && t.max_payload == magnet.max_payload
            &&& t.handshake_timeout == magnet.handshake_timeout
            &&& t.extension_handshake_timeout == magnet.extension_handshake_timeout
            &&& t.remote_addr is None && t.local_listen_port is None && t.metadata_size is None
        }),
{
}

/// A session starts with what the request brings along: the pieces that are here,
/// the info dictionary and the interval, and where it brings none of these, as a
/// fresh one does.
pub proof fn law_session_starts_as_requested(
    m: SessionModel,
    have: Seq<bool>,
    info: Option<Seq<u8>>,
    pex_interval: Option<u64>,
)
    requires
        m.picker.have.len() == m.params.piece_count,
    ensures
        ({
            let n = prepared(m, have, info, pex_interval);
            &&& have.len() == m.params.piece_count ==> forall|x: int|
                0 <= x < have.len() ==> #[trigger] n.picker.have[x] == (m.picker.have[x] || have[x])
            &&& have.len() != m.params.piece_count ==> n.picker == m.picker && n.state == m.state
            &&& info is Some ==> n.info_dict == info
            &&& info is None ==> n.info_dict == m.info_dict
            &&& (pex_interval matches Some(t) ==> n.pex_interval == t)
            &&& pex_interval is None ==> n.pex_interval == m.pex_interval
            &&& n.params == m.params && n.info_hash == m.info_hash && n.id == m.id
            &&& n.peers == m.peers && n.in_progress == m.in_progress && n.peer_cap == m.peer_cap
            &&& n.metadata == m.metadata && n.paused == m.paused
        }),
{
}

/// A torrent that is added can be found by its hash, every other hash leads where
/// it led, and it has buckets that do not limit it.
pub proof fn law_added_torrent_is_found_by_its_hash<H>(
    m: EngineModel<H>,
    id: TorrentId,
    entry: EntryModel<H>,
    other: Seq<u8>,
)
    requires
        m.wf(),
        entry.wf(),
        entry.peer_count == 0,
        id.number() == m.next_torrent,
        m.next_torrent < u64::MAX,
        forall|k: int|
            0 <= k < m.index.len() ==> (#[trigger] m.index[k]).1.number() < m.next_torrent,
    ensures
        ({
            let n = m.added(id, entry);
            let hash = entry.config.info_hash@;
            &&& inbound_torrent(n, hash) == Some(m.torrents.len() as int)
            &&& other != hash ==> inbound_torrent(n, other) == inbound_torrent(m, other)
            &&& n.shaper.torrents.contains((id, DuplexModel::full(u64::MAX, u64::MAX)))
            &&& n.shaper.peers == m.shaper.peers
            &&& n.global_count == m.global_count && n.global_cap == m.global_cap
            &&& n.listen_port == m.listen_port && n.next_slot == m.next_slot
        }),
{
    let n = m.added(id, entry);
    let hash = entry.config.info_hash@;
    law_adding_keeps(m, id, entry);
    law_others_keep_their_buckets(
        m.shaper,
        PeerSlot(0),
        id,
        DuplexModel::full(u64::MAX, u64::MAX),
        0,
    );
    lemma_find(m.index, hash);
    lemma_find(n.index, hash);
    let k = find_key(n.index, hash)->0;
    match find_key(m.index, hash) {
        Some(p) => {
            assert(n.index[p] == (hash, id));
            if k != p {
                assert(n.index[k].0 != n.index[p].0);
            }
        },
        None => {
            assert(n.index[m.index.len() as int] == (hash, id));
            if k != m.index.len() {
                assert(n.index[k].0 != n.index[m.index.len() as int].0);
            }
        },
    }
    if other != hash {
        lemma_find(m.index, other);
        lemma_find(n.index, other);
        match find_key(m.index, other) {
            Some(q) => {
                assert(n.index[q] == m.index[q]);
                lemma_find_unique(n.index, q);
                let who = m.index[q].1;
                crate::engine::model::law_added_torrent_is_listed(m, id, entry, who);
                assert(who.number() < m.next_torrent);
            },
            None => {
                if let Some(q) = find_key(n.index, other) {
                    if q < m.index.len() {
                        assert(n.index[q].0 == other);
                        assert(m.index[q].0 == other || n.index[q] == (hash, id));
                    }
                }
            },
        }
    }
}

/// A torrent that is taken out is gone, and its hash and its peers' buckets with
/// it. Every other torrent stays, in its order, and every other hash leads to the
/// id that it led to.
pub proof fn law_dropped_torrent_is_gone<H>(m: EngineModel<H>, i: int, k: int)
    requires
        m.wf(),
        0 <= i < m.torrents.len(),
    ensures
        ({
            let n = m.dropped(i);
            let (id, e) = m.torrents[i];
            &&& n.torrents.len() == m.torrents.len() - 1
            &&& forall|j: int|
                0 <= j < n.torrents.len() ==> {
                    &&& (#[trigger] n.torrents[j]).0 != id
                    &&& j < i ==> n.torrents[j] == m.torrents[j]
                    &&& j >= i ==> n.torrents[j] == m.torrents[j + 1]
                }
            &&& find_key(n.index, e.config.info_hash@) is None
            &&& (0 <= k < m.index.len() && m.index[k].0 != e.config.info_hash@)
                ==> n.index.contains(m.index[k])
            &&& find_key(n.shaper.torrents, id) is None
            &&& forall|j: int|
                0 <= j < n.shaper.peers.len() ==> (#[trigger] n.shaper.peers[j]).1.torrent_id != id
            &&& n.shaper.session == m.shaper.session
            &&& n.next_torrent == m.next_torrent && n.next_slot == m.next_slot
            &&& n.global_count == m.global_count && n.global_cap == m.global_cap
            &&& n.listen_port == m.listen_port
        }),
{
    let n = m.dropped(i);
    let (id, e) = m.torrents[i];
    crate::engine::model::law_dropping_keeps(m, i);
    assert forall|j: int| 0 <= j < n.torrents.len() implies (#[trigger] n.torrents[j]).0 != id by {
        let x = if j < i { j } else { j + 1 };
        assert(m.torrents[x].0 != m.torrents[i].0);
    }
    lemma_find(m.index, e.config.info_hash@);
    if 0 <= k < m.index.len() && m.index[k].0 != e.config.info_hash@ {
        match find_key(m.index, e.config.info_hash@) {
            Some(p) => {
                let x = if k < p { k } else { k - 1 };
                assert(n.index[x] == m.index[k]);
            },
            None => {
                assert(n.index[k] == m.index[k]);
            },
        }
    }
    assert forall|j: int| 0 <= j < n.shaper.peers.len() implies (
    #[trigger] n.shaper.peers[j]).1.torrent_id != id by {
        let p = n.shaper.peers[j];
        crate::session::shaper::law_dropped_torrent_takes_its_peers(m.shaper, id, p);
        assert(n.shaper.peers.contains(p));
    }
    crate::session::shaper::law_dropped_torrent_takes_its_peers(
        m.shaper,
        id,
        (PeerSlot(0), (PeerTier { buckets: m.shaper.session, torrent_id: id })),
    );
}

/// A connection that joins has counters at zero with its torrent and buckets that
/// do not limit it. Nothing else changes.
pub proof fn law_joining_peer_starts_at_zero<H>(m: EngineModel<H>, i: int, slot: PeerSlot)
    requires
        m.wf(),
        0 <= i < m.torrents.len(),
    ensures
        ({
            let id = m.torrents[i].0;
            let n = m.joined(id, slot);
            let e = m.torrents[i].1;
            let z = n.torrents[i].1;
            &&& others_untouched(m, n, i) && n.global_count == m.global_count
            &&& z == (EntryModel { live: z.live, ..e })
            &&& z.live.contains((slot, (PeerStats { uploaded: 0, downloaded: 0 })))
            &&& forall|k: int|
                0 <= k < e.live.len() && (#[trigger] e.live[k]).0 != slot ==> z.live.contains(
                    e.live[k],
                )
            &&& n.shaper.peers.contains(
                (
                    slot,
                    (PeerTier { buckets: DuplexModel::full(u64::MAX, u64::MAX), torrent_id: id }),
                ),
            )
            &&& n.shaper.torrents == m.shaper.torrents && n.shaper.session == m.shaper.session
        }),
{
    let id = m.torrents[i].0;
    let n = m.joined(id, slot);
    let e = m.torrents[i].1;
    let z = n.torrents[i].1;
    lemma_find_unique(m.torrents, i);
    law_others_keep_their_buckets(
        m.shaper,
        slot,
        id,
        DuplexModel::full(u64::MAX, u64::MAX),
        0,
    );
    lemma_find(e.live, slot);
    let fresh = (slot, (PeerStats { uploaded: 0, downloaded: 0 }));
    match find_key(e.live, slot) {
        Some(p) => {
            assert(z.live[p] == fresh);
            assert forall|k: int| 0 <= k < e.live.len() && (#[trigger] e.live[k]).0 != slot implies z.live.contains(
            e.live[k]) by {
                assert(z.live[k] == e.live[k]);
            }
        },
        None => {
            assert(z.live[e.live.len() as int] == fresh);
            assert forall|k: int| 0 <= k < e.live.len() && (#[trigger] e.live[k]).0 != slot implies z.live.contains(
            e.live[k]) by {
                assert(z.live[k] == e.live[k]);
            }
        },
    }
}

/// Bytes that go over a connection count for it, in their direction alone. Nothing
/// else changes.
pub proof fn law_bytes_count_in_their_direction<H>(
    m: EngineModel<H>,
    i: int,
    k: int,
    sent: bool,
    bytes: u64,
)
    requires
        m.wf(),
        0 <= i < m.torrents.len(),
        0 <= k < m.torrents[i].1.live.len(),
    ensures
        ({
            let e = m.torrents[i].1;
            let (slot, s) = e.live[k];
            let flow = if sent {
                Flow::Up
            } else {
                Flow::Down
            };
            let n = m.counted(m.torrents[i].0, slot, flow, bytes);
            let z = n.torrents[i].1;
            &&& others_untouched(m, n, i) && n.global_count == m.global_count
            &&& n.shaper == m.shaper
            &&& z == (EntryModel { live: z.live, ..e })
            &&& z.live.len() == e.live.len()
            &&& forall|j: int| 0 <= j < e.live.len() && j != k ==> #[trigger] z.live[j] == e.live[j]
            &&& z.live[k].0 == slot
            &&& (sent && s.uploaded + bytes <= u64::MAX) ==> z.live[k].1.uploaded == s.uploaded
                + bytes
            &&& sent ==> z.live[k].1.downloaded == s.downloaded
            &&& (!sent && s.downloaded + bytes <= u64::MAX) ==> z.live[k].1.downloaded
                == s.downloaded + bytes
            &&& !sent ==> z.live[k].1.uploaded == s.uploaded
        }),
{
    lemma_find_unique(m.torrents, i);
    let e = m.torrents[i].1;
    assert(e.wf());
    lemma_find_unique(e.live, k);
}

/// A connection that leaves takes its buckets and its counters with it, and what it
/// sent and received stays with its torrent, each in its direction. Nothing else
/// changes.
pub proof fn law_leaving_peer_leaves_its_bytes<H>(m: EngineModel<H>, i: int, k: int)
    requires
        m.wf(),
        0 <= i < m.torrents.len(),
        0 <= k < m.torrents[i].1.live.len(),
    ensures
        ({
            let e = m.torrents[i].1;
            let (slot, s) = e.live[k];
            let n = m.left(m.torrents[i].0, slot);
            let z = n.torrents[i].1;
            &&& others_untouched(m, n, i) && n.global_count == m.global_count
            &&& z == (EntryModel { live: z.live, stats: z.stats, ..e })
            &&& z.live.len() == e.live.len() - 1
            &&& forall|j: int|
                0 <= j < z.live.len() ==> {
                    &&& (#[trigger] z.live[j]).0 != slot
                    &&& j < k ==> z.live[j] == e.live[j]
                    &&& j >= k ==> z.live[j] == e.live[j + 1]
                }
            &&& e.stats.disconnected_up + s.uploaded <= u64::MAX ==> z.stats.disconnected_up
                == e.stats.disconnected_up + s.uploaded
            &&& e.stats.disconnected_down + s.downloaded <= u64::MAX ==> z.stats.disconnected_down
                == e.stats.disconnected_down + s.downloaded
            &&& find_key(n.shaper.peers, slot) is None
            &&& n.shaper.torrents == m.shaper.torrents && n.shaper.session == m.shaper.session
        }),
{
    lemma_find_unique(m.torrents, i);
    let e = m.torrents[i].1;
    let slot = e.live[k].0;
    assert(e.wf());
    lemma_find_unique(e.live, k);
    crate::keyed::lemma_without_entry(m.shaper.peers, slot);
    let n = m.left(m.torrents[i].0, slot);
    let z = n.torrents[i].1;
    assert forall|j: int| 0 <= j < z.live.len() implies (#[trigger] z.live[j]).0 != slot by {
        let x = if j < k { j } else { j + 1 };
        assert(e.live[x].0 != e.live[k].0);
    }
}

} // verus!
