//! The registry as a mathematical value, and what every change of it keeps.
use crate::arith::wrapped;
use crate::engine::request::{AddTorrentRequest, AddMagnetRequest, PeerCapScope};
use crate::ids::{PeerSlot, TorrentId};
use crate::idset::{among, hashes_distinct, law_remove_undoes_insert, lemma_without, without};
use crate::keyed::{
    find_key, keys_distinct, lemma_find, lemma_find_at, lemma_find_same_keys, lemma_find_unique,
    lemma_with_entry, lemma_without_entry, with_entry, without_entry,
};
use crate::net::PeerAddr;
use crate::session::model::SessionModel;
use crate::session::params::ParamsModel;
use crate::session::peer::PeerConfig;
use crate::session::shaper::{
    law_shaper_stays_sound, DuplexModel, Flow, ShaperModel, PASSTHROUGH_RATE,
};
use crate::session::stats::{sum_down, sum_up, PeerStats, PerTorrentStats};
use vstd::prelude::*;

verus! {

/// Takes a place among the peers of all torrents and of this one, if both have
/// room.
pub fn reserve_peer_slot(
    global_count: &mut usize,
    global_cap: usize,
    torrent_count: &mut usize,
    torrent_cap: usize,
) -> (r: Result<(), PeerCapScope>)
    ensures
        r == reservation(
            *old(global_count) as int,
            global_cap as int,
            *old(torrent_count) as int,
            torrent_cap as int,
        ),
        *final(global_count) == *old(global_count) + (if r is Ok {
            1int
        } else {
            0
        }),
        *final(torrent_count) == *old(torrent_count) + (if r is Ok {
            1int
        } else {
            0
        }),
{
    if *global_count >= global_cap {
        return Err(PeerCapScope::Global);
    }
    if *torrent_count >= torrent_cap {
        return Err(PeerCapScope::Torrent);
    }
    *global_count = *global_count + 1;
    *torrent_count = *torrent_count + 1;
    Ok(())
}

/// Gives a place back.
pub fn release_peer_slot(global_count: &mut usize, torrent_count: &mut usize)
    requires
        *old(global_count) > 0,
        *old(torrent_count) > 0,
    ensures
        *final(global_count) == *old(global_count) - 1,
        *final(torrent_count) == *old(torrent_count) - 1,
{
    *torrent_count = *torrent_count - 1;
    *global_count = *global_count - 1;
}

/// Whether there is room for one more peer, of all torrents first.
pub open spec fn reservation(
    global_count: int,
    global_cap: int,
    torrent_count: int,
    torrent_cap: int,
) -> Result<(), PeerCapScope> {
    if global_count >= global_cap {
        Err(PeerCapScope::Global)
    } else if torrent_count >= torrent_cap {
        Err(PeerCapScope::Torrent)
    } else {
        Ok(())
    }
}

/// A reservation never goes past a limit, and giving a place back undoes it.
pub proof fn law_caps_hold(
    global_count: int,
    global_cap: int,
    torrent_count: int,
    torrent_cap: int,
)
    requires
        reservation(global_count, global_cap, torrent_count, torrent_cap) is Ok,
    ensures
        global_count + 1 <= global_cap,
        torrent_count + 1 <= torrent_cap,
{
}

/// A registered torrent, by value.
#[verifier::ext_equal]
pub struct EntryModel<H> {
    /// What connections are set up with.
    pub config: PeerConfig,
    /// Its length.
    pub total_length: u64,
    /// Most peers.
    pub peer_cap: usize,
    /// What reaches its session and its storage.
    pub handle: H,
    /// Places that are taken.
    pub peer_count: int,
    /// The ids of its peers.
    pub ids: Seq<Seq<u8>>,
    /// What peers that left had sent and received.
    pub stats: PerTorrentStats,
    /// What its peers sent and received.
    pub live: Seq<(PeerSlot, PeerStats)>,
}

impl<H> EntryModel<H> {
    /// A torrent without peers.
    pub open spec fn fresh(
        config: PeerConfig,
        total_length: u64,
        peer_cap: usize,
        handle: H,
    ) -> EntryModel<H> {
        EntryModel {
            config,
            total_length,
            peer_cap,
            handle,
            peer_count: 0,
            ids: Seq::empty(),
            stats: PerTorrentStats { disconnected_up: 0, disconnected_down: 0 },
            live: Seq::empty(),
        }
    }

    /// No peer is there twice, and every peer has a place within the limit.
    pub open spec fn wf(self) -> bool {
        &&& hashes_distinct(self.ids)
        &&& keys_distinct(self.live)
        &&& self.ids.len() <= self.peer_count <= self.peer_cap
    }
}

/// The places that are taken in all these torrents.
pub open spec fn places<H>(torrents: Seq<(TorrentId, EntryModel<H>)>) -> int
    decreases torrents.len(),
{
    if torrents.len() == 0 {
        0
    } else {
        places(torrents.drop_last()) + torrents.last().1.peer_count
    }
}

/// The registry by value.
#[verifier::ext_equal]
pub struct EngineModel<H> {
    /// The number of the next torrent.
    pub next_torrent: u64,
    /// The number of the next connection.
    pub next_slot: u64,
    /// The torrents.
    pub torrents: Seq<(TorrentId, EntryModel<H>)>,
    /// The torrents by their hashes.
    pub index: Seq<(Seq<u8>, TorrentId)>,
    /// Places that are taken.
    pub global_count: int,
    /// Most places.
    pub global_cap: usize,
    /// The limits on bandwidth.
    pub shaper: ShaperModel,
    /// The port that we listen on; zero for none.
    pub listen_port: u16,
}

impl<H> EngineModel<H> {
    /// Numbers are not used twice, no torrent is registered twice, and every
    /// place that a torrent gave out counts among all.
    pub open spec fn wf(self) -> bool {
        &&& keys_distinct(self.torrents)
        &&& keys_distinct(self.index)
        &&& self.shaper.wf()
        &&& forall|i: int|
            0 <= i < self.torrents.len() ==> (#[trigger] self.torrents[i]).1.wf()
                && self.torrents[i].0.number() < self.next_torrent
        &&& 0 <= places(self.torrents) <= self.global_count <= usize::MAX
    }

    /// Where a torrent stands.
    pub open spec fn at(self, id: TorrentId) -> Option<int> {
        find_key(self.torrents, id)
    }

    /// After a torrent was added.
    pub open spec fn added(self, id: TorrentId, entry: EntryModel<H>) -> EngineModel<H> {
        EngineModel {
            next_torrent: (self.next_torrent + 1) as u64,
            torrents: self.torrents.push((id, entry)),
            index: with_entry(self.index, entry.config.info_hash@, id),
            shaper: self.shaper.with_torrent(
                id,
                DuplexModel::full(PASSTHROUGH_RATE, PASSTHROUGH_RATE),
            ),
            ..self
        }
    }

    /// After the torrent at place `i` was taken out.
    pub open spec fn dropped(self, i: int) -> EngineModel<H> {
        let (id, entry) = self.torrents[i];
        EngineModel {
            torrents: self.torrents.remove(i),
            index: without_entry(self.index, entry.config.info_hash@),
            shaper: self.shaper.without_torrent(id),
            ..self
        }
    }

    /// With another entry at place `i`.
    pub open spec fn with(self, i: int, entry: EntryModel<H>) -> EngineModel<H> {
        EngineModel { torrents: self.torrents.update(i, (self.torrents[i].0, entry)), ..self }
    }

    /// What a new connection of the torrent at place `i` is set up with.
    pub open spec fn stamped(self, i: int, addr: Option<PeerAddr>) -> PeerConfig {
        PeerConfig {
            remote_addr: addr,
            local_listen_port: if self.listen_port == 0 {
                None
            } else {
                Some(self.listen_port)
            },
            ..self.torrents[i].1.config
        }
    }

    /// Whether there is room for a peer of the torrent at place `i`.
    pub open spec fn room(self, i: int) -> Result<(), PeerCapScope> {
        reservation(
            self.global_count,
            self.global_cap as int,
            self.torrents[i].1.peer_count,
            self.torrents[i].1.peer_cap as int,
        )
    }

    /// After a place was given to a peer of the torrent at place `i`.
    pub open spec fn seated(self, i: int) -> EngineModel<H> {
        let entry = self.torrents[i].1;
        EngineModel { global_count: self.global_count + 1, ..self }.with(
            i,
            EntryModel { peer_count: entry.peer_count + 1, ..entry },
        )
    }

    /// After a peer of a torrent gave its place back. The place of a peer whose
    /// torrent is gone counts among all only.
    pub open spec fn unseated(self, id: TorrentId) -> EngineModel<H> {
        let less = EngineModel { global_count: self.global_count - 1, ..self };
        match self.at(id) {
            Some(i) => {
                let entry = self.torrents[i].1;
                less.with(i, EntryModel { peer_count: entry.peer_count - 1, ..entry })
            },
            None => less,
        }
    }

    /// After a peer id was put down, or taken away.
    pub open spec fn with_ids(self, i: int, ids: Seq<Seq<u8>>) -> EngineModel<H> {
        self.with(i, EntryModel { ids, ..self.torrents[i].1 })
    }

    /// A place can be given back: the torrent has one that is not needed by a
    /// peer id, or the torrent is gone and there are places of such torrents.
    pub open spec fn spare_place(self, id: TorrentId) -> bool {
        match self.at(id) {
            Some(i) => self.torrents[i].1.peer_count > self.torrents[i].1.ids.len(),
            None => self.global_count > places(self.torrents),
        }
    }

    /// A peer of this id has a place with the torrent, or the torrent is gone
    /// and there are places of such torrents.
    pub open spec fn holds_place(self, id: TorrentId, peer_id: Seq<u8>) -> bool {
        match self.at(id) {
            Some(i) => among(self.torrents[i].1.ids, peer_id),
            None => self.global_count > places(self.torrents),
        }
    }

    /// After a peer gave back its place and its id.
    pub open spec fn departed(self, id: TorrentId, peer_id: Seq<u8>) -> EngineModel<H> {
        let freed = match self.at(id) {
            Some(i) => self.with_ids(i, without(self.torrents[i].1.ids, peer_id)),
            None => self,
        };
        freed.unseated(id)
    }
}

proof fn lemma_places_push<H>(torrents: Seq<(TorrentId, EntryModel<H>)>, e: (TorrentId, EntryModel<H>))
    ensures
        places(torrents.push(e)) == places(torrents) + e.1.peer_count,
{
    assert(torrents.push(e).drop_last() =~= torrents);
}

proof fn lemma_places_update<H>(
    torrents: Seq<(TorrentId, EntryModel<H>)>,
    i: int,
    e: (TorrentId, EntryModel<H>),
)
    requires
        0 <= i < torrents.len(),
    ensures
        places(torrents.update(i, e)) == places(torrents) - torrents[i].1.peer_count
            + e.1.peer_count,
    decreases torrents.len(),
{
    let after = torrents.update(i, e);
    if i == torrents.len() - 1 {
        assert(after.drop_last() =~= torrents.drop_last());
    } else {
        lemma_places_update(torrents.drop_last(), i, e);
        assert(after.drop_last() =~= torrents.drop_last().update(i, e));
        assert(torrents.drop_last()[i] == torrents[i]);
    }
}

proof fn lemma_places_remove<H>(torrents: Seq<(TorrentId, EntryModel<H>)>, i: int)
    requires
        0 <= i < torrents.len(),
    ensures
        places(torrents.remove(i)) == places(torrents) - torrents[i].1.peer_count,
    decreases torrents.len(),
{
    let after = torrents.remove(i);
    if i == torrents.len() - 1 {
        assert(after =~= torrents.drop_last());
    } else {
        lemma_places_remove(torrents.drop_last(), i);
        assert(after.drop_last() =~= torrents.drop_last().remove(i));
        assert(after.last() == torrents.last());
        assert(torrents.drop_last()[i] == torrents[i]);
    }
}

/// With counts that are not negative, one of them is no more than all.
pub proof fn lemma_places_bound<H>(torrents: Seq<(TorrentId, EntryModel<H>)>, i: int)
    requires
        forall|j: int| 0 <= j < torrents.len() ==> (#[trigger] torrents[j]).1.peer_count >= 0,
        0 <= i < torrents.len(),
    ensures
        places(torrents) >= torrents[i].1.peer_count,
        places(torrents) >= 0,
    decreases torrents.len(),
{
    let front = torrents.drop_last();
    assert forall|j: int| 0 <= j < front.len() implies (#[trigger] front[j]).1.peer_count >= 0 by {
        assert(front[j] == torrents[j]);
    }
    assert(torrents[torrents.len() - 1].1.peer_count >= 0);
    if front.len() > 0 {
        if i < front.len() {
            lemma_places_bound(front, i);
            assert(front[i] == torrents[i]);
        } else {
            lemma_places_bound(front, 0);
        }
    } else {
        assert(places(front) == 0);
    }
}

/// With counts that are not negative, neither is their sum.
pub proof fn lemma_places_nonnegative<H>(torrents: Seq<(TorrentId, EntryModel<H>)>)
    requires
        forall|j: int| 0 <= j < torrents.len() ==> (#[trigger] torrents[j]).1.peer_count >= 0,
    ensures
        places(torrents) >= 0,
{
    if torrents.len() > 0 {
        lemma_places_bound(torrents, 0);
    }
}

/// Replacing an entry leaves the registry sound when the entry is, and the places
/// still add up.
pub proof fn lemma_with_keeps<H>(m: EngineModel<H>, i: int, entry: EntryModel<H>)
    requires
        m.wf() || (keys_distinct(m.torrents) && keys_distinct(m.index) && m.shaper.wf() && forall|j:
            int|
            0 <= j < m.torrents.len() ==> (#[trigger] m.torrents[j]).1.wf()
                && m.torrents[j].0.number() < m.next_torrent),
        0 <= i < m.torrents.len(),
        entry.wf(),
        places(m.torrents) - m.torrents[i].1.peer_count + entry.peer_count <= m.global_count
            <= usize::MAX,
    ensures
        m.with(i, entry).wf(),
        m.with(i, entry).torrents.len() == m.torrents.len(),
        places(m.with(i, entry).torrents) == places(m.torrents) - m.torrents[i].1.peer_count
            + entry.peer_count,
        forall|k: TorrentId| m.with(i, entry).at(k) == #[trigger] m.at(k),
{
    let after = m.with(i, entry);
    lemma_places_update(m.torrents, i, (m.torrents[i].0, entry));
    assert forall|j: int| 0 <= j < after.torrents.len() implies (
    #[trigger] after.torrents[j]).1.wf() && after.torrents[j].0.number() < after.next_torrent by {
        assert(m.torrents[j].1.wf());
    }
    assert forall|a: int, b: int|
        0 <= a < after.torrents.len() && 0 <= b < after.torrents.len() && a != b implies (
    #[trigger] after.torrents[a]).0 != (#[trigger] after.torrents[b]).0 by {
        assert(m.torrents[a].0 != m.torrents[b].0);
    }
    assert forall|k: TorrentId| after.at(k) == #[trigger] m.at(k) by {
        lemma_find_same_keys(after.torrents, m.torrents, k);
    }
    lemma_places_nonnegative(after.torrents);
}

/// Giving a place leaves the registry sound.
pub proof fn law_seating_keeps<H>(m: EngineModel<H>, i: int)
    requires
        m.wf(),
        0 <= i < m.torrents.len(),
        m.room(i) is Ok,
    ensures
        m.seated(i).wf(),
        m.seated(i).global_count <= m.global_cap,
        m.seated(i).torrents[i].1.peer_count <= m.torrents[i].1.peer_cap,
        m.seated(i).spare_place(m.torrents[i].0),
        forall|k: TorrentId| m.seated(i).at(k) == #[trigger] m.at(k),
{
    let entry = m.torrents[i].1;
    let more = EngineModel { global_count: m.global_count + 1, ..m };
    assert(m.torrents[i].1.wf());
    lemma_with_keeps(more, i, EntryModel { peer_count: entry.peer_count + 1, ..entry });
    assert forall|k: TorrentId| m.seated(i).at(k) == #[trigger] m.at(k) by {
        assert(more.at(k) == m.at(k));
    }
    lemma_find_unique(m.torrents, i);
    assert(more.at(m.torrents[i].0) == Some(i));
}

/// Giving a place back leaves the registry sound, and undoes taking it.
pub proof fn law_unseating_keeps<H>(m: EngineModel<H>, id: TorrentId)
    requires
        m.wf(),
        m.spare_place(id),
    ensures
        m.unseated(id).wf(),
        m.unseated(id).global_count == m.global_count - 1,
        forall|k: TorrentId| m.unseated(id).at(k) == #[trigger] m.at(k),
{
    let less = EngineModel { global_count: m.global_count - 1, ..m };
    lemma_find(m.torrents, id);
    match m.at(id) {
        Some(i) => {
            let entry = m.torrents[i].1;
            assert(entry.wf());
            lemma_with_keeps(less, i, EntryModel { peer_count: entry.peer_count - 1, ..entry });
            assert forall|k: TorrentId| m.unseated(id).at(k) == #[trigger] m.at(k) by {
                assert(less.at(k) == m.at(k));
            }
        },
        None => {},
    }
}

/// A peer's departure leaves the registry sound: its id is free again, and one
/// place more.
pub proof fn law_departure_frees<H>(m: EngineModel<H>, id: TorrentId, peer_id: Seq<u8>)
    requires
        m.wf(),
        m.holds_place(id, peer_id),
    ensures
        m.departed(id, peer_id).wf(),
        m.departed(id, peer_id).global_count == m.global_count - 1,
        m.at(id) is Some ==> {
            let i = m.at(id)->0;
            let after = m.departed(id, peer_id).torrents[i].1;
            &&& !among(after.ids, peer_id)
            &&& after.peer_count == m.torrents[i].1.peer_count - 1
        },
        forall|k: TorrentId| m.departed(id, peer_id).at(k) == #[trigger] m.at(k),
{
    lemma_find(m.torrents, id);
    match m.at(id) {
        Some(i) => {
            let entry = m.torrents[i].1;
            assert(entry.wf());
            let ids = without(entry.ids, peer_id);
            lemma_without(entry.ids, peer_id);
            lemma_with_keeps(m, i, EntryModel { ids, ..entry });
            let freed = m.with_ids(i, ids);
            assert(freed.at(id) == m.at(id));
            law_unseating_keeps(freed, id);
            assert forall|k: TorrentId| m.departed(id, peer_id).at(k) == #[trigger] m.at(k) by {
                assert(freed.at(k) == m.at(k));
            }
        },
        None => {
            law_unseating_keeps(m, id);
        },
    }
}

/// A torrent that is added gets an id that none before it had. The list of
/// torrents gains it and nothing else, it stands there as it was registered, and
/// every other torrent stands where and as it stood.
pub proof fn law_added_torrent_is_listed<H>(
    m: EngineModel<H>,
    id: TorrentId,
    entry: EntryModel<H>,
    other: TorrentId,
)
    requires
        m.wf(),
        id.number() == m.next_torrent,
        m.next_torrent < u64::MAX,
    ensures
        m.at(id) is None,
        forall|j: int|
            0 <= j < m.torrents.len() ==> (#[trigger] m.torrents[j]).0.number() < id.number(),
        id.number() < m.added(id, entry).next_torrent,
        m.added(id, entry).torrents == m.torrents.push((id, entry)),
        m.added(id, entry).at(id) == Some(m.torrents.len() as int),
        m.added(id, entry).torrents[m.torrents.len() as int].1 == entry,
        other != id ==> m.added(id, entry).at(other) == m.at(other),
{
    let after = m.added(id, entry);
    let n = m.torrents.len() as int;
    lemma_find(m.torrents, id);
    lemma_find(m.torrents, other);
    lemma_find(after.torrents, other);
    assert forall|j: int| 0 <= j < n implies (#[trigger] after.torrents[j]).0 != id by {
        assert(after.torrents[j] == m.torrents[j]);
    }
    lemma_find_at(after.torrents, id, n);
    if other != id {
        match m.at(other) {
            Some(i) => {
                assert(after.torrents[i] == m.torrents[i]);
                lemma_find_at(after.torrents, other, i);
            },
            None => {
                if let Some(i) = after.at(other) {
                    assert(after.torrents[i] == m.torrents[i]);
                }
            },
        }
    }
}

/// Adding a torrent leaves the registry sound, and the torrent can be found.
pub proof fn law_adding_keeps<H>(m: EngineModel<H>, id: TorrentId, entry: EntryModel<H>)
    requires
        m.wf(),
        entry.wf(),
        entry.peer_count == 0,
        id.number() == m.next_torrent,
        m.next_torrent < u64::MAX,
    ensures
        m.added(id, entry).wf(),
        m.added(id, entry).at(id) == Some(m.torrents.len() as int),
        find_key(m.added(id, entry).index, entry.config.info_hash@) is Some,
{
    let after = m.added(id, entry);
    let n = m.torrents.len() as int;
    lemma_places_push(m.torrents, (id, entry));
    lemma_with_entry(m.index, entry.config.info_hash@, id);
    law_shaper_stays_sound(
        m.shaper,
        PeerSlot(0),
        id,
        DuplexModel::full(PASSTHROUGH_RATE, PASSTHROUGH_RATE),
    );
    assert forall|j: int| 0 <= j < n implies (#[trigger] after.torrents[j]).0 != id by {
        assert(after.torrents[j] == m.torrents[j]);
        assert(m.torrents[j].0.number() < m.next_torrent);
    }
    lemma_find_at(after.torrents, id, n);
    assert forall|j: int| 0 <= j < after.torrents.len() implies (
    #[trigger] after.torrents[j]).1.wf() && after.torrents[j].0.number() < after.next_torrent by {
        if j < n {
            assert(after.torrents[j] == m.torrents[j]);
        }
    }
    assert forall|a: int, b: int|
        0 <= a < after.torrents.len() && 0 <= b < after.torrents.len() && a != b implies (
    #[trigger] after.torrents[a]).0 != (#[trigger] after.torrents[b]).0 by {
        if a < n && b < n {
            assert(m.torrents[a].0 != m.torrents[b].0);
        }
    }
}

/// Taking a torrent out leaves the registry sound, and the torrent is gone.
pub proof fn law_dropping_keeps<H>(m: EngineModel<H>, i: int)
    requires
        m.wf(),
        0 <= i < m.torrents.len(),
    ensures
        m.dropped(i).wf(),
        m.dropped(i).at(m.torrents[i].0) is None,
        find_key(m.dropped(i).index, m.torrents[i].1.config.info_hash@) is None,
{
    let after = m.dropped(i);
    let (id, entry) = m.torrents[i];
    lemma_places_remove(m.torrents, i);
    lemma_without_entry(m.index, entry.config.info_hash@);
    law_shaper_stays_sound(m.shaper, PeerSlot(0), id, m.shaper.session);
    assert(entry.wf());
    assert forall|j: int| 0 <= j < after.torrents.len() implies (
    #[trigger] after.torrents[j]).1.wf() && after.torrents[j].0.number() < after.next_torrent
        && after.torrents[j].0 != id by {
        let q = if j < i {
            j
        } else {
            j + 1
        };
        assert(after.torrents[j] == m.torrents[q]);
        assert(m.torrents[q].0 != m.torrents[i].0);
    }
    assert forall|a: int, b: int|
        0 <= a < after.torrents.len() && 0 <= b < after.torrents.len() && a != b implies (
    #[trigger] after.torrents[a]).0 != (#[trigger] after.torrents[b]).0 by {
        let x = if a < i {
            a
        } else {
            a + 1
        };
        let y = if b < i {
            b
        } else {
            b + 1
        };
        assert(after.torrents[a] == m.torrents[x] && after.torrents[b] == m.torrents[y]);
        assert(m.torrents[x].0 != m.torrents[y].0);
    }
    lemma_find(after.torrents, id);
    lemma_places_nonnegative(after.torrents);
}

/// A session with what a request brings along.
pub open spec fn prepared(
    m: SessionModel,
    have: Seq<bool>,
    info: Option<Seq<u8>>,
    pex_interval: Option<u64>,
) -> SessionModel {
    let a = if have.len() > 0 {
        m.with_initial(have)
    } else {
        m
    };
    let b = match info {
        Some(bytes) => SessionModel { info_dict: Some(bytes), ..a },
        None => a,
    };
    match pex_interval {
        Some(interval) => SessionModel { pex_interval: interval, ..b },
        None => b,
    }
}

/// The bytes, where there are some.
pub open spec fn bytes_view(b: Option<Vec<u8>>) -> Option<Seq<u8>> {
    match b {
        Some(v) => Some(v@),
        None => None,
    }
}

/// What the connections of a requested torrent are set up with.
pub open spec fn template_of(req: AddTorrentRequest) -> PeerConfig {
    PeerConfig {
        peer_id: req.peer_id,
        info_hash: req.info_hash,
        fast_ext: req.fast_ext,
        extension_protocol: req.extension_protocol,
        max_in_flight: req.max_in_flight,
        max_payload: req.max_payload,
        handshake_timeout: req.handshake_timeout,
        extension_handshake_timeout: req.extension_handshake_timeout,
        remote_addr: None,
        metadata_size: match req.info_dict_bytes {
            Some(v) => Some(v@.len() as u64),
            None => None,
        },
        local_listen_port: None,
    }
}

/// What the connections of a torrent of a magnet link are set up with.
pub open spec fn magnet_template_of(req: AddMagnetRequest) -> PeerConfig {
    PeerConfig {
        peer_id: req.peer_id,
        info_hash: req.magnet.info_hash,
        fast_ext: req.fast_ext,
        extension_protocol: req.extension_protocol,
        max_in_flight: req.max_in_flight,
        max_payload: req.max_payload,
        handshake_timeout: req.handshake_timeout,
        extension_handshake_timeout: req.extension_handshake_timeout,
        remote_addr: None,
        metadata_size: None,
        local_listen_port: None,
    }
}

/// The parameters that stand in until the metadata is known: one piece of one
/// block.
pub open spec fn placeholder(p: ParamsModel) -> bool {
    &&& p.piece_count == 1
    &&& p.piece_length == 16_384
    &&& p.total_length == 16_384
    &&& p.piece_hashes == Seq::new(20, |i: int| 0u8)
    &&& !p.private
}

/// The counters of the connections.
pub open spec fn live_stats<'a>(live: Seq<(PeerSlot, PeerStats)>) -> Seq<&'a PeerStats> {
    Seq::new(live.len(), |k: int| &live[k].1)
}

/// The counters after bytes went over the connection.
pub open spec fn counted_stats(stats: PeerStats, flow: Flow, bytes: u64) -> PeerStats {
    match flow {
        Flow::Up => PeerStats { uploaded: wrapped(stats.uploaded, bytes), ..stats },
        Flow::Down => PeerStats { downloaded: wrapped(stats.downloaded, bytes), ..stats },
    }
}

/// Where the torrent stands that a peer asked for by its hash.
pub open spec fn inbound_torrent<H>(m: EngineModel<H>, info_hash: Seq<u8>) -> Option<int> {
    match find_key(m.index, info_hash) {
        Some(k) => m.at(m.index[k].1),
        None => None,
    }
}

impl<H> EntryModel<H> {
    /// With fresh counters for a connection.
    pub open spec fn with_live(self, slot: PeerSlot) -> EntryModel<H> {
        EntryModel {
            live: with_entry(self.live, slot, PeerStats { uploaded: 0, downloaded: 0 }),
            ..self
        }
    }

    /// With the counters of a connection taken over.
    pub open spec fn without_live(self, slot: PeerSlot) -> EntryModel<H> {
        match find_key(self.live, slot) {
            Some(k) => EntryModel {
                live: self.live.remove(k),
                stats: self.stats.with(self.live[k].1),
                ..self
            },
            None => self,
        }
    }
}

impl<H> EngineModel<H> {
    /// After a connection got its buckets and its counters.
    pub open spec fn joined(self, id: TorrentId, slot: PeerSlot) -> EngineModel<H> {
        let limited = EngineModel {
            shaper: self.shaper.with_peer(
                slot,
                id,
                DuplexModel::full(PASSTHROUGH_RATE, PASSTHROUGH_RATE),
            ),
            ..self
        };
        match self.at(id) {
            Some(i) => limited.with(i, self.torrents[i].1.with_live(slot)),
            None => limited,
        }
    }

    /// After bytes went over a connection.
    pub open spec fn counted(self, id: TorrentId, slot: PeerSlot, flow: Flow, bytes: u64) -> EngineModel<
        H,
    > {
        match self.at(id) {
            Some(i) => {
                let entry = self.torrents[i].1;
                match find_key(entry.live, slot) {
                    Some(k) => self.with(
                        i,
                        EntryModel {
                            live: entry.live.update(
                                k,
                                (slot, counted_stats(entry.live[k].1, flow, bytes)),
                            ),
                            ..entry
                        },
                    ),
                    None => self,
                }
            },
            None => self,
        }
    }

    /// After the counters of a connection were taken over and its buckets given
    /// back.
    pub open spec fn left(self, id: TorrentId, slot: PeerSlot) -> EngineModel<H> {
        let freed = EngineModel { shaper: self.shaper.without_peer(slot), ..self };
        match self.at(id) {
            Some(i) => freed.with(i, self.torrents[i].1.without_live(slot)),
            None => freed,
        }
    }
}

/// A connection that joins leaves the registry sound.
pub proof fn law_joining_keeps<H>(m: EngineModel<H>, id: TorrentId, slot: PeerSlot)
    requires
        m.wf(),
    ensures
        m.joined(id, slot).wf(),
{
    let full = DuplexModel::full(PASSTHROUGH_RATE, PASSTHROUGH_RATE);
    law_shaper_stays_sound(m.shaper, slot, id, full);
    lemma_find(m.torrents, id);
    let limited = EngineModel { shaper: m.shaper.with_peer(slot, id, full), ..m };
    match m.at(id) {
        Some(i) => {
            let entry = m.torrents[i].1;
            assert(entry.wf());
            lemma_with_entry(entry.live, slot, PeerStats { uploaded: 0, downloaded: 0 });
            lemma_with_keeps(limited, i, entry.with_live(slot));
        },
        None => {},
    }
}

/// A connection that leaves leaves the registry sound, keeps every place and
/// every id, and takes nothing from what its torrent sent and received.
pub proof fn law_leaving_keeps<H>(m: EngineModel<H>, id: TorrentId, slot: PeerSlot)
    requires
        m.wf(),
    ensures
        m.left(id, slot).wf(),
        forall|k: TorrentId| m.left(id, slot).at(k) == #[trigger] m.at(k),
        forall|p: Seq<u8>|
            m.holds_place(id, p) ==> #[trigger] m.left(id, slot).holds_place(id, p),
        places(m.left(id, slot).torrents) == places(m.torrents),
{
    let i = m.at(id);
    lemma_find(m.torrents, id);
    let freed = EngineModel { shaper: m.shaper.without_peer(slot), ..m };
    law_shaper_stays_sound(m.shaper, slot, id, m.shaper.session);
    match i {
        Some(i) => {
            let entry = m.torrents[i].1;
            assert(entry.wf());
            let after = entry.without_live(slot);
            lemma_find(entry.live, slot);
            match find_key(entry.live, slot) {
                Some(k) => {
                    assert forall|a: int, b: int|
                        0 <= a < after.live.len() && 0 <= b < after.live.len() && a != b implies (
                    #[trigger] after.live[a]).0 != (#[trigger] after.live[b]).0 by {
                        let x = if a < k {
                            a
                        } else {
                            a + 1
                        };
                        let y = if b < k {
                            b
                        } else {
                            b + 1
                        };
                        assert(after.live[a] == entry.live[x] && after.live[b] == entry.live[y]);
                        assert(entry.live[x].0 != entry.live[y].0);
                    }
                },
                None => {},
            }
            lemma_with_keeps(freed, i, after);
            assert forall|k: TorrentId| m.left(id, slot).at(k) == #[trigger] m.at(k) by {
                assert(freed.at(k) == m.at(k));
            }
        },
        None => {
            assert forall|k: TorrentId| m.left(id, slot).at(k) == #[trigger] m.at(k) by {
                assert(freed.at(k) == m.at(k));
            }
        },
    }
}

/// The whole life of a connection leaves the places and the ids as they were: the
/// place and the id that it took are given back.
pub proof fn law_connection_gives_everything_back<H>(m: EngineModel<H>, i: int, peer_id: Seq<u8>)
    requires
        m.wf(),
        0 <= i < m.torrents.len(),
        m.room(i) is Ok,
        !among(m.torrents[i].1.ids, peer_id),
    ensures
        ({
            let id = m.torrents[i].0;
            let open = m.seated(i).with_ids(i, m.torrents[i].1.ids.push(peer_id));
            &&& open.holds_place(id, peer_id)
            &&& open.departed(id, peer_id).torrents == m.torrents
            &&& open.departed(id, peer_id).global_count == m.global_count
        }),
{
    let id = m.torrents[i].0;
    let entry = m.torrents[i].1;
    let ids = entry.ids.push(peer_id);
    let open = m.seated(i).with_ids(i, ids);
    lemma_find_unique(m.torrents, i);
    law_seating_keeps(m, i);
    assert(m.seated(i).at(id) == m.at(id));
    lemma_find_same_keys(open.torrents, m.torrents, id);
    assert(ids[entry.ids.len() as int] == peer_id);
    law_remove_undoes_insert(entry.ids, peer_id);
    let freed = open.with_ids(i, without(ids, peer_id));
    lemma_find_same_keys(freed.torrents, m.torrents, id);
    assert(open.departed(id, peer_id).torrents =~= m.torrents);
}

proof fn lemma_live_remove(live: Seq<(PeerSlot, PeerStats)>, k: int)
    requires
        0 <= k < live.len(),
    ensures
        sum_up(live_stats(live)) == sum_up(live_stats(live.remove(k))) + live[k].1.uploaded,
        sum_down(live_stats(live)) == sum_down(live_stats(live.remove(k))) + live[k].1.downloaded,
    decreases live.len(),
{
    let rest = live.remove(k);
    assert(live_stats(live).drop_last() =~= live_stats(live.drop_last()));
    if k == live.len() - 1 {
        assert(rest =~= live.drop_last());
    } else {
        let front = live.drop_last();
        lemma_live_remove(front, k);
        assert(front[k] == live[k]);
        assert(rest.drop_last() =~= front.remove(k));
        assert(rest.last() == live.last());
        assert(live_stats(rest).drop_last() =~= live_stats(rest.drop_last()));
    }
}

/// A connection that leaves takes nothing from what its torrent sent and
/// received, as long as the counters of peers that left have room.
pub proof fn law_leaving_peer_still_counts<H>(entry: EntryModel<H>, slot: PeerSlot)
    requires
        find_key(entry.live, slot) matches Some(k) ==> {
            &&& entry.stats.disconnected_up + entry.live[k].1.uploaded <= u64::MAX
            &&& entry.stats.disconnected_down + entry.live[k].1.downloaded <= u64::MAX
        },
    ensures
        entry.without_live(slot).stats.totals(live_stats(entry.without_live(slot).live))
            == entry.stats.totals(live_stats(entry.live)),
{
    lemma_find(entry.live, slot);
    match find_key(entry.live, slot) {
        Some(k) => {
            lemma_live_remove(entry.live, k);
        },
        None => {},
    }
}

} // verus!
