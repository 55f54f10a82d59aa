//! The registry of torrents and their peers: who may connect, what a torrent and
//! a connection are set up with, and what is counted.
use crate::announce::{
    AnnounceEvent, AttachDhtConfig, AttachTrackerConfig, DhtLoop, TrackerLoop, TrackerModel,
};
use crate::engine::model::{
    reserve_peer_slot, release_peer_slot, EntryModel, EngineModel, lemma_places_bound,
    lemma_places_nonnegative, places,
    lemma_with_keeps, law_seating_keeps, law_unseating_keeps, law_departure_frees,
    law_adding_keeps, law_dropping_keeps, prepared, bytes_view, template_of, magnet_template_of,
    placeholder, live_stats, counted_stats, inbound_torrent, law_joining_keeps, law_leaving_keeps,
};
use crate::engine::request::{
    DEFAULT_GLOBAL_PEER_CAP, TorrentNotFoundError, TorrentStateView, AddTorrentRequest,
    AddMagnetRequest, AddTorrentError, HandshakeError, PeerCapScope, AddPeerError,
};
use crate::ids::{PeerSlot, TorrentId};
use crate::idset::{among, lemma_without, without, IdSet};
use crate::keyed::{find_key, lemma_find, lemma_find_at, with_entry, without_entry};
use crate::lex::bytes_equal;
use crate::net::PeerAddr;
use crate::peer_filter::PeerFilter;
use crate::session::messages::SessionCommand;
use crate::session::metadata_exchange::{AssemblerModel, MetadataAssembler};
use crate::session::model::SessionModel;
use crate::session::params::TorrentParams;
use crate::session::peer::{PeerConfig, PeerHandshake};
use crate::session::pex::PEX_INTERVAL;
use crate::session::shaper::refiller::run_one_tick;
use crate::session::shaper::{law_shaper_stays_sound, DuplexBuckets, Flow, Shaper};
use crate::session::stats::{PeerStats, PerTorrentStats, StatsSnapshot};
use crate::session::torrent::TorrentSession;
use vstd::prelude::*;

pub mod laws;
pub mod model;
pub mod request;

verus! {

/// A registered torrent. `H` is what reaches its session and its storage.
#[derive(Debug)]
pub struct TorrentEntry<H> {
    /// What connections are set up with.
    pub config: PeerConfig,
    /// Its length; zero as long as that is not known.
    pub total_length: u64,
    /// Most peers.
    pub peer_cap: usize,
    /// What reaches its session and its storage.
    pub handle: H,
    peer_count: usize,
    active_peer_ids: IdSet,
    stats: PerTorrentStats,
    live: Vec<(PeerSlot, PeerStats)>,
}

impl<H> View for TorrentEntry<H> {
    type V = EntryModel<H>;

    closed spec fn view(&self) -> EntryModel<H> {
        EntryModel {
            config: self.config,
            total_length: self.total_length,
            peer_cap: self.peer_cap,
            handle: self.handle,
            peer_count: self.peer_count as int,
            ids: self.active_peer_ids@,
            stats: self.stats,
            live: self.live@,
        }
    }
}

impl<H> TorrentEntry<H> {
    /// A torrent without peers.
    fn new(config: PeerConfig, total_length: u64, peer_cap: usize, handle: H) -> (r: TorrentEntry<H>)
        ensures
            r@ == EntryModel::fresh(config, total_length, peer_cap, handle),
            r@.wf(),
    {
        TorrentEntry {
            config,
            total_length,
            peer_cap,
            handle,
            peer_count: 0,
            active_peer_ids: IdSet::new(),
            stats: PerTorrentStats::new(),
            live: Vec::new(),
        }
    }
}

/// The registry.
#[derive(Debug)]
pub struct Engine<H> {
    next_torrent_id: u64,
    next_peer_slot: u64,
    torrents: Vec<(TorrentId, TorrentEntry<H>)>,
    info_hash_index: Vec<([u8; 20], TorrentId)>,
    global_peer_count: usize,
    global_peer_cap: usize,
    shaper: Shaper,
    listen_port: u16,
}

closed spec fn torrents_view<H>(s: Seq<(TorrentId, TorrentEntry<H>)>) -> Seq<
    (TorrentId, EntryModel<H>),
> {
    Seq::new(s.len(), |i: int| (s[i].0, s[i].1@))
}

closed spec fn index_view(s: Seq<([u8; 20], TorrentId)>) -> Seq<(Seq<u8>, TorrentId)> {
    Seq::new(s.len(), |i: int| (s[i].0@, s[i].1))
}

impl<H> Engine<H> {
    /// The registry by value.
    pub closed spec fn view(&self) -> EngineModel<H> {
        EngineModel {
            next_torrent: self.next_torrent_id,
            next_slot: self.next_peer_slot,
            torrents: torrents_view(self.torrents@),
            index: index_view(self.info_hash_index@),
            global_count: self.global_peer_count as int,
            global_cap: self.global_peer_cap,
            shaper: self.shaper@,
            listen_port: self.listen_port,
        }
    }

    /// The registry is sound.
    pub open spec fn wf(&self) -> bool {
        self@.wf()
    }

    /// No torrents, and the usual limit on peers.
    pub fn new() -> (r: Engine<H>)
        ensures
            r.wf(),
            r@.torrents.len() == 0,
            r@.index.len() == 0,
            r@.next_torrent == 1,
            r@.next_slot == 0,
            r@.global_count == 0,
            r@.global_cap == DEFAULT_GLOBAL_PEER_CAP,
            r@.listen_port == 0,
    {
        Engine {
            next_torrent_id: 1,
            next_peer_slot: 0,
            torrents: Vec::new(),
            info_hash_index: Vec::new(),
            global_peer_count: 0,
            global_peer_cap: DEFAULT_GLOBAL_PEER_CAP,
            shaper: Shaper::new(),
            listen_port: 0,
        }
    }

    /// With another limit on peers.
    pub fn with_global_peer_cap(self, cap: usize) -> (r: Engine<H>)
        ensures
            r@ == (EngineModel { global_cap: cap, ..self@ }),
            self.wf() ==> r.wf(),
    {
        let mut r = self;
        r.global_peer_cap = cap;
        assert(r@ =~= (EngineModel { global_cap: cap, ..self@ }));
        r
    }

    /// Takes note of the port that we listen on.
    pub fn set_listen_port(&mut self, port: u16)
        ensures
            final(self)@ == (EngineModel { listen_port: port, ..old(self)@ }),
            old(self).wf() ==> final(self).wf(),
    {
        self.listen_port = port;
        assert(self@ =~= (EngineModel { listen_port: port, ..old(self)@ }));
    }

    /// The limits on bandwidth.
    pub fn shaper(&self) -> (r: &Shaper)
        ensures
            r@ == self@.shaper,
    {
        &self.shaper
    }

    /// Takes tokens of a connection, all or none; nothing where it has no
    /// buckets.
    pub fn try_consume(&mut self, slot: PeerSlot, flow: Flow, bytes: u64) -> (r: Option<bool>)
        requires
            old(self).wf(),
        ensures
            final(self).wf(),
            r == old(self)@.shaper.allows(slot, flow, bytes),
            final(self)@ == (EngineModel {
                shaper: old(self)@.shaper.asked(slot, flow, bytes),
                ..old(self)@
            }),
    {
        let r = self.shaper.try_consume(slot, flow, bytes);
        assert(self@ =~= (EngineModel {
            shaper: old(self)@.shaper.asked(slot, flow, bytes),
            ..old(self)@
        }));
        r
    }

    /// Sets the rate of a connection. `false` where it has no buckets.
    pub fn set_peer_rate(&mut self, slot: PeerSlot, flow: Flow, rate_bps: u64) -> (r: bool)
        requires
            old(self).wf(),
        ensures
            final(self).wf(),
            r == old(self)@.shaper.buckets_of(slot) is Some,
            final(self)@ == (EngineModel {
                shaper: old(self)@.shaper.with_rate(slot, flow, rate_bps),
                ..old(self)@
            }),
    {
        let r = self.shaper.set_peer_rate(slot, flow, rate_bps);
        assert(self@ =~= (EngineModel {
            shaper: old(self)@.shaper.with_rate(slot, flow, rate_bps),
            ..old(self)@
        }));
        r
    }

    /// Gives every bucket the tokens of one interval.
    pub fn refill(&mut self, interval: u64)
        requires
            old(self).wf(),
        ensures
            final(self).wf(),
            final(self)@ == (EngineModel {
                shaper: old(self)@.shaper.refilled(interval),
                ..old(self)@
            }),
    {
        run_one_tick(&mut self.shaper, interval);
        assert(self@ =~= (EngineModel {
            shaper: old(self)@.shaper.refilled(interval),
            ..old(self)@
        }));
    }

    /// Where a torrent stands.
    fn find(&self, id: TorrentId) -> (r: Option<usize>)
        ensures
            match (r, self@.at(id)) {
                (Some(i), Some(j)) => i == j && i < self.torrents@.len(),
                (None, None) => true,
                _ => false,
            },
    {
        let ghost all = self@.torrents;
        let mut i: usize = 0;
        while i < self.torrents.len()
            invariant
                i <= self.torrents@.len(),
                all == torrents_view(self.torrents@),
                all == self@.torrents,
                forall|j: int| 0 <= j < i ==> (#[trigger] all[j]).0 != id,
            decreases self.torrents@.len() - i,
        {
            assert(all[i as int].0 == self.torrents@[i as int].0);
            if self.torrents[i].0 == id {
                proof {
                    lemma_find_at(all, id, i as int);
                }
                return Some(i);
            }
            i = i + 1;
        }
        proof {
            lemma_find(all, id);
        }
        None
    }

    /// Where a hash stands.
    fn find_hash(&self, info_hash: &[u8; 20]) -> (r: Option<usize>)
        ensures
            match (r, find_key(self@.index, info_hash@)) {
                (Some(i), Some(j)) => i == j && i < self.info_hash_index@.len(),
                (None, None) => true,
                _ => false,
            },
    {
        let ghost all = self@.index;
        let mut i: usize = 0;
        while i < self.info_hash_index.len()
            invariant
                i <= self.info_hash_index@.len(),
                all == index_view(self.info_hash_index@),
                all == self@.index,
                forall|j: int| 0 <= j < i ==> (#[trigger] all[j]).0 != info_hash@,
            decreases self.info_hash_index@.len() - i,
        {
            assert(all[i as int].0 == self.info_hash_index@[i as int].0@);
            if bytes_equal(self.info_hash_index[i].0.as_slice(), info_hash.as_slice()) {
                proof {
                    lemma_find_at(all, info_hash@, i as int);
                }
                return Some(i);
            }
            i = i + 1;
        }
        proof {
            lemma_find(all, info_hash@);
        }
        None
    }

    /// Registers a torrent without peers.
    fn register(&mut self, entry: TorrentEntry<H>) -> (id: TorrentId)
        requires
            old(self).wf(),
            old(self)@.next_torrent < u64::MAX,
            entry@.wf(),
            entry@.peer_count == 0,
        ensures
            id.number() == old(self)@.next_torrent,
            final(self)@ == old(self)@.added(id, entry@),
            final(self).wf(),
    {
        let ghost before = self@;
        let ghost model = entry@;
        let id = TorrentId::new(self.next_torrent_id);
        let info_hash: [u8; 20] = entry.config.info_hash;
        proof {
            law_adding_keeps(before, id, model);
            lemma_find(before.index, info_hash@);
        }
        self.next_torrent_id = self.next_torrent_id + 1;
        match self.find_hash(&info_hash) {
            Some(k) => {
                self.info_hash_index.set(k, (info_hash, id));
            },
            None => {
                self.info_hash_index.push((info_hash, id));
            },
        }
        assert(self@.index =~= with_entry(before.index, info_hash@, id));
        self.torrents.push((id, entry));
        assert(self@.torrents =~= before.torrents.push((id, model)));
        self.shaper.register_torrent_passthrough(id);
        assert(self@ =~= before.added(id, model));
        id
    }

    /// Adds a torrent, and gives it a session. Refuses parameters that are not
    /// acceptable.
    pub fn add_torrent(&mut self, req: AddTorrentRequest, handle: H) -> (r: Result<
        (TorrentId, TorrentSession),
        AddTorrentError,
    >)
        requires
            old(self).wf(),
            old(self)@.next_torrent < u64::MAX,
            20 * req.params.piece_count <= usize::MAX,
        ensures
            final(self).wf(),
            match (r, req.params@.defect()) {
                (Err(AddTorrentError::InvalidParams(e)), Some(defect)) => e == defect && final(
                    self)@ == old(self)@,
                (Ok((id, session)), None) => {
                    &&& id.number() == old(self)@.next_torrent
                    &&& final(self)@ == old(self)@.added(
                        id,
                        EntryModel::fresh(
                            template_of(req),
                            req.params.total_length,
                            req.peer_cap,
                            handle,
                        ),
                    )
                    &&& session.sound()
                    &&& req.params@.workable() ==> session.wf()
                    &&& session@ == prepared(
                        SessionModel::fresh(
                            id,
                            req.params@,
                            req.info_hash@,
                            req.peer_cap as nat,
                            PEX_INTERVAL,
                        ),
                        req.initial_have@,
                        bytes_view(req.info_dict_bytes),
                        req.pex_interval,
                    )
                },
                _ => false,
            },
    {
        match req.params.validate() {
            Ok(_) => {},
            Err(e) => {
                return Err(AddTorrentError::InvalidParams(e));
            },
        }
        let metadata_size: Option<u64> = match &req.info_dict_bytes {
            Some(bytes) => Some(bytes.len() as u64),
            None => None,
        };
        let config = PeerConfig {
            peer_id: req.peer_id,
            info_hash: req.info_hash,
            fast_ext: req.fast_ext,
            extension_protocol: req.extension_protocol,
            max_in_flight: req.max_in_flight,
            max_payload: req.max_payload,
            handshake_timeout: req.handshake_timeout,
            extension_handshake_timeout: req.extension_handshake_timeout,
            remote_addr: None,
            metadata_size,
            local_listen_port: None,
        };
        let entry = TorrentEntry::new(config, req.params.total_length, req.peer_cap, handle);
        let id = self.register(entry);
        let mut session = TorrentSession::new(id, req.params, req.info_hash, req.peer_cap);
        if req.initial_have.len() > 0 {
            session.apply_initial_have(req.initial_have.as_slice());
        }
        if let Some(bytes) = req.info_dict_bytes {
            session.set_info_dict_bytes(bytes);
        }
        if let Some(interval) = req.pex_interval {
            session.set_pex_interval(interval);
        }
        Ok((id, session))
    }

    /// Adds a torrent of which only the hash is known, and gives it a session
    /// that fetches the metadata first.
    pub fn add_magnet(&mut self, req: AddMagnetRequest, handle: H) -> (r: (
        TorrentId,
        TorrentSession,
    ))
        requires
            old(self).wf(),
            old(self)@.next_torrent < u64::MAX,
        ensures
            final(self).wf(),
            r.0.number() == old(self)@.next_torrent,
            final(self)@ == old(self)@.added(
                r.0,
                EntryModel::fresh(magnet_template_of(req), 0, req.peer_cap, handle),
            ),
            r.1.wf(),
            placeholder(r.1@.params),
            r.1@ == (SessionModel {
                metadata: Some(AssemblerModel::fresh(req.magnet.info_hash@)),
                ..SessionModel::fresh(
                    r.0,
                    r.1@.params,
                    req.magnet.info_hash@,
                    req.peer_cap as nat,
                    PEX_INTERVAL,
                )
            }),
    {
        let info_hash: [u8; 20] = req.magnet.info_hash;
        let params = TorrentParams {
            piece_count: 1,
            piece_length: 16_384,
            total_length: 16_384,
            piece_hashes: vec![0u8; 20],
            private: false,
        };
        assert(params@.piece_hashes =~= Seq::new(20, |i: int| 0u8));
        let config = PeerConfig {
            peer_id: req.peer_id,
            info_hash,
            fast_ext: req.fast_ext,
            extension_protocol: req.extension_protocol,
            max_in_flight: req.max_in_flight,
            max_payload: req.max_payload,
            handshake_timeout: req.handshake_timeout,
            extension_handshake_timeout: req.extension_handshake_timeout,
            remote_addr: None,
            metadata_size: None,
            local_listen_port: None,
        };
        let id = self.register(TorrentEntry::new(config, 0, req.peer_cap, handle));
        let mut session = TorrentSession::new(id, params, info_hash, req.peer_cap);
        session.set_metadata_assembler(MetadataAssembler::new(info_hash));
        (id, session)
    }

    /// Takes out the torrent at place `i`.
    fn take_out(&mut self, i: usize) -> (r: TorrentEntry<H>)
        requires
            old(self).wf(),
            i < old(self)@.torrents.len(),
        ensures
            final(self).wf(),
            final(self)@ == old(self)@.dropped(i as int),
            r@ == old(self)@.torrents[i as int].1,
    {
        let ghost before = self@;
        proof {
            law_dropping_keeps(before, i as int);
        }
        let (id, entry) = self.torrents.remove(i);
        assert(self@.torrents =~= before.torrents.remove(i as int));
        let info_hash: [u8; 20] = entry.config.info_hash;
        proof {
            lemma_find(before.index, info_hash@);
        }
        if let Some(k) = self.find_hash(&info_hash) {
            self.info_hash_index.remove(k);
        }
        assert(self@.index =~= without_entry(before.index, info_hash@));
        self.shaper.drop_torrent(id);
        assert(self@ =~= before.dropped(i as int));
        entry
    }

    /// Takes a torrent out. What reaches its session and its storage is handed
    /// back, so that the session can be ended and the files deleted.
    pub fn remove(&mut self, torrent_id: TorrentId) -> (r: Result<
        TorrentEntry<H>,
        TorrentNotFoundError,
    >)
        requires
            old(self).wf(),
        ensures
            final(self).wf(),
            match (r, old(self)@.at(torrent_id)) {
                (Ok(entry), Some(i)) => entry@ == old(self)@.torrents[i].1 && final(self)@ == old(
                    self)@.dropped(i),
                (Err(e), None) => e == TorrentNotFoundError(torrent_id) && final(self)@ == old(
                    self)@,
                _ => false,
            },
    {
        proof {
            lemma_find(self@.torrents, torrent_id);
        }
        match self.find(torrent_id) {
            Some(i) => Ok(self.take_out(i)),
            None => Err(TorrentNotFoundError(torrent_id)),
        }
    }

    /// Takes a torrent out, if it is there.
    pub fn shutdown(&mut self, torrent_id: TorrentId) -> (r: Option<TorrentEntry<H>>)
        requires
            old(self).wf(),
        ensures
            final(self).wf(),
            match (r, old(self)@.at(torrent_id)) {
                (Some(entry), Some(i)) => entry@ == old(self)@.torrents[i].1 && final(self)@
                    == old(self)@.dropped(i),
                (None, None) => final(self)@ == (EngineModel {
                    shaper: old(self)@.shaper.without_torrent(torrent_id),
                    ..old(self)@
                }),
                _ => false,
            },
    {
        proof {
            lemma_find(self@.torrents, torrent_id);
        }
        match self.find(torrent_id) {
            Some(i) => Some(self.take_out(i)),
            None => {
                proof {
                    law_shaper_stays_sound(
                        self@.shaper,
                        PeerSlot(0),
                        torrent_id,
                        self@.shaper.session,
                    );
                }
                let ghost before = self@;
                self.shaper.drop_torrent(torrent_id);
                assert(self@ =~= (EngineModel {
                    shaper: before.shaper.without_torrent(torrent_id),
                    ..before
                }));
                None
            },
        }
    }

    /// The torrents, in the order in which they were added.
    pub fn torrents(&self) -> (r: Vec<TorrentId>)
        ensures
            r@.len() == self@.torrents.len(),
            forall|i: int| 0 <= i < r@.len() ==> #[trigger] r@[i] == self@.torrents[i].0,
    {
        let mut out: Vec<TorrentId> = Vec::new();
        let mut i: usize = 0;
        while i < self.torrents.len()
            invariant
                i <= self.torrents@.len(),
                out@.len() == i,
                forall|j: int| 0 <= j < i ==> #[trigger] out@[j] == self@.torrents[j].0,
            decreases self.torrents@.len() - i,
        {
            out.push(self.torrents[i].0);
            i = i + 1;
        }
        out
    }

    /// What is registered of a torrent.
    pub fn torrent_state(&self, torrent_id: TorrentId) -> (r: Option<TorrentStateView>)
        requires
            self.wf(),
        ensures
            match (r, self@.at(torrent_id)) {
                (Some(view), Some(i)) => {
                    let entry = self@.torrents[i].1;
                    &&& view.info_hash == entry.config.info_hash
                    &&& view.total_length == entry.total_length
                    &&& view.peer_count == entry.peer_count
                    &&& view.peer_cap == entry.peer_cap
                },
                (None, None) => true,
                _ => false,
            },
    {
        match self.find(torrent_id) {
            Some(i) => {
                let entry = &self.torrents[i].1;
                assert(self@.torrents[i as int].1 == entry@);
                Some(
                    TorrentStateView {
                        info_hash: entry.config.info_hash,
                        total_length: entry.total_length,
                        peer_count: entry.peer_count,
                        peer_cap: entry.peer_cap,
                    },
                )
            },
            None => None,
        }
    }

    /// What a torrent sent and received, with its peers that left.
    pub fn torrent_stats_snapshot(&self, torrent_id: TorrentId) -> (r: Option<StatsSnapshot>)
        ensures
            match (r, self@.at(torrent_id)) {
                (Some(snap), Some(i)) => {
                    let entry = self@.torrents[i].1;
                    &&& snap.info_hash == entry.config.info_hash
                    &&& (snap.uploaded, snap.downloaded) == entry.stats.totals(
                        live_stats(entry.live),
                    )
                },
                (None, None) => true,
                _ => false,
            },
    {
        match self.find(torrent_id) {
            Some(i) => {
                let entry = &self.torrents[i].1;
                assert(self@.torrents[i as int].1 == entry@);
                let mut refs: Vec<&PeerStats> = Vec::new();
                let mut k: usize = 0;
                while k < entry.live.len()
                    invariant
                        k <= entry.live@.len(),
                        refs@.len() == k,
                        forall|j: int| 0 <= j < k ==> *(#[trigger] refs@[j]) == entry.live@[j].1,
                    decreases entry.live@.len() - k,
                {
                    refs.push(&entry.live[k].1);
                    k = k + 1;
                }
                assert(refs@ =~= live_stats(entry.live@));
                let (uploaded, downloaded) = entry.stats.snapshot(refs.as_slice());
                Some(StatsSnapshot { info_hash: entry.config.info_hash, uploaded, downloaded })
            },
            None => None,
        }
    }

    /// What reaches the session of a torrent, and its storage.
    pub fn handle(&self, torrent_id: TorrentId) -> (r: Result<&H, TorrentNotFoundError>)
        ensures
            match (r, self@.at(torrent_id)) {
                (Ok(h), Some(i)) => *h == self@.torrents[i].1.handle,
                (Err(e), None) => e == TorrentNotFoundError(torrent_id),
                _ => false,
            },
    {
        match self.find(torrent_id) {
            Some(i) => {
                assert(self@.torrents[i as int].1 == self.torrents@[i as int].1@);
                Ok(&self.torrents[i].1.handle)
            },
            None => Err(TorrentNotFoundError(torrent_id)),
        }
    }

    /// What to tell which session to pause a torrent.
    pub fn pause(&self, torrent_id: TorrentId) -> (r: Result<
        (&H, SessionCommand),
        TorrentNotFoundError,
    >)
        ensures
            match (r, self@.at(torrent_id)) {
                (Ok((h, cmd)), Some(i)) => *h == self@.torrents[i].1.handle && cmd is Pause,
                (Err(e), None) => e == TorrentNotFoundError(torrent_id),
                _ => false,
            },
    {
        match self.handle(torrent_id) {
            Ok(h) => Ok((h, SessionCommand::Pause)),
            Err(e) => Err(e),
        }
    }

    /// What to tell which session to go on with a torrent.
    pub fn resume(&self, torrent_id: TorrentId) -> (r: Result<
        (&H, SessionCommand),
        TorrentNotFoundError,
    >)
        ensures
            match (r, self@.at(torrent_id)) {
                (Ok((h, cmd)), Some(i)) => *h == self@.torrents[i].1.handle && cmd is Resume,
                (Err(e), None) => e == TorrentNotFoundError(torrent_id),
                _ => false,
            },
    {
        match self.handle(torrent_id) {
            Ok(h) => Ok((h, SessionCommand::Resume)),
            Err(e) => Err(e),
        }
    }

    /// Whether a connection to a peer of a torrent is to be attempted, given
    /// whether its address is acceptable.
    pub fn admitted(&self, torrent_id: TorrentId, addr: PeerAddr, acceptable: bool) -> (r: Result<
        (),
        AddPeerError,
    >)
        ensures
            r == (if self@.at(torrent_id) is None {
                Err::<(), AddPeerError>(AddPeerError::UnknownTorrent(torrent_id))
            } else if !acceptable {
                Err(AddPeerError::Filtered(addr))
            } else {
                Ok(())
            }),
    {
        if self.find(torrent_id).is_none() {
            return Err(AddPeerError::UnknownTorrent(torrent_id));
        }
        if !acceptable {
            return Err(AddPeerError::Filtered(addr));
        }
        Ok(())
    }

    /// Whether a connection to a peer of a torrent is to be attempted: of a known
    /// torrent, the filter is asked about the address, and its answer decides.
    pub fn add_peer<F: PeerFilter>(
        &self,
        torrent_id: TorrentId,
        addr: PeerAddr,
        filter: &F,
    ) -> (r: Result<(), AddPeerError>)
        ensures
            self@.at(torrent_id) is None ==> r == Err::<(), AddPeerError>(
                AddPeerError::UnknownTorrent(torrent_id),
            ),
            self@.at(torrent_id) is Some ==> exists|b: bool| #[trigger]
                call_ensures(F::allow, (filter, addr), b) && r == (if b {
                    Ok::<(), AddPeerError>(())
                } else {
                    Err::<(), AddPeerError>(AddPeerError::Filtered(addr))
                }),
    {
        let acceptable = filter.allow(addr);
        self.admitted(torrent_id, addr, acceptable)
    }

    /// Begins to announce a torrent to a tracker.
    pub fn attach_tracker(&self, torrent_id: TorrentId, cfg: AttachTrackerConfig) -> (r: Result<
        TrackerLoop,
        AddPeerError,
    >)
        ensures
            match (r, self@.at(torrent_id)) {
                (Ok(announces), Some(i)) => announces@ == (TrackerModel {
                    torrent: torrent_id,
                    info_hash: self@.torrents[i].1.config.info_hash,
                    peer_id: self@.torrents[i].1.config.peer_id,
                    total_length: self@.torrents[i].1.total_length,
                    cfg,
                    event: AnnounceEvent::Started,
                }),
                (Err(e), None) => e == AddPeerError::UnknownTorrent(torrent_id),
                _ => false,
            },
    {
        match self.find(torrent_id) {
            Some(i) => {
                let entry = &self.torrents[i].1;
                assert(self@.torrents[i as int].1 == entry@);
                Ok(
                    TrackerLoop::new(
                        torrent_id,
                        entry.config.info_hash,
                        entry.config.peer_id,
                        entry.total_length,
                        cfg,
                    ),
                )
            },
            None => Err(AddPeerError::UnknownTorrent(torrent_id)),
        }
    }

    /// Begins to announce a torrent to the DHT.
    pub fn attach_dht(&self, torrent_id: TorrentId, cfg: AttachDhtConfig) -> (r: Result<
        DhtLoop,
        AddPeerError,
    >)
        ensures
            match (r, self@.at(torrent_id)) {
                (Ok(announces), Some(i)) => announces == (DhtLoop {
                    torrent: torrent_id,
                    info_hash: self@.torrents[i].1.config.info_hash,
                    cfg,
                }),
                (Err(e), None) => e == AddPeerError::UnknownTorrent(torrent_id),
                _ => false,
            },
    {
        match self.find(torrent_id) {
            Some(i) => {
                let entry = &self.torrents[i].1;
                assert(self@.torrents[i as int].1 == entry@);
                Ok(DhtLoop { torrent: torrent_id, info_hash: entry.config.info_hash, cfg })
            },
            None => Err(AddPeerError::UnknownTorrent(torrent_id)),
        }
    }

    /// What a new connection of the torrent at place `i` is set up with.
    fn stamp(&self, i: usize, addr: Option<PeerAddr>) -> (r: PeerConfig)
        requires
            i < self@.torrents.len(),
        ensures
            r == self@.stamped(i as int, addr),
    {
        assert(self@.torrents[i as int].1 == self.torrents@[i as int].1@);
        let mut config: PeerConfig = self.torrents[i].1.config;
        config.remote_addr = addr;
        config.local_listen_port = if self.listen_port == 0 {
            None
        } else {
            Some(self.listen_port)
        };
        config
    }

    /// Takes a place for a peer of the torrent at place `i`.
    fn seat(&mut self, i: usize) -> (r: Result<(), PeerCapScope>)
        requires
            old(self).wf(),
            i < old(self)@.torrents.len(),
        ensures
            final(self).wf(),
            r == old(self)@.room(i as int),
            final(self)@ == (if r is Ok {
                old(self)@.seated(i as int)
            } else {
                old(self)@
            }),
    {
        let ghost before = self@;
        assert(before.torrents[i as int].1 == self.torrents@[i as int].1@);
        let cap: usize = self.torrents[i].1.peer_cap;
        let mut global: usize = self.global_peer_count;
        let mut local: usize = self.torrents[i].1.peer_count;
        match reserve_peer_slot(&mut global, self.global_peer_cap, &mut local, cap) {
            Ok(_) => {
                proof {
                    law_seating_keeps(before, i as int);
                }
                self.global_peer_count = global;
                self.torrents[i].1.peer_count = local;
                assert(self@.torrents =~= before.seated(i as int).torrents);
                assert(self@ =~= before.seated(i as int));
                Ok(())
            },
            Err(scope) => Err(scope),
        }
    }

    /// Gives back a place of a torrent.
    fn unseat(&mut self, torrent_id: TorrentId)
        requires
            old(self).wf(),
            old(self)@.spare_place(torrent_id),
        ensures
            final(self).wf(),
            final(self)@ == old(self)@.unseated(torrent_id),
    {
        let ghost before = self@;
        proof {
            law_unseating_keeps(before, torrent_id);
            lemma_find(before.torrents, torrent_id);
        }
        match self.find(torrent_id) {
            Some(i) => {
                assert(before.torrents[i as int].1 == self.torrents@[i as int].1@);
                assert(before.torrents[i as int].1.wf());
                proof {
                    assert forall|j: int| 0 <= j < before.torrents.len() implies (
                    #[trigger] before.torrents[j]).1.peer_count >= 0 by {
                        assert(before.torrents[j].1.wf());
                    }
                    lemma_places_bound(before.torrents, i as int);
                }
                let mut global: usize = self.global_peer_count;
                let mut local: usize = self.torrents[i].1.peer_count;
                release_peer_slot(&mut global, &mut local);
                self.global_peer_count = global;
                self.torrents[i].1.peer_count = local;
                assert(self@.torrents =~= before.unseated(torrent_id).torrents);
            },
            None => {
                self.global_peer_count = self.global_peer_count - 1;
            },
        }
        assert(self@ =~= before.unseated(torrent_id));
    }

    /// Whether there are places of torrents that are gone.
    fn has_orphan_place(&self) -> (r: bool)
        requires
            self.wf(),
        ensures
            r == (self@.global_count > places(self@.torrents)),
    {
        let ghost all = self@.torrents;
        let mut left: usize = self.global_peer_count;
        let mut i: usize = self.torrents.len();
        assert(all.take(i as int) =~= all);
        while i > 0
            invariant
                self.wf(),
                all == self@.torrents,
                i <= all.len(),
                all.len() == self.torrents@.len(),
                left == self@.global_count - (places(all) - places(all.take(i as int))),
                left >= places(all.take(i as int)),
            decreases i,
        {
            proof {
                let part = all.take(i as int);
                assert(part.drop_last() =~= all.take(i - 1));
                assert forall|j: int| 0 <= j < part.len() implies (
                #[trigger] part[j]).1.peer_count >= 0 by {
                    assert(all[j].1.wf());
                }
                assert forall|j: int| 0 <= j < i - 1 implies (
                #[trigger] all.take(i - 1)[j]).1.peer_count >= 0 by {
                    assert(all[j].1.wf());
                }
                lemma_places_nonnegative(all.take(i - 1));
                assert(all[i - 1].1 == self.torrents@[i - 1].1@);
            }
            i = i - 1;
            left = left - self.torrents[i].1.peer_count;
        }
        left > 0
    }

    /// Whether a connection of the torrent can go on from its handshake: it has
    /// a place without a peer id, or the torrent is gone and there are places of
    /// such torrents.
    pub fn has_spare_place(&self, torrent_id: TorrentId) -> (r: bool)
        requires
            self.wf(),
        ensures
            r == self@.spare_place(torrent_id),
    {
        match self.find(torrent_id) {
            Some(i) => {
                assert(self@.torrents[i as int].1 == self.torrents@[i as int].1@);
                self.torrents[i].1.peer_count > self.torrents[i].1.active_peer_ids.len()
            },
            None => self.has_orphan_place(),
        }
    }

    /// Whether a peer of this id has a place with the torrent, or the torrent is
    /// gone and there are places of such torrents.
    pub fn has_place(&self, torrent_id: TorrentId, peer_id: &[u8; 20]) -> (r: bool)
        requires
            self.wf(),
        ensures
            r == self@.holds_place(torrent_id, peer_id@),
    {
        match self.find(torrent_id) {
            Some(i) => {
                assert(self@.torrents[i as int].1 == self.torrents@[i as int].1@);
                self.torrents[i].1.active_peer_ids.contains(peer_id)
            },
            None => self.has_orphan_place(),
        }
    }

    /// Begins a connection of a torrent: takes a place, and says what the
    /// connection is set up with.
    pub fn attach(&mut self, torrent_id: TorrentId, addr: Option<PeerAddr>) -> (r: Result<
        PeerConfig,
        AddPeerError,
    >)
        requires
            old(self).wf(),
        ensures
            final(self).wf(),
            match old(self)@.at(torrent_id) {
                None => r == Err::<PeerConfig, AddPeerError>(
                    AddPeerError::UnknownTorrent(torrent_id),
                ) && final(self)@ == old(self)@,
                Some(i) => match old(self)@.room(i) {
                    Ok(_) => r == Ok::<PeerConfig, AddPeerError>(old(self)@.stamped(i, addr))
                        && final(self)@ == old(self)@.seated(i) && final(self)@.spare_place(
                        torrent_id,
                    ),
                    Err(scope) => r == Err::<PeerConfig, AddPeerError>(
                        AddPeerError::PeerCapExceeded { scope },
                    ) && final(self)@ == old(self)@,
                },
            },
    {
        proof {
            lemma_find(self@.torrents, torrent_id);
        }
        match self.find(torrent_id) {
            None => Err(AddPeerError::UnknownTorrent(torrent_id)),
            Some(i) => {
                let config = self.stamp(i, addr);
                proof {
                    if self@.room(i as int) is Ok {
                        law_seating_keeps(self@, i as int);
                    }
                }
                match self.seat(i) {
                    Ok(_) => Ok(config),
                    Err(scope) => Err(AddPeerError::PeerCapExceeded { scope }),
                }
            },
        }
    }

    /// Puts down the id of a peer of the torrent at place `i`, unless it is
    /// there.
    fn enter_id(&mut self, i: usize, peer_id: [u8; 20]) -> (r: bool)
        requires
            old(self).wf(),
            i < old(self)@.torrents.len(),
            old(self)@.torrents[i as int].1.peer_count > old(self)@.torrents[i as int].1.ids.len(),
        ensures
            final(self).wf(),
            ({
                let ids = old(self)@.torrents[i as int].1.ids;
                &&& r == !among(ids, peer_id@)
                &&& final(self)@ == (if r {
                    old(self)@.with_ids(i as int, ids.push(peer_id@))
                } else {
                    old(self)@
                })
            }),
            forall|k: TorrentId| final(self)@.at(k) == #[trigger] old(self)@.at(k),
    {
        let ghost before = self@;
        let ghost entry = before.torrents[i as int].1;
        assert(entry == self.torrents@[i as int].1@);
        assert(entry.wf());
        let fresh = self.torrents[i].1.active_peer_ids.insert(peer_id);
        proof {
            let now = self.torrents@[i as int].1@;
            assert(self@.torrents =~= before.torrents.update(
                i as int,
                (before.torrents[i as int].0, now),
            ));
            if fresh {
                assert(now =~= (EntryModel { ids: entry.ids.push(peer_id@), ..entry }));
                lemma_with_keeps(before, i as int, now);
                assert(self@ =~= before.with_ids(i as int, entry.ids.push(peer_id@)));
            } else {
                assert(now =~= entry);
                assert(self@ =~= before);
            }
        }
        fresh
    }

    /// Goes on after the handshake of a connection that was begun: takes the
    /// peer's id. A failed handshake and a peer that is connected already give
    /// the place back.
    pub fn on_handshake(
        &mut self,
        torrent_id: TorrentId,
        remote: Result<&PeerHandshake, HandshakeError>,
    ) -> (r: Result<(), AddPeerError>)
        requires
            old(self).wf(),
            old(self)@.spare_place(torrent_id),
        ensures
            final(self).wf(),
            match remote {
                Err(e) => r == Err::<(), AddPeerError>(AddPeerError::Handshake(e)) && final(self)@
                    == old(self)@.unseated(torrent_id),
                Ok(hs) => match old(self)@.at(torrent_id) {
                    None => r is Ok && final(self)@ == old(self)@,
                    Some(i) => if among(old(self)@.torrents[i].1.ids, hs.peer_id@) {
                        r == Err::<(), AddPeerError>(AddPeerError::PeerIdCollision) && final(
                            self)@ == old(self)@.unseated(torrent_id)
                    } else {
                        r is Ok && final(self)@ == old(self)@.with_ids(
                            i,
                            old(self)@.torrents[i].1.ids.push(hs.peer_id@),
                        ) && final(self)@.holds_place(torrent_id, hs.peer_id@)
                    },
                },
            },
    {
        proof {
            lemma_find(self@.torrents, torrent_id);
        }
        match remote {
            Err(e) => {
                self.unseat(torrent_id);
                Err(AddPeerError::Handshake(e))
            },
            Ok(hs) => match self.find(torrent_id) {
                None => Ok(()),
                Some(i) => {
                    let ghost before = self@;
                    if self.enter_id(i, hs.peer_id) {
                        proof {
                            let ids = self@.torrents[i as int].1.ids;
                            assert(ids[before.torrents[i as int].1.ids.len() as int]
                                == hs.peer_id@);
                            assert(self@.at(torrent_id) == before.at(torrent_id));
                        }
                        Ok(())
                    } else {
                        self.unseat(torrent_id);
                        Err(AddPeerError::PeerIdCollision)
                    }
                },
            },
        }
    }

    /// What follows on the handshake of a connection that a peer began: the
    /// torrent that it is about and what the connection is set up with, once a
    /// place and the peer's id were taken. Nothing, and nothing taken, where the
    /// torrent is not registered, there is no room, or the peer is connected
    /// already.
    pub fn on_inbound(&mut self, remote: &PeerHandshake, addr: PeerAddr) -> (r: Option<
        (TorrentId, PeerConfig),
    >)
        requires
            old(self).wf(),
        ensures
            final(self).wf(),
            match inbound_torrent(old(self)@, remote.info_hash@) {
                None => r is None && final(self)@ == old(self)@,
                Some(i) => {
                    let id = old(self)@.torrents[i].0;
                    let ids = old(self)@.torrents[i].1.ids;
                    if old(self)@.room(i) is Ok && !among(ids, remote.peer_id@) {
                        &&& r == Some((id, old(self)@.stamped(i, Some(addr))))
                        &&& final(self)@ == old(self)@.seated(i).with_ids(
                            i,
                            ids.push(remote.peer_id@),
                        )
                        &&& final(self)@.holds_place(id, remote.peer_id@)
                    } else {
                        r is None && final(self)@ == old(self)@
                    }
                },
            },
    {
        let ghost before = self@;
        let torrent_id = match self.find_hash(&remote.info_hash) {
            Some(k) => {
                assert(before.index[k as int].1 == self.info_hash_index@[k as int].1);
                self.info_hash_index[k].1
            },
            None => {
                return None;
            },
        };
        let i: usize = match self.find(torrent_id) {
            Some(i) => i,
            None => {
                return None;
            },
        };
        proof {
            lemma_find(before.torrents, torrent_id);
        }
        let config = self.stamp(i, Some(addr));
        proof {
            if before.room(i as int) is Ok {
                law_seating_keeps(before, i as int);
            }
            assert(before.torrents[i as int].1.wf());
        }
        if self.seat(i).is_err() {
            return None;
        }
        let ghost seated = self@;
        if self.enter_id(i, remote.peer_id) {
            proof {
                let ids = self@.torrents[i as int].1.ids;
                assert(ids[before.torrents[i as int].1.ids.len() as int] == remote.peer_id@);
                assert(self@.at(torrent_id) == seated.at(torrent_id));
                assert(seated.at(torrent_id) == before.at(torrent_id));
            }
            Some((torrent_id, config))
        } else {
            assert(seated.at(torrent_id) == before.at(torrent_id));
            self.unseat(torrent_id);
            assert(self@.torrents =~= before.torrents);
            assert(self@ =~= before);
            None
        }
    }

    /// Gives back the place and the id of a peer.
    pub fn release(&mut self, torrent_id: TorrentId, peer_id: &[u8; 20])
        requires
            old(self).wf(),
            old(self)@.holds_place(torrent_id, peer_id@),
        ensures
            final(self).wf(),
            final(self)@ == old(self)@.departed(torrent_id, peer_id@),
    {
        let ghost before = self@;
        proof {
            lemma_find(before.torrents, torrent_id);
            law_departure_frees(before, torrent_id, peer_id@);
        }
        if let Some(i) = self.find(torrent_id) {
            let ghost entry = before.torrents[i as int].1;
            assert(entry == self.torrents@[i as int].1@);
            assert(entry.wf());
            self.torrents[i].1.active_peer_ids.remove(peer_id);
            proof {
                let now = self.torrents@[i as int].1@;
                let ids = without(entry.ids, peer_id@);
                lemma_without(entry.ids, peer_id@);
                assert(now =~= (EntryModel { ids, ..entry }));
                assert(self@.torrents =~= before.torrents.update(
                    i as int,
                    (before.torrents[i as int].0, now),
                ));
                lemma_with_keeps(before, i as int, now);
                assert(self@ =~= before.with_ids(i as int, ids));
                assert(self@.at(torrent_id) == before.at(torrent_id));
            }
        }
        self.unseat(torrent_id);
    }

    /// Numbers a connection, and says what to tell the torrent's session of it.
    pub fn assign_slot(&mut self, config: &PeerConfig, remote: &PeerHandshake) -> (r: (
        PeerSlot,
        SessionCommand,
    ))
        requires
            old(self)@.next_slot < u64::MAX,
        ensures
            final(self)@ == (EngineModel {
                next_slot: (old(self)@.next_slot + 1) as u64,
                ..old(self)@
            }),
            old(self).wf() ==> final(self).wf(),
            r.0 == PeerSlot(old(self)@.next_slot),
            r.1 == (SessionCommand::RegisterPeer {
                slot: r.0,
                max_in_flight: config.max_in_flight,
                supports_fast: config.fast_ext && remote.fast_ext,
            }),
    {
        let slot = PeerSlot(self.next_peer_slot);
        self.next_peer_slot = self.next_peer_slot + 1;
        assert(self@ =~= (EngineModel {
            next_slot: (old(self)@.next_slot + 1) as u64,
            ..old(self)@
        }));
        (
            slot,
            SessionCommand::RegisterPeer {
                slot,
                max_in_flight: config.max_in_flight,
                supports_fast: config.fast_ext && remote.fast_ext,
            },
        )
    }

    /// Goes on after the session was told of a connection. Where it is gone, the
    /// place and the id are given back; otherwise the connection gets its
    /// buckets and its counters.
    pub fn on_registered(
        &mut self,
        torrent_id: TorrentId,
        slot: PeerSlot,
        peer_id: &[u8; 20],
        accepted: bool,
    ) -> (r: Result<(), AddPeerError>)
        requires
            old(self).wf(),
            old(self)@.holds_place(torrent_id, peer_id@),
        ensures
            final(self).wf(),
            if accepted {
                r is Ok && final(self)@ == old(self)@.joined(torrent_id, slot)
            } else {
                r == Err::<(), AddPeerError>(AddPeerError::SessionClosed) && final(self)@ == old(
                    self)@.departed(torrent_id, peer_id@)
            },
    {
        if !accepted {
            self.release(torrent_id, peer_id);
            return Err(AddPeerError::SessionClosed);
        }
        let ghost before = self@;
        proof {
            lemma_find(before.torrents, torrent_id);
            law_joining_keeps(before, torrent_id, slot);
        }
        self.shaper.register_peer(slot, torrent_id, DuplexBuckets::passthrough());
        if let Some(i) = self.find(torrent_id) {
            let ghost entry = before.torrents[i as int].1;
            assert(entry == self.torrents@[i as int].1@);
            proof {
                lemma_find(entry.live, slot);
            }
            match self.find_live(i, slot) {
                Some(k) => {
                    self.torrents[i].1.live[k] = (slot, PeerStats::new());
                },
                None => {
                    self.torrents[i].1.live.push((slot, PeerStats::new()));
                },
            }
            proof {
                let now = self.torrents@[i as int].1@;
                assert(now =~= entry.with_live(slot));
                assert(self@.torrents =~= before.torrents.update(
                    i as int,
                    (before.torrents[i as int].0, now),
                ));
            }
        }
        assert(self@ =~= before.joined(torrent_id, slot));
        Ok(())
    }

    /// Where the counters of a connection stand.
    fn find_live(&self, i: usize, slot: PeerSlot) -> (r: Option<usize>)
        requires
            i < self@.torrents.len(),
        ensures
            match (r, find_key(self@.torrents[i as int].1.live, slot)) {
                (Some(k), Some(j)) => k == j && k < self.torrents@[i as int].1.live@.len(),
                (None, None) => true,
                _ => false,
            },
    {
        let live = &self.torrents[i].1.live;
        assert(self@.torrents[i as int].1 == self.torrents@[i as int].1@);
        let mut k: usize = 0;
        while k < live.len()
            invariant
                k <= live@.len(),
                live@ == self.torrents@[i as int].1.live@,
                live@ == self@.torrents[i as int].1.live,
                forall|j: int| 0 <= j < k ==> (#[trigger] live@[j]).0 != slot,
            decreases live@.len() - k,
        {
            if live[k].0 == slot {
                proof {
                    lemma_find_at(live@, slot, k as int);
                }
                return Some(k);
            }
            k = k + 1;
        }
        proof {
            lemma_find(live@, slot);
        }
        None
    }

    /// Counts bytes that went over a connection.
    pub fn count(&mut self, torrent_id: TorrentId, slot: PeerSlot, flow: Flow, bytes: u64)
        requires
            old(self).wf(),
        ensures
            final(self).wf(),
            final(self)@ == old(self)@.counted(torrent_id, slot, flow, bytes),
    {
        let ghost before = self@;
        proof {
            lemma_find(before.torrents, torrent_id);
        }
        if let Some(i) = self.find(torrent_id) {
            let ghost entry = before.torrents[i as int].1;
            assert(entry == self.torrents@[i as int].1@);
            assert(entry.wf());
            proof {
                lemma_find(entry.live, slot);
            }
            if let Some(k) = self.find_live(i, slot) {
                match flow {
                    Flow::Up => self.torrents[i].1.live[k].1.add_uploaded(bytes),
                    Flow::Down => self.torrents[i].1.live[k].1.add_downloaded(bytes),
                }
                proof {
                    let now = self.torrents@[i as int].1@;
                    let moved = counted_stats(entry.live[k as int].1, flow, bytes);
                    assert(now.live =~= entry.live.update(k as int, (slot, moved)));
                    assert(now =~= (EntryModel {
                        live: entry.live.update(k as int, (slot, moved)),
                        ..entry
                    }));
                    assert forall|a: int, b: int|
                        0 <= a < now.live.len() && 0 <= b < now.live.len() && a != b implies (
                    #[trigger] now.live[a]).0 != (#[trigger] now.live[b]).0 by {
                        assert(entry.live[a].0 != entry.live[b].0);
                    }
                    assert(self@.torrents =~= before.torrents.update(
                        i as int,
                        (before.torrents[i as int].0, now),
                    ));
                    lemma_with_keeps(before, i as int, now);
                    assert(self@ =~= before.with(i as int, now));
                }
            }
        }
        assert(self@ =~= before.counted(torrent_id, slot, flow, bytes));
    }

    /// Takes leave of a connection that ended: its counters are taken over, its
    /// place, its id and its buckets given back.
    pub fn peer_exited(&mut self, torrent_id: TorrentId, slot: PeerSlot, peer_id: &[u8; 20])
        requires
            old(self).wf(),
            old(self)@.holds_place(torrent_id, peer_id@),
        ensures
            final(self).wf(),
            final(self)@ == old(self)@.left(torrent_id, slot).departed(torrent_id, peer_id@),
    {
        let ghost before = self@;
        proof {
            lemma_find(before.torrents, torrent_id);
            law_leaving_keeps(before, torrent_id, slot);
        }
        if let Some(i) = self.find(torrent_id) {
            let ghost entry = before.torrents[i as int].1;
            assert(entry == self.torrents@[i as int].1@);
            proof {
                lemma_find(entry.live, slot);
            }
            if let Some(k) = self.find_live(i, slot) {
                let (id, stats) = self.torrents[i].1.live.remove(k);
                self.torrents[i].1.stats.retire_peer(&stats);
                proof {
                    let now = self.torrents@[i as int].1@;
                    assert(now.live =~= entry.live.remove(k as int));
                    assert(now =~= entry.without_live(slot));
                    assert(self@.torrents =~= before.torrents.update(
                        i as int,
                        (before.torrents[i as int].0, now),
                    ));
                }
            } else {
                assert(self@.torrents =~= before.torrents.update(
                    i as int,
                    (before.torrents[i as int].0, entry.without_live(slot)),
                ));
            }
        }
        self.shaper.drop_peer(slot);
        assert(self@ =~= before.left(torrent_id, slot));
        self.release(torrent_id, peer_id);
    }
}

} // verus!
