//! The registry of torrents and peers.
use magpie_bt::alerts::{Alert, AlertErrorCode};
use magpie_bt::announce::{
    deletion_report, peer_failure, AnnounceEvent, AttachDhtConfig, AttachTrackerConfig,
};
use magpie_bt::engine::model::{release_peer_slot, reserve_peer_slot};
use magpie_bt::engine::request::{
    AddMagnetRequest, AddPeerError, AddTorrentError, AddTorrentRequest, HandshakeError, MagnetLink,
    PeerCapScope, TorrentNotFoundError,
};
use magpie_bt::engine::Engine;
use magpie_bt::idset::IdSet;
use magpie_bt::net::{PeerAddr, PeerIp};
use magpie_bt::peer_filter::{DefaultPeerFilter, PeerFilter};
use magpie_bt::session::messages::SessionCommand;
use magpie_bt::session::peer::PeerHandshake;
use magpie_bt::session::shaper::Flow;
use magpie_bt::session::{TorrentParams, TorrentParamsError, TorrentState};
use magpie_bt::{PeerSlot, TorrentId};

fn params() -> TorrentParams {
    TorrentParams {
        piece_count: 2,
        piece_length: 32 * 1024,
        total_length: 2 * 32 * 1024,
        piece_hashes: vec![0u8; 40],
        private: false,
    }
}

fn request(hash: u8) -> AddTorrentRequest {
    AddTorrentRequest::new([hash; 20], params(), [1; 20], 1 << 20)
}

fn addr(port: u16) -> PeerAddr {
    PeerAddr { ip: PeerIp::V4(0x0808_0808), port }
}

fn hello(hash: u8, peer: u8) -> PeerHandshake {
    PeerHandshake {
        info_hash: [hash; 20],
        peer_id: [peer; 20],
        fast_ext: true,
        extension_protocol: true,
    }
}

/// An engine with one torrent of hash 7.
fn engine() -> (Engine<&'static str>, TorrentId) {
    let mut e = Engine::new();
    let (id, session) = e.add_torrent(request(7), "one").unwrap();
    assert_eq!(session.state(), TorrentState::Downloading);
    (e, id)
}

#[test]
fn torrents_come_and_go() {
    let (mut e, a) = engine();
    let (b, _) = e.add_torrent(request(8), "two").unwrap();
    assert_eq!(e.torrents(), vec![a, b]);
    assert_eq!(*e.handle(b).unwrap(), "two");
    let view = e.torrent_state(a).unwrap();
    assert_eq!(view.info_hash, [7; 20]);
    assert_eq!(view.total_length, 65536);
    assert_eq!((view.peer_count, view.peer_cap), (0, 50));
    let (h, cmd) = e.pause(a).unwrap();
    assert_eq!(*h, "one");
    assert!(matches!(cmd, SessionCommand::Pause));
    assert!(matches!(e.resume(a).unwrap().1, SessionCommand::Resume));

    assert!(e.remove(a).is_ok());
    assert!(matches!(e.remove(a), Err(TorrentNotFoundError(id)) if id == a));
    assert_eq!(e.torrents(), vec![b]);
    assert!(e.shutdown(b).is_some());
    assert!(e.shutdown(b).is_none());
    assert!(e.torrent_state(b).is_none());
    assert!(e.pause(b).is_err());
}

#[test]
fn bad_parameters_are_refused() {
    let mut e: Engine<()> = Engine::new();
    let mut req = request(1);
    req.params.total_length = 0;
    let err = e.add_torrent(req, ()).unwrap_err();
    assert!(matches!(
        err,
        AddTorrentError::InvalidParams(TorrentParamsError::ZeroTotalLength)
    ));
    assert!(e.torrents().is_empty());
}

#[test]
fn pieces_that_are_here_are_marked() {
    let mut e: Engine<()> = Engine::new();
    let mut req = request(1);
    req.initial_have = vec![true, true];
    req.pex_interval = Some(5);
    let (_, session) = e.add_torrent(req, ()).unwrap();
    assert_eq!(session.state(), TorrentState::Completed);
    assert_eq!(session.pex_interval(), 5);
}

#[test]
fn magnet_links_start_without_metadata() {
    let mut e = Engine::new();
    let magnet = MagnetLink {
        info_hash: [3; 20],
        trackers: vec![],
        peer_addrs: vec![],
        display_name: None,
    };
    let (id, session) = e.add_magnet(AddMagnetRequest::new(magnet, [1; 20], 1 << 20), ());
    assert_eq!(session.state(), TorrentState::Downloading);
    let view = e.torrent_state(id).unwrap();
    assert_eq!((view.info_hash, view.total_length), ([3; 20], 0));
}

#[test]
fn outbound_peers_are_counted_and_released() {
    let (mut e, id) = engine();
    e.set_listen_port(6881);
    let filter = DefaultPeerFilter::default();
    assert!(e.add_peer(id, addr(1000), &filter).is_ok());
    assert!(matches!(
        e.add_peer(id, addr(0), &filter),
        Err(AddPeerError::Filtered(a)) if a == addr(0)
    ));
    assert!(matches!(
        e.add_peer(TorrentId::__test_new(99), addr(1), &filter),
        Err(AddPeerError::UnknownTorrent(_))
    ));

    let config = e.attach(id, Some(addr(1000))).unwrap();
    assert_eq!(config.info_hash, [7; 20]);
    assert_eq!(config.remote_addr, Some(addr(1000)));
    assert_eq!(config.local_listen_port, Some(6881));
    assert_eq!(e.torrent_state(id).unwrap().peer_count, 1);

    let remote = hello(7, 9);
    assert!(e.has_spare_place(id));
    assert!(!e.has_place(id, &remote.peer_id));
    e.on_handshake(id, Ok(&remote)).unwrap();
    assert!(!e.has_spare_place(id));
    assert!(e.has_place(id, &remote.peer_id));
    let (slot, cmd) = e.assign_slot(&config, &remote);
    assert!(matches!(
        cmd,
        SessionCommand::RegisterPeer { supports_fast: true, max_in_flight: 4, .. }
    ));
    e.on_registered(id, slot, &remote.peer_id, true).unwrap();
    assert_eq!(e.try_consume(slot, Flow::Up, 100), Some(true));
    assert!(e.set_peer_rate(slot, Flow::Up, 1000));
    e.refill(100_000_000);
    assert_eq!(e.shaper().refill_ticks(), 1);
    assert_eq!(e.shaper().peer_buckets(slot).unwrap().up.rate_bps(), 1000);
    e.count(id, slot, Flow::Up, 100);
    e.count(id, slot, Flow::Down, 40);
    let snap = e.torrent_stats_snapshot(id).unwrap();
    assert_eq!((snap.uploaded, snap.downloaded), (100, 40));

    // A second connection of the same peer is refused and gives its place back.
    e.attach(id, None).unwrap();
    assert!(matches!(
        e.on_handshake(id, Ok(&remote)),
        Err(AddPeerError::PeerIdCollision)
    ));
    assert_eq!(e.torrent_state(id).unwrap().peer_count, 1);

    // What a peer brought stays when it leaves.
    e.peer_exited(id, slot, &remote.peer_id);
    assert_eq!(e.torrent_state(id).unwrap().peer_count, 0);
    let snap = e.torrent_stats_snapshot(id).unwrap();
    assert_eq!((snap.uploaded, snap.downloaded), (100, 40));
    // Its id is free again.
    e.attach(id, None).unwrap();
    assert!(e.on_handshake(id, Ok(&remote)).is_ok());
    e.release(id, &remote.peer_id);
    assert_eq!(e.torrent_state(id).unwrap().peer_count, 0);
}

#[test]
fn failed_handshakes_give_the_place_back() {
    let (mut e, id) = engine();
    e.attach(id, None).unwrap();
    let err = e.on_handshake(id, Err(HandshakeError::Timeout(5))).unwrap_err();
    assert!(matches!(err, AddPeerError::Handshake(HandshakeError::Timeout(5))));
    assert_eq!(e.torrent_state(id).unwrap().peer_count, 0);
}

#[test]
fn a_closed_session_gives_everything_back() {
    let (mut e, id) = engine();
    let config = e.attach(id, None).unwrap();
    let remote = hello(7, 2);
    e.on_handshake(id, Ok(&remote)).unwrap();
    let (slot, _) = e.assign_slot(&config, &remote);
    assert!(matches!(
        e.on_registered(id, slot, &remote.peer_id, false),
        Err(AddPeerError::SessionClosed)
    ));
    assert_eq!(e.torrent_state(id).unwrap().peer_count, 0);
}

#[test]
fn places_outlive_their_torrent() {
    let (mut e, id) = engine();
    e.attach(id, None).unwrap();
    let remote = hello(7, 2);
    e.on_handshake(id, Ok(&remote)).unwrap();
    e.remove(id).unwrap();
    // The connection still holds its place, and gives it back when it ends.
    assert!(e.has_place(id, &remote.peer_id));
    e.release(id, &remote.peer_id);
    assert!(!e.has_place(id, &remote.peer_id));
    assert!(!e.has_spare_place(id));
}

#[test]
fn caps_are_kept() {
    let mut e: Engine<()> = Engine::new().with_global_peer_cap(2);
    let mut req = request(1);
    req.peer_cap = 1;
    let (a, _) = e.add_torrent(req, ()).unwrap();
    let (b, _) = e.add_torrent(request(2), ()).unwrap();
    assert!(e.attach(a, None).is_ok());
    assert!(matches!(
        e.attach(a, None),
        Err(AddPeerError::PeerCapExceeded { scope: PeerCapScope::Torrent })
    ));
    assert!(e.attach(b, None).is_ok());
    assert!(matches!(
        e.attach(b, None),
        Err(AddPeerError::PeerCapExceeded { scope: PeerCapScope::Global })
    ));
    assert_eq!(PeerCapScope::Global.message(), "global");
    assert_eq!(PeerCapScope::Torrent.message(), "torrent");
}

#[test]
fn places_are_reserved_and_released() {
    let mut global = 0;
    let mut torrent = 0;
    assert!(reserve_peer_slot(&mut global, 1, &mut torrent, 1).is_ok());
    assert_eq!((global, torrent), (1, 1));
    assert!(reserve_peer_slot(&mut global, 1, &mut torrent, 2).is_err());
    assert_eq!((global, torrent), (1, 1));
    release_peer_slot(&mut global, &mut torrent);
    assert_eq!((global, torrent), (0, 0));
}

#[test]
fn inbound_peers_find_their_torrent() {
    let (mut e, id) = engine();
    e.set_listen_port(7000);
    let (found, config) = e.on_inbound(&hello(7, 4), addr(5)).unwrap();
    assert_eq!(found, id);
    assert_eq!(config.remote_addr, Some(addr(5)));
    assert_eq!(config.local_listen_port, Some(7000));
    assert!(e.on_inbound(&hello(7, 4), addr(6)).is_none(), "connected already");
    assert!(e.on_inbound(&hello(8, 5), addr(7)).is_none(), "no such torrent");
    assert_eq!(e.torrent_state(id).unwrap().peer_count, 1);
}

#[test]
fn trackers_are_announced_to_again_and_again() {
    let (e, id) = engine();
    let mut announces = e.attach_tracker(id, AttachTrackerConfig::default()).unwrap();
    let first = announces.request(1000);
    assert_eq!(first.info_hash, [7; 20]);
    assert_eq!(first.event, AnnounceEvent::Started);
    assert_eq!((first.downloaded, first.left), (1000, 64536));
    assert_eq!((first.port, first.num_want), (6881, Some(50)));
    assert_eq!(announces.on_response(1_800_000_000_000), 1_800_000_000_000);
    assert_eq!(announces.on_response(1), 30_000_000_000);
    assert_eq!(announces.request(70000).event, AnnounceEvent::Periodic);
    assert_eq!(announces.request(70000).left, 0);
    let (alert, wait) = announces.on_failure();
    assert_eq!(wait, 60_000_000_000);
    assert!(matches!(
        alert,
        Alert::Error { torrent, code: AlertErrorCode::TrackerFailed } if torrent == id
    ));
    assert!(e.attach_tracker(TorrentId::__test_new(9), AttachTrackerConfig::default()).is_err());
}

#[test]
fn the_dht_is_announced_to_again_and_again() {
    let (e, id) = engine();
    let cfg = AttachDhtConfig::default();
    let announces = e.attach_dht(id, cfg).unwrap();
    assert_eq!(announces.request().info_hash, [7; 20]);
    assert_eq!(announces.on_response(), cfg.announce_interval);
    assert_eq!(announces.on_failure().1, cfg.error_backoff);
}

#[test]
fn failures_are_reported() {
    let id = TorrentId::__test_new(1);
    assert!(peer_failure(id, &AddPeerError::SessionClosed).is_some());
    assert!(deletion_report(id, true).is_some());
    assert!(deletion_report(id, false).is_none());
}

#[test]
fn sets_of_ids() {
    let mut set = IdSet::new();
    assert!(set.insert([1; 20]));
    assert!(!set.insert([1; 20]));
    assert!(set.insert([2; 20]));
    assert_eq!(set.len(), 2);
    set.remove(&[1; 20]);
    assert!(!set.contains(&[1; 20]));
    assert!(set.contains(&[2; 20]));
    assert_eq!(set.to_vec(), vec![[2; 20]]);
}

#[test]
fn slots_are_numbered_from_zero() {
    let (mut e, id) = engine();
    let config = e.attach(id, None).unwrap();
    assert_eq!(e.assign_slot(&config, &hello(7, 1)).0, PeerSlot(0));
    assert_eq!(e.assign_slot(&config, &hello(7, 2)).0, PeerSlot(1));
}

/// Lets one port pass.
struct OnePort(u16);

impl PeerFilter for OnePort {
    fn allow(&self, addr: PeerAddr) -> bool {
        addr.port == self.0
    }
}

#[test]
fn the_filter_decides_about_addresses() {
    let (e, id) = engine();
    assert!(e.add_peer(id, addr(7), &OnePort(7)).is_ok());
    assert!(matches!(
        e.add_peer(id, addr(8), &OnePort(7)),
        Err(AddPeerError::Filtered(a)) if a == addr(8)
    ));
}

#[test]
fn an_empty_last_piece_is_acceptable() {
    let mut e: Engine<()> = Engine::new();
    let mut req = request(1);
    req.params.total_length = 32 * 1024;
    let (id, session) = e.add_torrent(req, ()).unwrap();
    assert_eq!(e.torrents(), vec![id]);
    assert!(session.is_workable());
    // A last piece behind the end is taken too, but leaves nothing to work with.
    let mut req = request(2);
    req.params.total_length = 32 * 1024 - 1;
    let (other, session) = e.add_torrent(req, ()).unwrap();
    assert_eq!(e.torrents(), vec![id, other]);
    assert_eq!(e.torrent_state(other).unwrap().total_length, 32 * 1024 - 1);
    assert!(!session.is_workable());
}
