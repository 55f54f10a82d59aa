//! Torrent sessions.
use bytes::Bytes;
use magpie_bt::alerts::{Alert, AlertErrorCode};
use magpie_bt::net::{PeerAddr, PeerIp};
use magpie_bt::session::bitfield::{decode_bitfield_strict, BitfieldError};
use magpie_bt::session::info::{FileListV1, Info, InfoV1};
use magpie_bt::session::messages::{
    Action, ExtensionInput, ExtensionPayload, MetadataMessage, PeerToSession, SessionCommand,
    SessionToPeer,
};
use magpie_bt::session::params::BlockRequest;
use magpie_bt::session::pex::{PexMessage, PexPeer};
use magpie_bt::session::torrent::{SessionEvent, Turn};
use magpie_bt::session::{
    DiskError, DisconnectReason, MetadataAssembler, TorrentParams, TorrentParamsError,
    TorrentSession, TorrentState, DEFAULT_PER_PEER_IN_FLIGHT,
};
use magpie_bt::{PeerSlot, TorrentId};

fn ok_params() -> TorrentParams {
    TorrentParams {
        piece_count: 4,
        piece_length: 32 * 1024,
        total_length: 4 * 32 * 1024,
        piece_hashes: vec![0u8; 4 * 20],
        private: false,
    }
}

#[test]
fn validate_accepts_well_formed() {
    assert!(ok_params().validate().is_ok());
}

#[test]
fn validate_rejects_zero_piece_count() {
    let mut p = ok_params();
    p.piece_count = 0;
    p.piece_hashes.clear();
    assert_eq!(p.validate(), Err(TorrentParamsError::ZeroPieceCount));
}

#[test]
fn validate_rejects_zero_piece_length() {
    let mut p = ok_params();
    p.piece_length = 0;
    assert_eq!(p.validate(), Err(TorrentParamsError::ZeroPieceLength));
}

#[test]
fn validate_rejects_zero_total_length() {
    let mut p = ok_params();
    p.total_length = 0;
    assert_eq!(p.validate(), Err(TorrentParamsError::ZeroTotalLength));
}

#[test]
fn validate_rejects_mismatched_piece_hashes_length() {
    let mut p = ok_params();
    p.piece_hashes = vec![0u8; 4 * 20 - 1];
    let err = p.validate().unwrap_err();
    assert!(matches!(
        err,
        TorrentParamsError::PieceHashesLength {
            expected: 80,
            actual: 79
        }
    ));
}

#[test]
fn validate_rejects_total_length_overflow() {
    let mut p = ok_params();
    p.total_length += 1;
    let err = p.validate().unwrap_err();
    assert!(matches!(
        err,
        TorrentParamsError::TotalLengthOverflow { .. }
    ));
}

#[test]
fn bitfield_strict_accepts_well_formed() {
    // 13 pieces → 2 bytes. Spare 3 bits in the second byte must be zero.
    let bytes = [0b1111_1111, 0b1110_0000];
    let bits = decode_bitfield_strict(&bytes, 13).unwrap();
    assert_eq!(bits.len(), 13);
    assert!(bits.iter().take(11).all(|b| *b));
    assert!(!bits[11]);
    assert!(!bits[12]);
}

#[test]
fn bitfield_strict_rejects_wrong_length() {
    // 13 pieces → expects 2 bytes; supply 3.
    let bytes = [0u8; 3];
    assert!(matches!(
        decode_bitfield_strict(&bytes, 13),
        Err(BitfieldError::BadLength)
    ));
    // Also rejects 1 byte.
    let bytes = [0u8; 1];
    assert!(matches!(
        decode_bitfield_strict(&bytes, 13),
        Err(BitfieldError::BadLength)
    ));
}

#[test]
fn bitfield_strict_rejects_nonzero_spare_bits() {
    // 13 pieces; spare bits 5,6,7 of byte 1 must be zero. Set bit 0 → bad.
    let bytes = [0u8, 0b0000_0001];
    assert!(matches!(
        decode_bitfield_strict(&bytes, 13),
        Err(BitfieldError::BadSpareBits)
    ));
}

#[test]
fn bitfield_strict_handles_byte_aligned_count() {
    // 16 pieces → 2 bytes, no spare bits.
    let bytes = [0xFF, 0xFF];
    assert!(decode_bitfield_strict(&bytes, 16).is_ok());
}

const A: PeerSlot = PeerSlot(1);
const B: PeerSlot = PeerSlot(2);

fn params_of(piece_count: u32) -> TorrentParams {
    TorrentParams {
        piece_count,
        piece_length: 32 * 1024,
        total_length: u64::from(piece_count) * 32 * 1024,
        piece_hashes: vec![0u8; (piece_count as usize) * 20],
        private: false,
    }
}

fn session_of(params: TorrentParams) -> TorrentSession {
    TorrentSession::new(TorrentId::__test_new(1), params, [0u8; 20], 50)
}

/// Lets an event happen and collects what the session wants done.
fn feed(s: &mut TorrentSession, event: SessionEvent) -> Vec<Action> {
    let mut out = Vec::new();
    s.advance(event, 0, &mut out);
    out
}

fn says(s: &mut TorrentSession, msg: PeerToSession) -> Vec<Action> {
    feed(s, SessionEvent::Peer(msg))
}

fn command(s: &mut TorrentSession, cmd: SessionCommand) -> Vec<Action> {
    feed(s, SessionEvent::Command(cmd))
}

/// Attaches a peer and checks that it is told our pieces.
fn attach(s: &mut TorrentSession, slot: PeerSlot) {
    let mut out = Vec::new();
    assert!(s.register_peer(slot, &mut out));
    assert_eq!(out.len(), 1);
    assert!(matches!(&to(&out, slot)[..], [SessionToPeer::SendBitfield(_)]));
}

/// What was told to a peer.
fn to(out: &[Action], to: PeerSlot) -> Vec<&SessionToPeer> {
    out.iter()
        .filter_map(|a| match a {
            Action::Send { slot, msg } if *slot == to => Some(msg),
            _ => None,
        })
        .collect()
}

fn alerts(out: &[Action]) -> Vec<Alert> {
    out.iter()
        .filter_map(|a| match a {
            Action::Raise(alert) => Some(*alert),
            _ => None,
        })
        .collect()
}

fn requests(out: &[Action], slot: PeerSlot) -> Vec<BlockRequest> {
    to(out, slot)
        .into_iter()
        .filter_map(|m| match m {
            SessionToPeer::Request(req) => Some(*req),
            _ => None,
        })
        .collect()
}

/// The peer tells its pieces, packed.
fn has(s: &mut TorrentSession, slot: PeerSlot, bits: &'static [u8]) -> Vec<Action> {
    says(s, PeerToSession::Bitfield { slot, bytes: Bytes::from_static(bits) })
}

/// A session of one piece, which `A` has and `B` has not, with all its blocks
/// from `A`.
fn downloaded() -> TorrentSession {
    let mut s = session_of(params_of(1));
    attach(&mut s, A);
    attach(&mut s, B);
    let out = has(&mut s, A, &[0x80]);
    assert!(matches!(&to(&out, A)[..], [SessionToPeer::SetInterested(true)]));
    let out = says(&mut s, PeerToSession::Unchoked { slot: A });
    assert_eq!(
        requests(&out, A),
        vec![BlockRequest::new(0, 0, 16384), BlockRequest::new(0, 16384, 16384)]
    );
    let out = says(
        &mut s,
        PeerToSession::BlockReceived {
            slot: A,
            piece: 0,
            offset: 0,
            data: Bytes::from(vec![1u8; 16384]),
        },
    );
    assert!(out.is_empty());
    let out = says(
        &mut s,
        PeerToSession::BlockReceived {
            slot: A,
            piece: 0,
            offset: 16384,
            data: Bytes::from(vec![2u8; 16384]),
        },
    );
    assert_eq!(out.len(), 1);
    match &out[0] {
        Action::VerifyAndWrite { piece, offset, buffer, expected_hash } => {
            assert_eq!((*piece, *offset), (0, 0));
            assert_eq!(buffer.len(), 32768);
            assert_eq!((buffer[0], buffer[32767]), (1, 2));
            assert_eq!(expected_hash, &[0u8; 20]);
        }
        other => panic!("{other:?}"),
    }
    s
}

fn complete(s: &mut TorrentSession) -> Vec<Action> {
    feed(s, SessionEvent::Completion { piece: 0, result: Ok(()) })
}

#[test]
fn adr_0019_transition_fires_alert_and_broadcasts_not_interested() {
    let mut session = downloaded();
    let out = complete(&mut session);
    assert_eq!(session.state(), TorrentState::Completed);

    // Exactly one TorrentComplete alert, after that of the piece.
    let raised = alerts(&out);
    assert_eq!(raised.len(), 2);
    assert!(matches!(raised[0], Alert::PieceCompleted { piece: 0, .. }));
    assert!(matches!(raised[1], Alert::TorrentComplete { .. }));

    // NotInterested goes to the peer that we were interested in, and to no other.
    assert!(matches!(
        &to(&out, A)[..],
        [SessionToPeer::Have(0), SessionToPeer::SetInterested(false)]
    ));
    assert!(matches!(&to(&out, B)[..], [SessionToPeer::Have(0)]));
}

#[test]
fn adr_0019_transition_is_idempotent_under_completion_fired() {
    let mut session = downloaded();
    let first = complete(&mut session);
    assert_eq!(alerts(&first).len(), 2);
    let second = complete(&mut session);
    assert!(
        alerts(&second).iter().all(|a| !matches!(a, Alert::TorrentComplete { .. })),
        "no duplicate TorrentComplete"
    );
    assert!(
        to(&second, A).iter().all(|m| !matches!(m, SessionToPeer::SetInterested(_))),
        "no duplicate NotInterested"
    );
}

#[test]
fn adr_0019_resume_from_complete_skips_transition() {
    let mut session = session_of(params_of(2));
    attach(&mut session, A);
    let out = has(&mut session, A, &[0xC0]);
    assert!(matches!(&to(&out, A)[..], [SessionToPeer::SetInterested(true)]));

    session.apply_initial_have(&[true, true]);
    assert_eq!(session.state(), TorrentState::Completed);

    // Any later completion is silent too.
    let out = complete(&mut session);
    assert!(alerts(&out).iter().all(|a| !matches!(a, Alert::TorrentComplete { .. })));
    assert!(matches!(&to(&out, A)[..], [SessionToPeer::Have(0)]));
}

#[test]
fn adr_0019_alert_ordered_before_peer_broadcast() {
    let mut session = downloaded();
    let out = complete(&mut session);
    let alert = out
        .iter()
        .position(|a| matches!(a, Action::Raise(Alert::TorrentComplete { .. })))
        .expect("alert");
    let farewell = out
        .iter()
        .position(|a| {
            matches!(a, Action::Send { slot: A, msg: SessionToPeer::SetInterested(false) })
        })
        .expect("NotInterested");
    assert!(alert < farewell, "NotInterested follows the alert");
}

#[test]
fn g1_pause_chokes_unchoked_peers_and_keeps_them_choked() {
    let mut session = session_of(params_of(2));
    attach(&mut session, A);
    attach(&mut session, B);
    // A is served; B is not.
    let out = says(&mut session, PeerToSession::Interested { slot: A });
    assert!(matches!(&to(&out, A)[..], [SessionToPeer::Unchoke]));

    let out = command(&mut session, SessionCommand::Pause);
    assert!(matches!(&to(&out, A)[..], [SessionToPeer::Choke]));
    assert!(to(&out, B).is_empty(), "B was already choked, no message");
}

#[test]
fn g1_resume_unchokes_only_interested_peers() {
    let mut session = session_of(params_of(2));
    attach(&mut session, A);
    attach(&mut session, B);
    says(&mut session, PeerToSession::Interested { slot: A });
    command(&mut session, SessionCommand::Pause);

    let out = command(&mut session, SessionCommand::Resume);
    assert!(matches!(&to(&out, A)[..], [SessionToPeer::Unchoke]));
    assert!(to(&out, B).is_empty(), "B not interested, must stay choked");
}

#[test]
fn g1_pause_is_idempotent_no_duplicate_choke() {
    let mut session = session_of(params_of(2));
    attach(&mut session, A);
    says(&mut session, PeerToSession::Interested { slot: A });
    let mut out = Vec::new();
    session.set_paused(true, &mut out);
    assert!(matches!(&to(&out, A)[..], [SessionToPeer::Choke]));
    let mut again = Vec::new();
    session.set_paused(true, &mut again);
    assert!(again.is_empty(), "idempotent pause must not re-choke");
}

#[test]
fn g1_pause_cancels_outstanding_requests_and_releases_claims() {
    let mut session = session_of(params_of(2));
    attach(&mut session, A);
    has(&mut session, A, &[0x80]);
    let asked = requests(&says(&mut session, PeerToSession::Unchoked { slot: A }), A);
    assert_eq!(asked.len(), 2);

    let out = command(&mut session, SessionCommand::Pause);
    let cancelled: Vec<BlockRequest> = to(&out, A)
        .into_iter()
        .filter_map(|m| match m {
            SessionToPeer::Cancel(req) => Some(*req),
            _ => None,
        })
        .collect();
    assert_eq!(cancelled, asked, "pause must broadcast Cancel for the claimed blocks");
    // The claims are gone, so that going on asks for the blocks anew.
    let out = command(&mut session, SessionCommand::Resume);
    assert_eq!(requests(&out, A), asked);
}

#[test]
fn g1_paused_blocks_auto_unchoke_on_new_interest() {
    let mut session = session_of(params_of(2));
    attach(&mut session, A);
    command(&mut session, SessionCommand::Pause);
    let out = says(&mut session, PeerToSession::Interested { slot: A });
    assert!(to(&out, A).is_empty(), "paused must suppress auto-unchoke");
    let out = command(&mut session, SessionCommand::Resume);
    assert!(matches!(&to(&out, A)[..], [SessionToPeer::Unchoke]));
}

fn advert(session: &mut TorrentSession, fast: bool) -> Vec<Action> {
    let mut out = Vec::new();
    assert!(session.register_peer_with(A, DEFAULT_PER_PEER_IN_FLIGHT, fast, &mut out));
    out
}

#[test]
fn initial_advert_uses_have_all_for_complete_seed_with_fast_ext() {
    let mut session = session_of(params_of(4));
    session.apply_initial_have(&[true; 4]);
    let out = advert(&mut session, true);
    assert!(matches!(&to(&out, A)[..], [SessionToPeer::SendHaveAll]));
}

#[test]
fn initial_advert_uses_have_none_for_empty_leech_with_fast_ext() {
    let mut session = session_of(params_of(4));
    let out = advert(&mut session, true);
    assert!(matches!(&to(&out, A)[..], [SessionToPeer::SendHaveNone]));
}

#[test]
fn initial_advert_falls_back_to_bitfield_without_fast_ext() {
    let mut session = session_of(params_of(4));
    session.apply_initial_have(&[true; 4]);
    let out = advert(&mut session, false);
    match &to(&out, A)[..] {
        [SessionToPeer::SendBitfield(bytes)] => assert_eq!(bytes, &vec![0xF0]),
        other => panic!("{other:?}"),
    }
}

#[test]
fn initial_advert_uses_bitfield_for_partial_have_even_with_fast_ext() {
    let mut session = session_of(params_of(4));
    session.apply_initial_have(&[false, true, false, true]);
    let out = advert(&mut session, true);
    match &to(&out, A)[..] {
        [SessionToPeer::SendBitfield(bytes)] => assert_eq!(bytes, &vec![0b0101_0000]),
        other => panic!("{other:?}"),
    }
    assert_eq!(session.have_snapshot(), vec![false, true, false, true]);
}

#[test]
fn a_peer_is_registered_once() {
    let mut session = session_of(params_of(1));
    attach(&mut session, A);
    let mut out = Vec::new();
    assert!(!session.register_peer(A, &mut out));
    assert!(out.is_empty());
}

#[test]
fn a_list_of_the_wrong_length_counts_for_nothing() {
    let mut session = session_of(params_of(2));
    session.apply_initial_have(&[true]);
    assert_eq!(session.have_snapshot(), vec![false, false]);
}

#[test]
fn blocks_that_nobody_asked_for_are_ignored() {
    let mut session = session_of(params_of(1));
    attach(&mut session, A);
    let out = says(
        &mut session,
        PeerToSession::BlockReceived {
            slot: A,
            piece: 0,
            offset: 0,
            data: Bytes::from(vec![0u8; 16384]),
        },
    );
    assert!(out.iter().all(|a| !matches!(a, Action::VerifyAndWrite { .. })));
    assert_eq!(session.have_snapshot(), vec![false]);
}

#[test]
fn requests_of_a_leaving_peer_go_to_others() {
    let mut session = session_of(params_of(1));
    attach(&mut session, A);
    attach(&mut session, B);
    has(&mut session, A, &[0x80]);
    has(&mut session, B, &[0x80]);
    let asked = requests(&says(&mut session, PeerToSession::Unchoked { slot: A }), A);
    assert_eq!(asked.len(), 2);
    let out = says(&mut session, PeerToSession::Unchoked { slot: B });
    assert!(requests(&out, B).is_empty(), "every block is asked for already");
    let out = says(
        &mut session,
        PeerToSession::Disconnected { slot: A, reason: DisconnectReason::Eof },
    );
    assert_eq!(requests(&out, B), asked);
}

#[test]
fn refused_blocks_are_asked_for_again() {
    let mut session = session_of(params_of(1));
    attach(&mut session, A);
    has(&mut session, A, &[0x80]);
    let asked = requests(&says(&mut session, PeerToSession::Unchoked { slot: A }), A);
    let out = says(&mut session, PeerToSession::Rejected { slot: A, req: asked[0] });
    assert_eq!(requests(&out, A), vec![asked[0]]);
}

#[test]
fn a_piece_with_another_hash_is_fetched_anew() {
    let mut session = downloaded();
    let out = feed(
        &mut session,
        SessionEvent::Completion { piece: 0, result: Err(DiskError::HashMismatch) },
    );
    assert!(matches!(
        alerts(&out)[..],
        [Alert::Error { code: AlertErrorCode::HashMismatch, .. }]
    ));
    assert_eq!(requests(&out, A).len(), 2);
    assert_eq!(session.state(), TorrentState::Downloading);

    let mut session = downloaded();
    let out = feed(
        &mut session,
        SessionEvent::Completion { piece: 0, result: Err(DiskError::Io) },
    );
    assert!(matches!(
        alerts(&out)[..],
        [Alert::Error { code: AlertErrorCode::StorageIo, .. }]
    ));
}

#[test]
fn a_malformed_bitfield_ends_the_connection() {
    let mut session = session_of(params_of(4));
    attach(&mut session, A);
    let out = has(&mut session, A, &[0xFF]);
    assert!(matches!(&to(&out, A)[..], [SessionToPeer::Shutdown]));
    assert!(matches!(alerts(&out)[..], [Alert::Error { .. }]));
}

#[test]
fn blocks_are_served_to_unchoked_peers_only() {
    let mut session = session_of(params_of(2));
    session.apply_initial_have(&[true, false]);
    attach(&mut session, A);
    let req = BlockRequest::new(0, 16384, 16384);
    let out = says(&mut session, PeerToSession::BlockRequested { slot: A, req });
    assert!(out.iter().all(|a| !matches!(a, Action::ServeBlock { .. })));

    says(&mut session, PeerToSession::Interested { slot: A });
    let out = says(&mut session, PeerToSession::BlockRequested { slot: A, req });
    match &out[..] {
        [Action::ServeBlock { slot, piece_offset, piece_size, req: asked, .. }] => {
            assert_eq!(*slot, A);
            assert_eq!((*piece_offset, *piece_size), (0, 32768));
            assert_eq!(*asked, req);
        }
        other => panic!("{other:?}"),
    }
    // A piece that is not here is not served.
    let out = says(
        &mut session,
        PeerToSession::BlockRequested { slot: A, req: BlockRequest::new(1, 0, 16384) },
    );
    assert!(out.iter().all(|a| !matches!(a, Action::ServeBlock { .. })));
}

#[test]
fn peer_exchange_finds_addresses() {
    let mut session = session_of(params_of(1));
    attach(&mut session, A);
    let addr = PeerAddr { ip: PeerIp::V4(0x0a00_0001), port: 6881 };
    says(
        &mut session,
        PeerToSession::ExtensionMessage {
            slot: A,
            input: ExtensionInput::Pex(Some(PexMessage {
                added: vec![PexPeer { addr, flags: 0 }],
                dropped: vec![],
            })),
        },
    );
    let mut out = Vec::new();
    let turn =
        session.advance(SessionEvent::Command(SessionCommand::DrainPexDiscovered), 0, &mut out);
    match turn {
        Turn::Discovered(found) => assert_eq!(found, vec![addr]),
        other => panic!("{other:?}"),
    }
    assert!(session.drain_pex_discovered().is_empty());
}

#[test]
fn peer_exchange_tells_of_connected_peers() {
    let mut session = session_of(params_of(1));
    attach(&mut session, A);
    attach(&mut session, B);
    let addr = PeerAddr { ip: PeerIp::V4(0x0a00_0001), port: 6881 };
    says(
        &mut session,
        PeerToSession::Connected { slot: A, peer_id: [1; 20], supports_fast: false, addr: Some(addr) },
    );
    let out = feed(&mut session, SessionEvent::PexTick);
    let told = to(&out, B);
    match &told[..] {
        [SessionToPeer::SendExtended { payload: ExtensionPayload::Pex(msg) }] => {
            assert_eq!(msg.added.len(), 1);
            assert_eq!(msg.added[0].addr, addr);
            assert!(msg.dropped.is_empty());
        }
        other => panic!("{other:?}"),
    }
}

#[test]
fn shutting_down_tells_every_peer() {
    let mut session = session_of(params_of(1));
    attach(&mut session, A);
    attach(&mut session, B);
    let mut out = Vec::new();
    let turn = session.advance(SessionEvent::Command(SessionCommand::Shutdown), 0, &mut out);
    assert!(matches!(turn, Turn::Stop(TorrentState::Downloading)));
    assert!(matches!(&to(&out, A)[..], [SessionToPeer::Shutdown]));
    assert!(matches!(&to(&out, B)[..], [SessionToPeer::Shutdown]));
}

#[test]
fn snapshots_are_handed_out() {
    let mut session = session_of(params_of(2));
    session.apply_initial_have(&[false, true]);
    let mut out = Vec::new();
    let turn =
        session.advance(SessionEvent::Command(SessionCommand::BitfieldSnapshot), 0, &mut out);
    match turn {
        Turn::Have(have) => assert_eq!(have, vec![false, true]),
        other => panic!("{other:?}"),
    }
}

#[test]
fn metadata_is_served_where_it_is_known() {
    let mut session = session_of(params_of(1));
    session.set_info_dict_bytes(vec![7u8; 20000]);
    attach(&mut session, A);
    let ask = |piece: u32| PeerToSession::ExtensionMessage {
        slot: A,
        input: ExtensionInput::Metadata(Some(MetadataMessage::Request { piece })),
    };
    let out = says(&mut session, ask(1));
    match &to(&out, A)[..] {
        [SessionToPeer::SendExtended {
            payload:
                ExtensionPayload::Metadata(MetadataMessage::Data { piece, total_size, data }),
        }] => {
            assert_eq!((*piece, *total_size), (1, 20000));
            assert_eq!(data.len(), 20000 - 16384);
        }
        other => panic!("{other:?}"),
    }
    let out = says(&mut session, ask(2));
    assert!(matches!(
        &to(&out, A)[..],
        [SessionToPeer::SendExtended {
            payload: ExtensionPayload::Metadata(MetadataMessage::Reject { piece: 2 }),
        }]
    ));
}

#[test]
fn metadata_is_fetched_and_verified() {
    let mut session = session_of(params_of(1));
    session.set_metadata_assembler(MetadataAssembler::new([9u8; 20]));
    attach(&mut session, A);
    let out = says(
        &mut session,
        PeerToSession::ExtensionHandshake {
            slot: A,
            metadata_size: Some(5),
            listen_port: None,
        },
    );
    assert!(matches!(
        &to(&out, A)[..],
        [SessionToPeer::SendExtended {
            payload: ExtensionPayload::Metadata(MetadataMessage::Request { piece: 0 }),
        }]
    ));
    let data = PeerToSession::ExtensionMessage {
        slot: A,
        input: ExtensionInput::Metadata(Some(MetadataMessage::Data {
            piece: 0,
            total_size: 5,
            data: Bytes::from_static(b"hello"),
        })),
    };
    let out = says(&mut session, data);
    assert!(out
        .iter()
        .any(|a| matches!(a, Action::VerifyMetadata { metadata } if metadata == b"hello")));
    // The right hash and an acceptable dictionary: the session goes on with it.
    let info = Info {
        piece_length: 16384,
        private: false,
        v1: Some(InfoV1 { pieces: vec![0u8; 40], files: FileListV1::Single { length: 20000 } }),
    };
    let parsed = Ok(info);
    assert!(session.can_take_metadata(&[9u8; 20], &parsed));
    let out = feed(&mut session, SessionEvent::MetadataVerified { digest: [9u8; 20], parsed });
    assert!(matches!(alerts(&out)[..], [Alert::MetadataReceived { .. }]));
    assert_eq!(session.have_snapshot().len(), 2);
}

#[test]
fn metadata_that_is_no_good_is_fetched_anew_a_few_times() {
    let mut session = session_of(params_of(1));
    session.set_metadata_assembler(MetadataAssembler::new([9u8; 20]));
    attach(&mut session, A);
    says(
        &mut session,
        PeerToSession::ExtensionHandshake { slot: A, metadata_size: Some(5), listen_port: None },
    );
    for attempt in 1..=4 {
        says(
            &mut session,
            PeerToSession::ExtensionMessage {
                slot: A,
                input: ExtensionInput::Metadata(Some(MetadataMessage::Data {
                    piece: 0,
                    total_size: 5,
                    data: Bytes::from_static(b"wrong"),
                })),
            },
        );
        let out = feed(
            &mut session,
            SessionEvent::MetadataVerified {
                digest: [1u8; 20],
                parsed: Err(String::from("not bencode")),
            },
        );
        if attempt <= 3 {
            assert!(matches!(
                &to(&out, A)[..],
                [SessionToPeer::SendExtended {
                    payload: ExtensionPayload::Metadata(MetadataMessage::Request { piece: 0 }),
                }]
            ));
        } else {
            assert!(matches!(
                alerts(&out)[..],
                [Alert::Error { code: AlertErrorCode::MetadataVerifyExhausted, .. }]
            ));
        }
    }
}

#[test]
fn metadata_of_an_impossible_torrent_does_not_fit() {
    let mut session = session_of(params_of(1));
    let mut assembler = MetadataAssembler::new([9u8; 20]);
    assembler.set_total_size(1);
    assembler.receive_piece(0, Bytes::from_static(b"x")).unwrap();
    session.set_metadata_assembler(assembler);
    let info = |pieces: usize, length: u64| {
        Ok(Info {
            piece_length: 16384,
            private: false,
            v1: Some(InfoV1 { pieces: vec![0u8; pieces], files: FileListV1::Single { length } }),
        })
    };
    assert!(session.can_take_metadata(&[9u8; 20], &info(40, 20000)));
    assert!(!session.can_take_metadata(&[9u8; 20], &info(0, 20000)));
    assert!(!session.can_take_metadata(&[9u8; 20], &info(40, 10)));
    // Another hash: it is refused whatever it declares.
    assert!(session.can_take_metadata(&[8u8; 20], &info(0, 20000)));
}

#[test]
fn a_disk_that_is_gone_gives_the_piece_up() {
    let mut session = downloaded();
    let out = feed(&mut session, SessionEvent::DiskGone { piece: 0 });
    assert!(matches!(alerts(&out)[..], [Alert::Error { code: AlertErrorCode::StorageIo, .. }]));
    assert_eq!(requests(&out, A).len(), 2, "its blocks are asked for anew");
}

#[test]
fn parameters_tell_their_pieces() {
    let mut p = ok_params();
    p.total_length = 3 * 32 * 1024 + 5;
    assert!(p.is_workable());
    assert!(!p.is_private());
    assert_eq!(p.piece_size(0), 32 * 1024);
    assert_eq!(p.piece_size(3), 5);
    assert_eq!(p.piece_offset(3), 3 * 32 * 1024);
    p.piece_hashes[40..60].copy_from_slice(&[7u8; 20]);
    assert_eq!(p.piece_hash(2), [7u8; 20]);
    // A last piece without a byte.
    p.total_length = 3 * 32 * 1024;
    assert!(p.validate().is_ok());
    assert!(p.is_workable());
    assert_eq!(p.piece_size(3), 0);
    // A last piece behind the end.
    p.total_length = 3 * 32 * 1024 - 1;
    assert!(p.validate().is_ok());
    assert!(!p.is_workable());
}

#[test]
fn an_empty_last_piece_is_never_asked_for() {
    let mut p = ok_params();
    p.total_length = 3 * 32 * 1024;
    let mut session = session_of(p);
    assert!(session.is_workable());
    session.apply_initial_have(&[true, true, false, false]);
    attach(&mut session, A);
    has(&mut session, A, &[0xf0]);
    let asked = requests(&says(&mut session, PeerToSession::Unchoked { slot: A }), A);
    assert_eq!(
        asked,
        vec![BlockRequest::new(2, 0, 16384), BlockRequest::new(2, 16384, 16384)]
    );
}
