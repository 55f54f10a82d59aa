//! Connections to peers.
use bytes::Bytes;
use magpie_bt::ids::PeerSlot;
use magpie_bt::session::messages::{
    DisconnectReason, ExtensionPayload, MetadataMessage, PeerToSession, SessionToPeer,
};
use magpie_bt::session::params::BlockRequest;
use magpie_bt::session::peer::{
    check_handshake, io_or_protocol, offer_extensions, our_handshake, ExtensionKind,
    HandshakeReply, Incoming,
    Message, Outgoing, PeerConfig, PeerConn, PeerHandshake, RemoteExtensions, WireFault,
    UT_METADATA_ID, UT_PEX_ID,
};

fn conn(fast_ext: bool, max_in_flight: u32) -> PeerConn {
    let mut config = PeerConfig::with_max_payload(1 << 20);
    config.fast_ext = fast_ext;
    config.max_in_flight = max_in_flight;
    PeerConn::new(PeerSlot(1), &config)
}

fn block(piece: u32, offset: u32) -> BlockRequest {
    BlockRequest::new(piece, offset, 16384)
}

fn wants(c: &mut PeerConn, req: BlockRequest) -> bool {
    matches!(
        c.on_command(Some(SessionToPeer::Request(req))),
        Outgoing::Send(Message::Request(r)) if r == req
    )
}

#[test]
fn requests_under_way_are_limited() {
    let mut c = conn(true, 2);
    assert!(wants(&mut c, block(0, 0)));
    assert!(!wants(&mut c, block(0, 0)), "no request twice");
    assert!(wants(&mut c, block(0, 16384)));
    assert!(!wants(&mut c, block(1, 0)), "no more than the limit");
    // A block that comes makes room.
    let got = c.on_message(Message::Piece {
        piece: 0,
        offset: 0,
        data: Bytes::from(vec![0u8; 16384]),
    });
    match got {
        Incoming::Block { event: PeerToSession::BlockReceived { slot, piece, offset, data }, cost } => {
            assert_eq!(slot, PeerSlot(1));
            assert_eq!((piece, offset, data.len(), cost), (0, 0, 16384, 16384));
        }
        other => panic!("{other:?}"),
    }
    assert!(wants(&mut c, block(1, 0)));
    // So does a refusal.
    let got = c.on_message(Message::RejectRequest(block(1, 0)));
    assert!(matches!(got, Incoming::Event(PeerToSession::Rejected { req, .. }) if req == block(1, 0)));
    assert!(wants(&mut c, block(1, 0)));
}

#[test]
fn a_request_is_taken_back_once() {
    let mut c = conn(true, 4);
    assert!(wants(&mut c, block(0, 0)));
    assert!(matches!(
        c.on_command(Some(SessionToPeer::Cancel(block(0, 0)))),
        Outgoing::Send(Message::Cancel(_))
    ));
    assert!(matches!(
        c.on_command(Some(SessionToPeer::Cancel(block(0, 0)))),
        Outgoing::Nothing
    ));
}

#[test]
fn interest_is_told_when_it_changes() {
    let mut c = conn(true, 4);
    assert!(matches!(
        c.on_command(Some(SessionToPeer::SetInterested(false))),
        Outgoing::Nothing
    ));
    assert!(matches!(
        c.on_command(Some(SessionToPeer::SetInterested(true))),
        Outgoing::Send(Message::Interested)
    ));
    assert!(matches!(
        c.on_command(Some(SessionToPeer::SetInterested(true))),
        Outgoing::Nothing
    ));
    assert!(matches!(
        c.on_command(Some(SessionToPeer::SetInterested(false))),
        Outgoing::Send(Message::NotInterested)
    ));
}

#[test]
fn refusals_go_to_fast_peers_only() {
    let reject = || Some(SessionToPeer::RejectRequest(block(0, 0)));
    assert!(matches!(
        conn(true, 4).on_command(reject()),
        Outgoing::Send(Message::RejectRequest(_))
    ));
    assert!(matches!(conn(false, 4).on_command(reject()), Outgoing::Nothing));
}

#[test]
fn blocks_carry_their_cost() {
    let mut c = conn(true, 4);
    let out = c.on_command(Some(SessionToPeer::BlockReady {
        req: block(2, 0),
        data: Bytes::from(vec![7u8; 100]),
    }));
    match out {
        Outgoing::SendBlock { req, data, cost } => {
            assert_eq!(req, block(2, 0));
            assert_eq!(data.len(), 100);
            assert_eq!(cost, 100);
        }
        other => panic!("{other:?}"),
    }
    match c.on_command(Some(SessionToPeer::SendBitfield(vec![0xF0]))) {
        Outgoing::Send(Message::Bitfield(b)) => assert_eq!(&b[..], &[0xF0]),
        other => panic!("{other:?}"),
    }
}

#[test]
fn a_session_that_is_gone_ends_the_connection() {
    let mut c = conn(true, 4);
    assert!(matches!(c.on_command(None), Outgoing::Exit(DisconnectReason::Shutdown)));
    assert!(matches!(
        c.on_command(Some(SessionToPeer::Shutdown)),
        Outgoing::Exit(DisconnectReason::Shutdown)
    ));
}

#[test]
fn hints_are_silent() {
    let mut c = conn(true, 4);
    for msg in [
        Message::KeepAlive,
        Message::SuggestPiece(1),
        Message::AllowedFast(2),
        Message::Unknown,
    ] {
        assert!(matches!(c.on_message(msg), Incoming::Nothing));
    }
}

#[test]
fn extension_messages_go_under_the_peers_number() {
    let mut c = conn(true, 4);
    let ask = || {
        Some(SessionToPeer::SendExtended {
            payload: ExtensionPayload::Metadata(MetadataMessage::Request { piece: 0 }),
        })
    };
    assert!(matches!(c.on_command(ask()), Outgoing::Nothing), "no extensions yet");
    let reply = HandshakeReply::Decoded {
        extensions: RemoteExtensions { ut_metadata: Some(9), ut_pex: None },
        metadata_size: Some(77),
        listen_port: Some(6881),
    };
    assert!(matches!(
        c.on_extension_handshake(reply),
        Incoming::Event(PeerToSession::ExtensionHandshake {
            metadata_size: Some(77),
            listen_port: Some(6881),
            ..
        })
    ));
    assert!(matches!(c.on_command(ask()), Outgoing::SendExtended { id: 9, .. }));
    c.on_late_handshake(RemoteExtensions::none());
    assert!(matches!(c.on_command(ask()), Outgoing::Nothing));
}

#[test]
fn extension_messages_come_under_our_numbers() {
    let mut c = conn(true, 4);
    let hello = |id: u8| Message::Extended { id, payload: Bytes::from_static(b"de") };
    // Without an exchange of extensions there is nothing to go by.
    assert!(matches!(c.on_message(hello(UT_PEX_ID)), Incoming::Nothing));
    assert!(matches!(c.on_extension_handshake(HandshakeReply::TimedOut), Incoming::Nothing));
    c.on_late_handshake(RemoteExtensions { ut_metadata: Some(3), ut_pex: Some(4) });
    assert!(matches!(
        c.on_message(hello(UT_METADATA_ID)),
        Incoming::Extension { kind: ExtensionKind::Metadata, .. }
    ));
    assert!(matches!(
        c.on_message(hello(UT_PEX_ID)),
        Incoming::Extension { kind: ExtensionKind::Pex, .. }
    ));
    assert!(matches!(c.on_message(hello(77)), Incoming::Nothing));
    assert!(matches!(c.on_message(hello(0)), Incoming::LateHandshake { .. }));
}

#[test]
fn handshakes_must_name_the_torrent() {
    let mut config = PeerConfig::with_max_payload(1 << 20);
    config.info_hash = [5; 20];
    config.peer_id = [6; 20];
    let ours = our_handshake(&config);
    assert_eq!(ours.info_hash, [5; 20]);
    assert_eq!(ours.peer_id, [6; 20]);
    assert!(ours.fast_ext && ours.extension_protocol);
    assert!(check_handshake(&config, &ours).is_ok());
    let theirs = PeerHandshake { info_hash: [9; 20], ..ours };
    let err = check_handshake(&config, &theirs).unwrap_err();
    assert_eq!((err.expected, err.actual), ([5; 20], [9; 20]));
    let c = PeerConn::new(PeerSlot(3), &config);
    assert!(matches!(
        c.connected(&ours, None),
        PeerToSession::Connected { slot: PeerSlot(3), peer_id, supports_fast: true, addr: None }
            if peer_id == [6; 20]
    ));
}

#[test]
fn extensions_are_offered_where_both_sides_speak_them() {
    let mut config = PeerConfig::with_max_payload(1 << 20);
    config.metadata_size = Some(99);
    config.local_listen_port = Some(6881);
    let both = our_handshake(&config);
    let offer = offer_extensions(&config, &both).unwrap();
    assert_eq!((offer.ut_metadata, offer.ut_pex), (1, 2));
    assert_eq!((offer.metadata_size, offer.listen_port), (Some(99), Some(6881)));
    let plain = PeerHandshake { extension_protocol: false, ..both };
    assert!(offer_extensions(&config, &plain).is_none());
    config.extension_protocol = false;
    assert!(offer_extensions(&config, &both).is_none());
}

#[test]
fn wire_faults_are_told_apart() {
    assert!(matches!(
        io_or_protocol(WireFault::Io("reset".to_owned())),
        DisconnectReason::Io(why) if why == "reset"
    ));
    assert!(matches!(
        io_or_protocol(WireFault::Protocol("length".to_owned())),
        DisconnectReason::ProtocolError(why) if why == "length"
    ));
}
