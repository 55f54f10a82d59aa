//! Local service discovery.
use magpie_bt::entropy::EntropyError;
use magpie_bt::lsd::{
    cookie_from_draw, generate_cookie, LsdAnnounce, LsdConfig, LsdError, LsdService, LsdTransport,
    MAX_INFOHASHES_PER_MESSAGE, MIN_ANNOUNCE_INTERVAL,
};
use magpie_bt::net::{PeerAddr, PeerIp};
use magpie_bt::text::hex_encode;

fn sample_hash() -> [u8; 20] {
    let mut h = [0u8; 20];
    for (i, b) in h.iter_mut().enumerate() {
        *b = u8::try_from(i).unwrap();
    }
    h
}

fn sample_hash_2() -> [u8; 20] {
    let mut h = [0xffu8; 20];
    h[0] = 0xab;
    h[19] = 0xcd;
    h
}

// -- Codec unit tests ---------------------------------------------------

#[test]
fn lsd_encode_decode_roundtrip() {
    let announce = LsdAnnounce {
        port: 6881,
        info_hashes: vec![sample_hash()],
        cookie: Some("test-cookie".into()),
    };
    let encoded = announce.encode();
    let decoded = LsdAnnounce::decode(&encoded).expect("decode failed");
    assert_eq!(announce, decoded);
}

#[test]
fn encode_decode_roundtrip_no_cookie() {
    let announce = LsdAnnounce {
        port: 51413,
        info_hashes: vec![sample_hash()],
        cookie: None,
    };
    let encoded = announce.encode();
    let decoded = LsdAnnounce::decode(&encoded).expect("decode failed");
    assert_eq!(decoded.port, 51413);
    assert_eq!(decoded.info_hashes, vec![sample_hash()]);
    assert_eq!(decoded.cookie, None);
}

#[test]
fn parse_realistic_announce() {
    let msg = b"BT-SEARCH * HTTP/1.1\r\n\
        Host: 239.192.152.143:6771\r\n\
        Port: 6881\r\n\
        Infohash: 000102030405060708090a0b0c0d0e0f10111213\r\n\
        cookie: abc123\r\n\
        \r\n";
    let ann = LsdAnnounce::decode(msg).expect("decode failed");
    assert_eq!(ann.port, 6881);
    assert_eq!(ann.info_hashes, vec![sample_hash()]);
    assert_eq!(ann.cookie.as_deref(), Some("abc123"));
}

#[test]
fn parse_multiple_info_hashes() {
    let msg = format!(
        "BT-SEARCH * HTTP/1.1\r\n\
         Host: 239.192.152.143:6771\r\n\
         Port: 12345\r\n\
         Infohash: {}\r\n\
         Infohash: {}\r\n\
         \r\n",
        hex_encode(&sample_hash()),
        hex_encode(&sample_hash_2()),
    );
    let ann = LsdAnnounce::decode(msg.as_bytes()).expect("decode failed");
    assert_eq!(ann.port, 12345);
    assert_eq!(ann.info_hashes.len(), 2);
    assert_eq!(ann.info_hashes[0], sample_hash());
    assert_eq!(ann.info_hashes[1], sample_hash_2());
}

#[test]
fn missing_port_error() {
    let msg = b"BT-SEARCH * HTTP/1.1\r\n\
        Host: 239.192.152.143:6771\r\n\
        Infohash: 000102030405060708090a0b0c0d0e0f10111213\r\n\
        \r\n";
    let err = LsdAnnounce::decode(msg).unwrap_err();
    assert!(matches!(err, LsdError::MissingPort));
}

#[test]
fn missing_info_hash_error() {
    let msg = b"BT-SEARCH * HTTP/1.1\r\n\
        Host: 239.192.152.143:6771\r\n\
        Port: 6881\r\n\
        \r\n";
    let err = LsdAnnounce::decode(msg).unwrap_err();
    assert!(matches!(err, LsdError::MissingInfoHash));
}

#[test]
fn lenient_line_endings_lf_only() {
    let msg = "BT-SEARCH * HTTP/1.1\n\
        Host: 239.192.152.143:6771\n\
        Port: 6881\n\
        Infohash: 000102030405060708090a0b0c0d0e0f10111213\n\
        \n";
    let ann = LsdAnnounce::decode(msg.as_bytes()).expect("decode failed");
    assert_eq!(ann.port, 6881);
    assert_eq!(ann.info_hashes, vec![sample_hash()]);
}

#[test]
fn lenient_line_endings_mixed() {
    // Mix \r\n and \n in the same message.
    let msg = "BT-SEARCH * HTTP/1.1\r\n\
        Host: 239.192.152.143:6771\n\
        Port: 9999\r\n\
        Infohash: 000102030405060708090a0b0c0d0e0f10111213\n\
        \r\n";
    let ann = LsdAnnounce::decode(msg.as_bytes()).expect("decode failed");
    assert_eq!(ann.port, 9999);
}

#[test]
fn invalid_port_error() {
    let msg = b"BT-SEARCH * HTTP/1.1\r\n\
        Port: notanumber\r\n\
        Infohash: 000102030405060708090a0b0c0d0e0f10111213\r\n\
        \r\n";
    let err = LsdAnnounce::decode(msg).unwrap_err();
    assert!(matches!(err, LsdError::InvalidPort(_)));
}

#[test]
fn invalid_info_hash_error() {
    let msg = b"BT-SEARCH * HTTP/1.1\r\n\
        Port: 6881\r\n\
        Infohash: tooshort\r\n\
        \r\n";
    let err = LsdAnnounce::decode(msg).unwrap_err();
    assert!(matches!(err, LsdError::InvalidInfoHash(_)));
}

#[test]
fn invalid_request_line() {
    let msg = b"GET / HTTP/1.1\r\nPort: 6881\r\nInfohash: 000102030405060708090a0b0c0d0e0f10111213\r\n\r\n";
    let err = LsdAnnounce::decode(msg).unwrap_err();
    assert!(matches!(err, LsdError::InvalidFormat(_)));
}

#[test]
fn too_many_info_hashes_rejected() {
    let mut msg = String::from("BT-SEARCH * HTTP/1.1\r\nPort: 6881\r\n");
    // Insert MAX_INFOHASHES_PER_MESSAGE + 1 info hashes.
    for i in 0..=MAX_INFOHASHES_PER_MESSAGE {
        let mut hash = [0u8; 20];
        hash[0] = (i & 0xff) as u8;
        hash[1] = ((i >> 8) & 0xff) as u8;
        let hex = hex_encode(&hash);
        msg.push_str(&format!("Infohash: {hex}\r\n"));
    }
    msg.push_str("\r\n");
    let err = LsdAnnounce::decode(msg.as_bytes()).unwrap_err();
    assert!(
        matches!(err, LsdError::InvalidFormat(ref s) if s.contains("too many info hashes")),
        "expected InvalidFormat(too many info hashes), got {err:?}"
    );
}

/// Private torrents must not be announced.
#[test]
fn private_torrent_not_registered() {
    let mut service = LsdService::new(LsdConfig::default(), 6881, String::from("c"));
    let mut count = 0;
    // Register as private: nothing is to be done.
    if let Some(cmd) = service.register(sample_hash(), true) {
        count += 1;
        service.handle_command(Some(cmd));
    }
    // Register a non-private hash: only this one arrives.
    if let Some(cmd) = service.register(sample_hash_2(), false) {
        count += 1;
        service.handle_command(Some(cmd));
    }
    assert_eq!(count, 1);
    assert_eq!(service.announce().unwrap().info_hashes, vec![sample_hash_2()]);
}

#[test]
fn wire_form() {
    let announce = LsdAnnounce {
        port: 6881,
        info_hashes: vec![sample_hash(), sample_hash_2()],
        cookie: Some("k".into()),
    };
    let expected = "BT-SEARCH * HTTP/1.1\r\n\
        Host: 239.192.152.143:6771\r\n\
        Port: 6881\r\n\
        Infohash: 000102030405060708090a0b0c0d0e0f10111213\r\n\
        Infohash: abffffffffffffffffffffffffffffffffffffcd\r\n\
        cookie: k\r\n\
        \r\n";
    assert_eq!(String::from_utf8(announce.encode()).unwrap(), expected);
}

#[test]
fn not_utf8_is_an_invalid_format() {
    let err = LsdAnnounce::decode(b"BT-SEARCH \xff").unwrap_err();
    let expected = std::str::from_utf8(b"BT-SEARCH \xff").unwrap_err().to_string();
    assert!(matches!(err, LsdError::InvalidFormat(ref s) if s.contains(&expected)), "{err:?}");
}

#[test]
fn hash_digits_are_lower_case() {
    let upper = b"BT-SEARCH * HTTP/1.1\r\nPort: 1\r\n\
        Infohash: 000102030405060708090A0B0C0D0E0F10111213\r\n\r\n";
    assert!(matches!(LsdAnnounce::decode(upper).unwrap_err(), LsdError::InvalidInfoHash(_)));
    let bad = b"BT-SEARCH * HTTP/1.1\r\nPort: 1\r\n\
        Infohash: 000102030405060708090a0b0c0d0e0f1011121g\r\n\r\n";
    assert!(matches!(LsdAnnounce::decode(bad).unwrap_err(), LsdError::InvalidInfoHash(_)));
}

#[test]
fn own_announcement_is_not_a_discovery() {
    let mut ours = LsdService::new(LsdConfig::default(), 6881, String::from("mine"));
    let cmd = ours.register(sample_hash(), false);
    assert!(ours.handle_command(cmd));
    let sent = ours.announce().unwrap().encode();
    let ip = PeerIp::V4(0xc0a8_0001);
    assert!(ours.on_datagram(&sent, ip).is_empty());

    // Another service that wants the torrent finds the sender.
    let mut other = LsdService::new(LsdConfig::default(), 6882, String::from("theirs"));
    let cmd = other.register(sample_hash(), false);
    assert!(other.handle_command(cmd));
    let found = other.on_datagram(&sent, ip);
    assert_eq!(found.len(), 1);
    assert_eq!(found[0].info_hash, sample_hash());
    assert_eq!(found[0].addr, PeerAddr { ip, port: 6881 });
}

#[test]
fn unregistered_torrents_are_not_announced() {
    let mut service = LsdService::new(LsdConfig::default(), 6881, String::from("c"));
    assert!(service.announce().is_none());
    let cmd = service.register(sample_hash(), false);
    service.handle_command(cmd);
    assert!(service.announce().is_some());
    let cmd = service.unregister(sample_hash());
    assert!(service.handle_command(Some(cmd)));
    assert!(service.announce().is_none());
    assert!(!service.handle_command(None));
}

#[test]
fn announcing_is_not_too_frequent() {
    let mut config = LsdConfig::default();
    assert_eq!(config.announce_interval, 300_000_000_000);
    config.announce_interval = 1_000_000_000;
    let service = LsdService::new(config, 6881, String::from("c"));
    assert_eq!(service.announce_interval(), MIN_ANNOUNCE_INTERVAL);
    config.enabled = false;
    let off = LsdService::new(config, 6881, String::from("c"));
    assert_eq!(off.transport(), LsdTransport::Disabled);
}

#[test]
fn cookies_are_random_hex() {
    let a = generate_cookie().unwrap();
    let b = generate_cookie().unwrap();
    assert_ne!(a, b);
    assert_eq!(a.len(), 16);
    assert!(a.chars().all(|c| c.is_ascii_hexdigit()));
}

#[test]
fn cookie_spells_the_drawn_bytes() {
    let drawn = vec![0x00, 0x0f, 0xa0, 0xff, 0x12, 0x34, 0xab, 0xcd];
    assert_eq!(cookie_from_draw(Ok(drawn)), Ok(String::from("000fa0ff1234abcd")));
    assert_eq!(cookie_from_draw(Err(EntropyError)), Err(EntropyError));
}

#[test]
fn bare_line_feeds_are_read_alike() {
    let announce = LsdAnnounce {
        port: 6881,
        info_hashes: vec![sample_hash(), sample_hash_2()],
        cookie: Some("a\rb".into()),
    };
    let text = String::from_utf8(announce.encode()).unwrap();
    let bare = text.replace("\r\n", "\n");
    assert_ne!(text, bare);
    assert_eq!(LsdAnnounce::decode(bare.as_bytes()).unwrap(), announce);
}
