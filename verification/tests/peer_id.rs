//! Peer ids.
use magpie_bt::entropy::{drawn_bytes, random_bytes, EntropyError};
use magpie_bt::peer_id::PeerIdBuilder;

#[test]
fn layout_matches_azureus() {
    let b = PeerIdBuilder::magpie(*b"0001");
    let id = b.build_with_suffix([0; 12]);
    assert_eq!(&id[..8], b"-Mg0001-");
    assert_eq!(id.len(), 20);
}

#[test]
fn consecutive_builds_differ_in_suffix() {
    let b = PeerIdBuilder::magpie(*b"0001");
    let a = b.build().unwrap();
    let c = b.build().unwrap();
    assert_eq!(&a[..8], &c[..8], "prefix must be stable");
    assert_ne!(a[8..], c[8..], "suffixes should differ across calls");
}

#[test]
fn prefix_method_matches_built_id() {
    let b = PeerIdBuilder::new(*b"xy", *b"1234");
    let prefix = b.prefix();
    let id = b.build().unwrap();
    assert_eq!(&id[..8], &prefix);
    assert_eq!(&prefix, b"-xy1234-");
}

#[test]
fn suffix_has_reasonable_entropy() {
    // 100 samples; count distinct suffixes. Any OS RNG should give 100.
    let b = PeerIdBuilder::magpie(*b"0001");
    let mut seen = std::collections::HashSet::new();
    for _ in 0..100 {
        let id = b.build().unwrap();
        let mut s = [0_u8; 12];
        s.copy_from_slice(&id[8..]);
        seen.insert(s);
    }
    assert_eq!(seen.len(), 100, "each call must yield a unique suffix");
}

#[test]
fn suffix_follows_the_prefix() {
    let b = PeerIdBuilder::new(*b"zz", *b"9999");
    let id = b.build_with_suffix(*b"abcdefghijkl");
    assert_eq!(&id, b"-zz9999-abcdefghijkl");
}

#[test]
fn random_suffix_is_printable() {
    let b = PeerIdBuilder::magpie(*b"0001");
    for _ in 0..100 {
        let id = b.build().unwrap();
        assert!(id[8..].iter().all(|c| c.is_ascii_graphic()));
    }
}

#[test]
fn drawn_bytes_become_the_suffix() {
    let b = PeerIdBuilder::magpie(*b"0001");
    let drawn = vec![0, 1, 9, 10, 17, 63, 64, 127, 128, 200, 254, 255];
    assert_eq!(b.build_from_draw(Ok(drawn)), Ok(*b"-Mg0001-019:Ao0o08no"));
    assert_eq!(b.build_from_draw(Err(EntropyError)), Err(EntropyError));
}

#[test]
fn draw_gives_bytes_or_its_failure() {
    assert_eq!(random_bytes(0), Ok(vec![]));
    assert_eq!(random_bytes(33).unwrap().len(), 33);
    assert_ne!(random_bytes(32).unwrap(), vec![0; 32]);
    assert_eq!(drawn_bytes(Ok(()), vec![1, 2]), Ok(vec![1, 2]));
    let failed = Err(getrandom::Error::UNSUPPORTED);
    assert_eq!(drawn_bytes(failed, vec![1, 2]), Err(EntropyError));
}
