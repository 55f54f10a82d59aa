//! Fetching metadata.
use bytes::Bytes;
use magpie_bt::session::info::{FileListV1, Info, InfoV1};
use magpie_bt::session::metadata_exchange::{info_envelope, MAX_METADATA_SIZE};
use magpie_bt::session::{MetadataAssembler, MetadataAssemblyError};
use magpie_bt::PeerSlot;

#[test]
fn new_assembler_has_no_size() {
    let a = MetadataAssembler::new([0; 20]);
    assert!(!a.has_size());
    assert!(!a.is_complete());
    assert_eq!(a.next_needed_piece(), None);
}

#[test]
fn set_total_size_allocates_pieces() {
    let mut a = MetadataAssembler::new([0; 20]);
    a.set_total_size(32768);
    assert!(a.has_size());
    assert_eq!(a.piece_count(), 2);
    assert!(!a.is_complete());
    assert_eq!(a.next_needed_piece(), Some(0));
}

#[test]
fn receive_piece_stores_data() {
    let mut a = MetadataAssembler::new([0; 20]);
    a.set_total_size(16384);
    assert!(a.needs_piece(0));
    a.receive_piece(0, Bytes::from_static(b"hello")).unwrap();
    assert!(!a.needs_piece(0));
    assert!(a.is_complete());
}

#[test]
fn pending_prevents_double_request() {
    let mut a = MetadataAssembler::new([0; 20]);
    a.set_total_size(32768);
    a.mark_pending(0, PeerSlot(1));
    assert!(!a.needs_piece(0));
    assert_eq!(a.next_needed_piece(), Some(1));
}

#[test]
fn reject_clears_pending() {
    let mut a = MetadataAssembler::new([0; 20]);
    a.set_total_size(32768);
    a.mark_pending(0, PeerSlot(1));
    assert!(!a.needs_piece(0));
    a.receive_reject(0);
    assert!(a.needs_piece(0));
}

#[test]
fn try_assemble_concatenates() {
    let mut a = MetadataAssembler::new([0; 20]);
    a.set_total_size(5); // tiny for test
    // piece_count = 1 (5 bytes < 16384)
    a.receive_piece(0, Bytes::from_static(b"hello")).unwrap();
    let assembled = a.try_assemble().unwrap();
    assert_eq!(assembled, b"hello");
}

#[test]
fn set_total_size_rejects_oversized() {
    let mut a = MetadataAssembler::new([0; 20]);
    a.set_total_size(MAX_METADATA_SIZE + 1);
    assert!(!a.has_size());
    assert_eq!(a.piece_count(), 0);
}

#[test]
fn set_total_size_ignores_subsequent_calls() {
    let mut a = MetadataAssembler::new([0; 20]);
    a.set_total_size(32768);
    assert_eq!(a.piece_count(), 2);
    // Second call with different size is ignored
    a.set_total_size(16384);
    assert_eq!(a.piece_count(), 2);
    assert_eq!(a.total_size(), Some(32768));
}

#[test]
fn receive_piece_rejects_out_of_range() {
    let mut a = MetadataAssembler::new([0; 20]);
    a.set_total_size(16384); // 1 piece
    assert!(a.receive_piece(1, Bytes::from_static(b"x")).is_err());
}

fn whole() -> MetadataAssembler {
    let mut a = MetadataAssembler::new([3; 20]);
    a.set_total_size(5);
    a.receive_piece(0, Bytes::from_static(b"hello")).unwrap();
    a
}

fn info() -> Info {
    Info {
        piece_length: 16384,
        private: true,
        v1: Some(InfoV1 { pieces: vec![1u8; 40], files: FileListV1::Single { length: 20000 } }),
    }
}

#[test]
fn accepted_metadata_gives_the_parameters() {
    let (bytes, params) = whole().verify_and_parse(&[3; 20], Ok(&info())).unwrap();
    assert_eq!(bytes, b"hello");
    assert_eq!(params.piece_count, 2);
    assert_eq!(params.piece_length, 16384);
    assert_eq!(params.total_length, 20000);
    assert_eq!(params.piece_hashes, vec![1u8; 40]);
    assert!(params.private);
}

#[test]
fn metadata_with_another_hash_is_refused() {
    let err = whole().verify_and_parse(&[4; 20], Ok(&info())).unwrap_err();
    match err {
        MetadataAssemblyError::HashMismatch { expected, got } => {
            assert_eq!(expected, "03".repeat(20));
            assert_eq!(got, "04".repeat(20));
        }
        other => panic!("{other:?}"),
    }
    let a = MetadataAssembler::new([3; 20]);
    let err = a.verify_and_parse(&[3; 20], Ok(&info())).unwrap_err();
    assert!(matches!(err, MetadataAssemblyError::SizeUnknown), "{err:?}");
}

#[test]
fn unfinished_metadata_is_refused() {
    let mut a = MetadataAssembler::new([3; 20]);
    a.set_total_size(5);
    let err = a.verify_and_parse(&[3; 20], Ok(&info())).unwrap_err();
    assert!(matches!(err, MetadataAssemblyError::Incomplete { received: 0, total: 1 }), "{err:?}");
}

#[test]
fn unparsable_metadata_is_refused() {
    let err = whole().verify_and_parse(&[3; 20], Err(String::from("no"))).unwrap_err();
    assert!(matches!(err, MetadataAssemblyError::ParseFailed(_)), "{err:?}");
    let v2 = Info { piece_length: 1, private: false, v1: None };
    assert!(whole().verify_and_parse(&[3; 20], Ok(&v2)).is_err());
}

#[test]
fn envelope_is_a_torrent_file() {
    assert_eq!(info_envelope(b"d1:ai1ee"), b"d4:infod1:ai1eee");
}
