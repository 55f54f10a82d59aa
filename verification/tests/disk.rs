//! Disk work and the cache in front of it.
use bytes::Bytes;
use magpie_bt::session::disk::{read_piece, DiskReply};
use magpie_bt::session::messages::{answer_request, SessionToPeer};
use magpie_bt::session::params::BlockRequest;
use magpie_bt::session::read_cache::{Lookup, ReadCache};
use magpie_bt::session::{DiskCompletion, DiskError, DiskOp, DiskWriter};
use magpie_bt::storage::{MemoryStorage, Storage};

#[test]
fn verifies_and_writes() {
    let mut writer = DiskWriter::new(MemoryStorage::new(1024));
    let reply = writer.perform(DiskOp::VerifyAndWrite {
        piece: 0,
        offset: 0,
        buffer: Bytes::from(vec![7u8; 64]),
        expected_hash: [5u8; 20],
        digest: [5u8; 20],
    });
    match reply {
        DiskReply::Completion(done) => {
            assert_eq!(done.piece, 0);
            assert_eq!(done.result, Ok(()));
        }
        other => panic!("{other:?}"),
    }
    let metrics = writer.metrics();
    assert_eq!(metrics.pieces_written, 1);
    assert_eq!(metrics.bytes_written, 64);
    assert_eq!(metrics.piece_verify_fail, 0);

    // The storage has the bytes.
    let mut got = vec![0u8; 64];
    writer.storage().read_block(0, &mut got).unwrap();
    assert_eq!(got, vec![7u8; 64]);
    assert!(matches!(writer.perform(DiskOp::Shutdown), DiskReply::Stopped));
}

#[test]
fn surfaces_hash_mismatch() {
    let mut writer = DiskWriter::new(MemoryStorage::new(1024));
    let reply = writer.perform(DiskOp::VerifyAndWrite {
        piece: 1,
        offset: 0,
        buffer: Bytes::from(vec![1u8; 32]),
        expected_hash: [0xFFu8; 20],
        digest: [0x01u8; 20],
    });
    match reply {
        DiskReply::Completion(done) => assert_eq!(
            done,
            DiskCompletion { piece: 1, result: Err(DiskError::HashMismatch) }
        ),
        other => panic!("{other:?}"),
    }
    assert_eq!(writer.metrics().piece_verify_fail, 1);
    assert_eq!(writer.metrics().pieces_written, 0);
    let mut got = vec![9u8; 32];
    writer.storage().read_block(0, &mut got).unwrap();
    assert_eq!(got, vec![0u8; 32], "nothing was written");
}

#[test]
fn storage_failures_are_counted() {
    let mut writer = DiskWriter::new(MemoryStorage::new(16));
    let reply = writer.perform(DiskOp::VerifyAndWrite {
        piece: 0,
        offset: 8,
        buffer: Bytes::from(vec![1u8; 32]),
        expected_hash: [0u8; 20],
        digest: [0u8; 20],
    });
    assert!(matches!(
        reply,
        DiskReply::Completion(DiskCompletion { piece: 0, result: Err(DiskError::Io) })
    ));
    let reply = writer.perform(DiskOp::Read { piece: 0, offset: 10, length: 10 });
    assert!(matches!(reply, DiskReply::Block(Err(DiskError::Io))));
    assert_eq!(writer.metrics().io_failures, 2);
}

/// A storage whose bytes tell their place.
fn make_storage_with_pattern(total: u64) -> MemoryStorage {
    let mut storage = MemoryStorage::new(total);
    let data: Vec<u8> = (0..total).map(|i| (i as u8).wrapping_mul(17)).collect();
    storage.write_block(0, &data).unwrap();
    storage
}

/// Loads a piece through the cache.
fn get_or_load(
    cache: &mut ReadCache,
    key: ([u8; 20], u32),
    offset: u64,
    length: u32,
    storage: &MemoryStorage,
) -> Bytes {
    match cache.lookup(key) {
        Lookup::Hit(bytes) => bytes,
        Lookup::Miss => {
            let loaded = read_piece(storage, offset, length);
            cache.finalize_miss(key, &loaded);
            loaded.unwrap()
        }
        Lookup::Pending => panic!("nobody else loads"),
    }
}

#[test]
fn hit_after_load() {
    let storage = make_storage_with_pattern(8192);
    let mut cache = ReadCache::new(1 << 20);
    let key = ([0u8; 20], 0);
    let first = get_or_load(&mut cache, key, 0, 4096, &storage);
    assert_eq!(first.len(), 4096);
    assert_eq!(first[3], 51);
    let s = cache.stats();
    assert_eq!(s.misses, 1);
    assert_eq!(s.entries, 1);
    assert_eq!(s.total_bytes, 4096);

    let second = get_or_load(&mut cache, key, 0, 4096, &storage);
    assert_eq!(first, second);
    let s = cache.stats();
    assert_eq!(s.hits, 1);
    assert_eq!(s.misses, 1);
}

#[test]
fn singleflight_coalesces_concurrent_misses() {
    let storage = make_storage_with_pattern(8192);
    let mut cache = ReadCache::new(1 << 20);
    let key = ([0u8; 20], 0);
    assert!(matches!(cache.lookup(key), Lookup::Miss));
    for _ in 0..7 {
        assert!(matches!(cache.lookup(key), Lookup::Pending));
    }
    cache.finalize_miss(key, &read_piece(&storage, 0, 4096));
    let s = cache.stats();
    assert_eq!(s.misses, 1, "singleflight must coalesce concurrent misses");
    assert_eq!(s.singleflight_joins, 7);
    assert!(matches!(cache.lookup(key), Lookup::Hit(_)));
}

#[test]
fn bypass_does_not_pollute_cache() {
    let mut cache = ReadCache::new(1 << 20);
    cache.read_bypass();
    let s = cache.stats();
    assert_eq!(s.bypass_reads, 1);
    assert_eq!(s.entries, 0, "bypass must not populate cache");
    assert_eq!(s.misses, 0);
}

#[test]
fn lru_evicts_cold_entry_when_over_budget() {
    // Cache budget 3 * 1024 bytes; each piece 1024 bytes. Insert 3,
    // access first, insert 4th — second piece (now coldest) evicted.
    let storage = make_storage_with_pattern(8192);
    let mut cache = ReadCache::new(3 * 1024);
    let key = |p: u32| ([0u8; 20], p);
    get_or_load(&mut cache, key(0), 0, 1024, &storage);
    get_or_load(&mut cache, key(1), 1024, 1024, &storage);
    get_or_load(&mut cache, key(2), 2048, 1024, &storage);
    // Touch piece 0 so piece 1 becomes coldest.
    assert!(cache.probe(key(0)).is_some());
    get_or_load(&mut cache, key(3), 3072, 1024, &storage);
    assert!(cache.probe(key(0)).is_some(), "touched piece 0 must survive");
    assert!(cache.probe(key(2)).is_some(), "piece 2 must survive");
    assert!(cache.probe(key(3)).is_some(), "piece 3 must survive");
    assert!(cache.probe(key(1)).is_none(), "piece 1 must be evicted");
    assert!(cache.stats().evictions >= 1);
}

#[test]
fn insert_verified_short_circuits_next_read() {
    let storage = make_storage_with_pattern(8192);
    let mut cache = ReadCache::new(1 << 20);
    let key = ([0u8; 20], 7);
    let payload = Bytes::from(vec![0xAAu8; 4096]);
    cache.insert_verified(key, payload.clone());
    let got = get_or_load(&mut cache, key, 0, 4096, &storage);
    assert_eq!(got, payload);
    let s = cache.stats();
    assert_eq!(s.hits, 1);
    assert_eq!(s.misses, 0, "insert_verified must short-circuit");
}

#[test]
fn a_failed_load_is_tried_again() {
    let mut cache = ReadCache::with_defaults();
    let key = ([1u8; 20], 3);
    assert!(matches!(cache.lookup(key), Lookup::Miss));
    cache.finalize_miss(key, &Err(DiskError::Io));
    assert!(cache.probe(key).is_none());
    assert!(matches!(cache.lookup(key), Lookup::Miss));
}

#[test]
fn requests_are_answered_from_the_piece() {
    let piece = Ok(Bytes::from_static(b"0123456789"));
    let req = BlockRequest::new(4, 2, 3);
    match answer_request(req, false, &piece) {
        Some(SessionToPeer::BlockReady { req: r, data }) => {
            assert_eq!(r, req);
            assert_eq!(&data[..], b"234");
        }
        other => panic!("{other:?}"),
    }
    // A failed read is refused where that can be said.
    assert!(answer_request(req, false, &Err(DiskError::Io)).is_none());
    assert!(matches!(
        answer_request(req, true, &Err(DiskError::Io)),
        Some(SessionToPeer::RejectRequest(r)) if r == req
    ));
    // Nothing was read, so the end of the block does not matter.
    let far = BlockRequest::new(0, u32::MAX, 16384);
    assert!(answer_request(far, false, &Err(DiskError::Io)).is_none());
}
