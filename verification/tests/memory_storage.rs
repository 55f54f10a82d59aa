//! Storage in memory.
use magpie_bt::storage::{IoVec, IoVecMut, MemoryStorage, Storage, StorageErrorKind};

#[test]
fn roundtrip_small() {
    let mut s = MemoryStorage::new(32);
    s.write_block(8, b"hello").unwrap();
    let mut buf = [0_u8; 5];
    s.read_block(8, &mut buf).unwrap();
    assert_eq!(&buf, b"hello");
}

#[test]
fn memory_rejects_out_of_bounds() {
    let mut s = MemoryStorage::new(4);
    assert!(matches!(
        s.write_block(2, b"12345").unwrap_err().kind,
        StorageErrorKind::OutOfBounds { .. }
    ));
    let mut buf = [0_u8; 5];
    assert!(s.read_block(0, &mut buf).is_err());
}

#[test]
fn rejects_offset_overflow() {
    let mut s = MemoryStorage::new(16);
    assert!(matches!(
        s.write_block(u64::MAX - 1, b"xy").unwrap_err().kind,
        StorageErrorKind::OutOfBounds { .. }
    ));
}

#[test]
fn writev_sequential() {
    let mut s = MemoryStorage::new(16);
    s.writev(&[
        IoVec {
            offset: 0,
            buf: b"hello",
        },
        IoVec {
            offset: 5,
            buf: b" world",
        },
    ])
    .unwrap();
    let mut out = [0_u8; 11];
    s.read_block(0, &mut out).unwrap();
    assert_eq!(&out, b"hello world");
}

#[test]
fn a_write_leaves_the_rest_alone() {
    let mut s = MemoryStorage::new(8);
    s.write_block(0, b"abcdefgh").unwrap();
    s.write_block(2, b"XY").unwrap();
    let mut out = [0_u8; 8];
    s.read_block(0, &mut out).unwrap();
    assert_eq!(&out, b"abXYefgh");
    assert_eq!(s.capacity(), 8);
}

#[test]
fn out_of_bounds_tells_the_range() {
    let mut s = MemoryStorage::new(4);
    match s.write_block(2, b"12345").unwrap_err().kind {
        StorageErrorKind::OutOfBounds { offset, len, capacity } => {
            assert_eq!((offset, len, capacity), (2, 5, 4));
        }
        other => panic!("{other:?}"),
    }
}

#[test]
fn readv_fills_every_buffer() {
    let mut s = MemoryStorage::new(6);
    s.write_block(0, b"abcdef").unwrap();
    let mut iov = vec![
        IoVecMut { offset: 4, buf: vec![0; 2] },
        IoVecMut { offset: 0, buf: vec![0; 3] },
    ];
    s.readv(&mut iov).unwrap();
    assert_eq!(iov[0].buf, b"ef");
    assert_eq!(iov[1].buf, b"abc");
    s.delete().unwrap();
}
