//! Resume state.
use magpie_bt::bencode::{encode, Dict, Value};
use magpie_bt::session::flush::Flush;
use magpie_bt::session::resume::{
    check_sidecar_size, decode_snapshot, encode_snapshot, pack_bitfield, unpack_bitfield,
    MAX_PIECE_COUNT,
};
use magpie_bt::session::{FileResumeSink, ResumeSinkError, ResumeSnapshot};
use std::borrow::Cow;
use std::collections::HashMap;

/// Files by their paths.
#[derive(Default)]
struct Disk {
    files: HashMap<Vec<u8>, Vec<u8>>,
}

impl Disk {
    /// Carries writes out and tells how many there were.
    fn apply(&mut self, flush: &mut Flush, now: u64) -> usize {
        let mut n = 0;
        while let Some(w) = flush.next(now) {
            self.files.insert(w.tmp.clone(), w.payload.clone());
            let moved = self.files.remove(&w.tmp).unwrap();
            self.files.insert(w.path.clone(), moved);
            n += 1;
        }
        n
    }
}

fn sample_snap() -> ResumeSnapshot {
    ResumeSnapshot {
        info_hash: [0xABu8; 20],
        have: vec![
            true, false, true, true, false, false, false, false, true, true,
        ],
        piece_count: 10,
        piece_length: 16_384,
        total_length: 163_840,
    }
}

#[test]
fn pack_unpack_roundtrips() {
    let have = vec![
        true, false, true, true, false, false, true, true, // byte 0 = 0xb3
        false, true, // byte 1 high bits: 0b0100_0000 = 0x40
    ];
    let packed = pack_bitfield(&have);
    assert_eq!(packed, vec![0b1011_0011, 0b0100_0000]);
    let unpacked = unpack_bitfield(&packed, 10).unwrap();
    assert_eq!(unpacked, have);
}

#[test]
fn pack_empty_is_empty() {
    assert_eq!(pack_bitfield(&[]), Vec::<u8>::new());
}

#[test]
fn pack_exact_byte_boundary() {
    let have = vec![true; 8];
    let packed = pack_bitfield(&have);
    assert_eq!(packed, vec![0xFF]);
    let unpacked = unpack_bitfield(&packed, 8).unwrap();
    assert_eq!(unpacked, have);
}

#[test]
fn unpack_rejects_short_buffer() {
    // 10 pieces need 2 bytes; supply 1.
    let err = unpack_bitfield(&[0xFF], 10).unwrap_err();
    assert!(matches!(err, ResumeSinkError::InvalidSchema(_)));
}

#[test]
fn unpack_ignores_trailing_bits() {
    // 6 pieces worth of bits; last byte has garbage in low 2 bits.
    let packed = vec![0b1111_1111];
    let unpacked = unpack_bitfield(&packed, 6).unwrap();
    assert_eq!(unpacked, vec![true; 6]);
}

#[test]
fn resume_encode_decode_roundtrip() {
    let snap = sample_snap();
    let bytes = encode_snapshot(&snap);
    let back = decode_snapshot(&bytes).unwrap();
    assert_eq!(back, snap);
}

#[test]
fn file_sink_writes_and_loads_sidecar() {
    let mut disk = Disk::default();
    let mut sink = FileResumeSink::new(b"/state".to_vec());
    let snap = sample_snap();
    sink.enqueue(sample_snap()).unwrap();
    disk.apply(&mut sink.flush_now(), 0);
    let bytes = disk.files.get(&sink.sidecar_path(&snap.info_hash)).unwrap();
    let got = decode_snapshot(bytes).unwrap();
    assert_eq!(got, snap);
}

#[test]
fn sidecar_path_uses_hex_info_hash() {
    let sink = FileResumeSink::new(b"/state".to_vec());
    let info_hash = [
        0xDE, 0xAD, 0xBE, 0xEF, 0x00, 0x11, 0x22, 0x33, 0x44, 0x55, 0x66, 0x77, 0x88, 0x99, 0xAA,
        0xBB, 0xCC, 0xDD, 0xEE, 0xFF,
    ];
    let p = sink.sidecar_path(&info_hash);
    assert_eq!(p, b"/state/deadbeef00112233445566778899aabbccddeeff.resume");
}

#[test]
fn enqueue_rejects_have_length_mismatch() {
    let mut sink = FileResumeSink::new(b"/state".to_vec());
    let mut bad = sample_snap();
    bad.have.truncate(5); // piece_count is 10, have is 5 → mismatch
    let err = sink.enqueue(bad).unwrap_err();
    assert!(matches!(
        err,
        ResumeSinkError::HaveLengthMismatch {
            have_len: 5,
            piece_count: 10
        }
    ));
    assert!(sink.flush_now().next(0).is_none());
}

#[test]
fn resume_enqueue_deduplicates_on_info_hash() {
    let mut disk = Disk::default();
    let mut sink = FileResumeSink::new(b"/state".to_vec());
    let mut s1 = sample_snap();
    s1.have[0] = false;
    sink.enqueue(s1).unwrap();
    let s2 = sample_snap(); // has have[0] = true
    let hash = s2.info_hash;
    sink.enqueue(s2).unwrap();
    assert_eq!(disk.apply(&mut sink.flush_now(), 0), 1);
    let got = decode_snapshot(disk.files.get(&sink.sidecar_path(&hash)).unwrap()).unwrap();
    assert!(got.have[0], "latest snapshot wins");
}

#[test]
fn decode_rejects_unsupported_version() {
    // Hand-craft a sidecar with version = 999.
    let mut dict = Dict::new();
    dict.insert(
        Cow::Borrowed(&b"bitfield"[..]),
        Value::Bytes(Cow::Owned(vec![0u8; 2])),
    );
    dict.insert(
        Cow::Borrowed(&b"info_hash"[..]),
        Value::Bytes(Cow::Owned(vec![0u8; 20])),
    );
    dict.insert(Cow::Borrowed(&b"piece_count"[..]), Value::Int(10));
    dict.insert(Cow::Borrowed(&b"piece_length"[..]), Value::Int(16_384));
    dict.insert(Cow::Borrowed(&b"total_length"[..]), Value::Int(163_840));
    dict.insert(Cow::Borrowed(&b"version"[..]), Value::Int(999));
    let bytes = encode(&Value::Dict(dict));
    let err = decode_snapshot(&bytes).unwrap_err();
    assert!(matches!(err, ResumeSinkError::UnsupportedVersion(999)));
}

#[test]
fn decode_rejects_missing_fields() {
    let bytes = b"de"; // empty dict
    let err = decode_snapshot(bytes).unwrap_err();
    assert!(matches!(err, ResumeSinkError::InvalidSchema(_)));
}

#[test]
fn decode_rejects_non_dict_root() {
    let bytes = b"i42e";
    let err = decode_snapshot(bytes).unwrap_err();
    assert!(matches!(err, ResumeSinkError::InvalidSchema(_)));
}

#[test]
fn decode_rejects_wrong_info_hash_length() {
    let mut dict = Dict::new();
    dict.insert(
        Cow::Borrowed(&b"bitfield"[..]),
        Value::Bytes(Cow::Owned(vec![0u8; 2])),
    );
    dict.insert(
        Cow::Borrowed(&b"info_hash"[..]),
        Value::Bytes(Cow::Owned(vec![0u8; 19])), // wrong
    );
    dict.insert(Cow::Borrowed(&b"piece_count"[..]), Value::Int(10));
    dict.insert(Cow::Borrowed(&b"piece_length"[..]), Value::Int(16_384));
    dict.insert(Cow::Borrowed(&b"total_length"[..]), Value::Int(163_840));
    dict.insert(Cow::Borrowed(&b"version"[..]), Value::Int(1));
    let bytes = encode(&Value::Dict(dict));
    let err = decode_snapshot(&bytes).unwrap_err();
    assert!(matches!(err, ResumeSinkError::InvalidSchema(_)));
}

#[test]
fn resume_flush_graceful_is_bounded() {
    let mut disk = Disk::default();
    let mut sink = FileResumeSink::new(b"/state".to_vec());
    sink.enqueue(sample_snap()).unwrap();
    disk.apply(&mut sink.flush_graceful(0, 1_000_000_000), 1_000_000_000);
    // After graceful flush, the sidecar must exist.
    assert!(disk.files.contains_key(&sink.sidecar_path(&sample_snap().info_hash)));
    // Past the deadline nothing is begun.
    sink.enqueue(sample_snap()).unwrap();
    assert!(sink.flush_graceful(0, 1_000_000_000).next(1_000_000_001).is_none());
}

#[test]
fn decode_rejects_piece_count_over_max() {
    let mut dict = Dict::new();
    dict.insert(
        Cow::Borrowed(&b"bitfield"[..]),
        Value::Bytes(Cow::Owned(vec![0u8; 2])),
    );
    dict.insert(
        Cow::Borrowed(&b"info_hash"[..]),
        Value::Bytes(Cow::Owned(vec![0u8; 20])),
    );
    // One more than MAX_PIECE_COUNT — must be rejected before
    // `unpack_bitfield` tries to allocate the resulting vec.
    let over = i64::from(MAX_PIECE_COUNT + 1);
    dict.insert(Cow::Borrowed(&b"piece_count"[..]), Value::Int(over));
    dict.insert(Cow::Borrowed(&b"piece_length"[..]), Value::Int(16_384));
    dict.insert(Cow::Borrowed(&b"total_length"[..]), Value::Int(163_840));
    dict.insert(Cow::Borrowed(&b"version"[..]), Value::Int(1));
    let bytes = encode(&Value::Dict(dict));
    let err = decode_snapshot(&bytes).unwrap_err();
    let msg = match err {
        ResumeSinkError::InvalidSchema(m) => m,
        other => panic!("expected InvalidSchema, got {other:?}"),
    };
    assert!(msg.contains("MAX_PIECE_COUNT"), "msg={msg}");
}

#[test]
fn load_rejects_oversize_sidecar_file() {
    // A 10 MiB file: over the 8 MiB cap.
    let err = check_sidecar_size(10 * 1024 * 1024).unwrap_err();
    let msg = match err {
        ResumeSinkError::InvalidSchema(m) => m,
        other => panic!("expected InvalidSchema, got {other:?}"),
    };
    assert!(msg.contains("MAX_SIDECAR_BYTES"), "msg={msg}");
    assert!(check_sidecar_size(8 * 1024 * 1024).is_ok());
}

#[test]
fn atomic_write_preserves_prior_on_failure() {
    let mut disk = Disk::default();
    let mut sink = FileResumeSink::new(b"/state".to_vec());
    let mut s1 = sample_snap();
    s1.have = vec![true; 10];
    sink.enqueue(s1).unwrap();
    disk.apply(&mut sink.flush_now(), 0);
    let mut s2 = sample_snap();
    s2.have = vec![false; 10];
    let hash = s2.info_hash;
    sink.enqueue(s2).unwrap();
    disk.apply(&mut sink.flush_now(), 0);
    let path = sink.sidecar_path(&hash);
    let got = decode_snapshot(disk.files.get(&path).unwrap()).unwrap();
    assert_eq!(got.have, vec![false; 10]);
    // No lingering `.resume.tmp` file.
    let mut tmp = path.clone();
    tmp.extend_from_slice(b".tmp");
    assert!(!disk.files.contains_key(&tmp));
    assert_eq!(disk.files.len(), 1);
}

#[test]
fn sidecar_text() {
    let snap = ResumeSnapshot {
        info_hash: *b"aaaaaaaaaaaaaaaaaaaa",
        have: vec![false, true],
        piece_count: 2,
        piece_length: 16384,
        total_length: 20000,
    };
    let mut expected = b"d8:bitfield1:".to_vec();
    expected.push(0x40);
    expected.extend_from_slice(
        b"9:info_hash20:aaaaaaaaaaaaaaaaaaaa11:piece_counti2e12:piece_lengthi16384e\
          12:total_lengthi20000e7:versioni1ee",
    );
    assert_eq!(encode_snapshot(&snap), expected);
    assert_eq!(decode_snapshot(&expected).unwrap(), snap);
}

#[test]
fn not_bencode_is_an_invalid_schema() {
    let err = decode_snapshot(b"d").unwrap_err();
    assert!(matches!(err, ResumeSinkError::InvalidSchema(_)), "{err:?}");
}
