//! The bencode decoder and encoder.
use magpie_bt::bencode::fields::{bytes_field, int_field};
use magpie_bt::bencode::{
    decode, decode_prefix, decode_with, dict_value_span, encode, encode_into, skip_value,
    skip_value_with, DecodeErrorKind, DecodeOptions, Dict, Value, DEFAULT_MAX_DEPTH,
};
use std::borrow::Cow;

#[test]
fn int_zero() {
    assert_eq!(decode(b"i0e").unwrap(), Value::Int(0));
}

#[test]
fn int_negative() {
    assert_eq!(decode(b"i-42e").unwrap(), Value::Int(-42));
}

#[test]
fn int_rejects_leading_zero() {
    assert!(matches!(
        decode(b"i07e").unwrap_err().kind,
        DecodeErrorKind::InvalidInteger
    ));
}

#[test]
fn int_rejects_negative_zero() {
    assert!(matches!(
        decode(b"i-0e").unwrap_err().kind,
        DecodeErrorKind::InvalidInteger
    ));
}

#[test]
fn int_rejects_overflow() {
    assert!(matches!(
        decode(b"i99999999999999999999e").unwrap_err().kind,
        DecodeErrorKind::IntegerOverflow
    ));
}

#[test]
fn bytes_basic() {
    let v = decode(b"4:spam").unwrap();
    assert_eq!(v.as_bytes(), Some(&b"spam"[..]));
}

#[test]
fn bytes_empty() {
    let v = decode(b"0:").unwrap();
    assert_eq!(v.as_bytes(), Some(&b""[..]));
}

#[test]
fn bytes_rejects_length_leading_zero() {
    assert!(matches!(
        decode(b"04:spam").unwrap_err().kind,
        DecodeErrorKind::InvalidLength
    ));
}

#[test]
fn bytes_rejects_length_exceeds_input() {
    assert!(matches!(
        decode(b"10:spam").unwrap_err().kind,
        DecodeErrorKind::LengthExceedsInput
    ));
}

#[test]
fn list_of_mixed() {
    let v = decode(b"l4:spami42ee").unwrap();
    let list = v.as_list().unwrap();
    assert_eq!(list.len(), 2);
    assert_eq!(list[0].as_bytes(), Some(&b"spam"[..]));
    assert_eq!(list[1].as_int(), Some(42));
}

#[test]
fn dict_sorted_ok() {
    let v = decode(b"d3:cow3:moo4:spam4:eggse").unwrap();
    let dict = v.as_dict().unwrap();
    assert_eq!(dict.len(), 2);
}

#[test]
fn dict_rejects_unsorted() {
    let err = decode(b"d4:spam4:eggs3:cow3:mooe").unwrap_err();
    assert_eq!(err.kind, DecodeErrorKind::UnsortedDictKeys);
}

#[test]
fn dict_rejects_duplicate() {
    let err = decode(b"d3:cow3:moo3:cow3:mooe").unwrap_err();
    assert_eq!(err.kind, DecodeErrorKind::DuplicateDictKey);
}

#[test]
fn trailing_data_rejected() {
    let err = decode(b"i1eextra").unwrap_err();
    assert_eq!(err.kind, DecodeErrorKind::TrailingData);
}

#[test]
fn decode_prefix_returns_remainder() {
    let (v, rest) = decode_prefix(b"i1eextra").unwrap();
    assert_eq!(v.as_int(), Some(1));
    assert_eq!(rest, b"extra");
}

#[test]
fn depth_exceeded() {
    // Deeply nested list `lllll...ee...e` with depth beyond the cap.
    let mut buf = vec![b'l'; usize::try_from(DEFAULT_MAX_DEPTH).unwrap() + 2];
    buf.extend(std::iter::repeat_n(
        b'e',
        usize::try_from(DEFAULT_MAX_DEPTH).unwrap() + 2,
    ));
    let err = decode(&buf).unwrap_err();
    assert!(matches!(err.kind, DecodeErrorKind::DepthExceeded { .. }));
}

#[test]
fn empty_input() {
    let err = decode(b"").unwrap_err();
    assert_eq!(err.kind, DecodeErrorKind::UnexpectedEof);
}

#[test]
fn int_rejects_minus_alone() {
    assert!(matches!(
        decode(b"i-e").unwrap_err().kind,
        DecodeErrorKind::InvalidInteger
    ));
}

#[test]
fn int_rejects_double_minus() {
    assert!(matches!(
        decode(b"i--1e").unwrap_err().kind,
        DecodeErrorKind::InvalidInteger
    ));
}

#[test]
fn int_rejects_empty() {
    assert!(matches!(
        decode(b"ie").unwrap_err().kind,
        DecodeErrorKind::InvalidInteger
    ));
}

#[test]
fn skip_value_reports_span() {
    let input = b"d3:cow3:moo4:spami42eel1:ai2ee";
    let span = skip_value(input).unwrap();
    // Dict occupies the first 22 bytes; trailing `l1:ai2ee` is ignored.
    assert_eq!(span, 0..22);
    // Byte-identity: the span's bytes decode back to the same tree.
    let slice = &input[span];
    let v = decode(slice).unwrap();
    assert!(v.as_dict().is_some());
}

#[test]
fn skip_value_handles_nested() {
    let input = b"ld3:cow3:mooeli1ei2eee";
    let span = skip_value(input).unwrap();
    assert_eq!(span, 0..input.len());
}

#[test]
fn skip_value_rejects_malformed() {
    assert!(skip_value(b"l3:abc").is_err());
    assert!(matches!(
        skip_value(b"d2:aa3:foo2:aa3:bare").unwrap_err().kind,
        DecodeErrorKind::DuplicateDictKey
    ));
}

#[test]
fn dict_value_span_finds_info() {
    let input = b"d8:announce3:foo4:infod4:name5:helloee";
    let span = dict_value_span(input, b"info").unwrap().unwrap();
    assert_eq!(&input[span], b"d4:name5:helloe");
}

#[test]
fn dict_value_span_absent_key() {
    let input = b"d3:cow3:mooe";
    assert!(dict_value_span(input, b"info").unwrap().is_none());
}

#[test]
fn dict_value_span_rejects_non_dict() {
    assert!(dict_value_span(b"i1e", b"k").is_err());
}

#[test]
fn decoded_bytes_borrow_input() {
    let input = b"4:spam".to_vec();
    let v = decode(&input).unwrap();
    let b = v.as_bytes().unwrap();
    // Confirms zero-copy: the byte slice lies inside the original buffer.
    let base = input.as_ptr() as usize;
    let slice = b.as_ptr() as usize;
    assert!(slice >= base && slice + b.len() <= base + input.len());
}

#[test]
fn encodes_int() {
    assert_eq!(encode(&Value::Int(0)), b"i0e");
    assert_eq!(encode(&Value::Int(-42)), b"i-42e");
    assert_eq!(
        encode(&Value::Int(i64::MAX)),
        format!("i{}e", i64::MAX).as_bytes()
    );
}

#[test]
fn encodes_bytes() {
    let v = Value::Bytes(Cow::Borrowed(b"spam"));
    assert_eq!(encode(&v), b"4:spam");
}

#[test]
fn encodes_dict_in_sorted_order() {
    let mut m = Dict::new();
    // Insert out of order.
    m.insert(
        Cow::Borrowed(b"spam".as_slice()),
        Value::Bytes(Cow::Borrowed(b"eggs")),
    );
    m.insert(
        Cow::Borrowed(b"cow".as_slice()),
        Value::Bytes(Cow::Borrowed(b"moo")),
    );
    let encoded = encode(&Value::Dict(m));
    assert_eq!(encoded, b"d3:cow3:moo4:spam4:eggse");
}

#[test]
fn roundtrip_simple() {
    let input: &[u8] = b"d5:itemsli1ei2ei3ee4:rooti7ee";
    let v = decode(input).unwrap();
    assert_eq!(encode(&v), input);
}

fn bytes(b: &[u8]) -> Value<'static> {
    Value::Bytes(Cow::Owned(b.to_vec()))
}

/// Trees of every shape.
fn samples() -> Vec<Value<'static>> {
    let mut inner = Dict::new();
    inner.insert(Cow::Owned(b"b".to_vec()), Value::Int(-1));
    inner.insert(Cow::Owned(b"a".to_vec()), bytes(b"\x00\xff"));
    let mut outer = Dict::new();
    outer.insert(Cow::Owned(b"".to_vec()), Value::List(vec![]));
    outer.insert(Cow::Owned(b"z".to_vec()), Value::Dict(inner));
    outer.insert(Cow::Owned(b"m".to_vec()), Value::List(vec![Value::Int(0), bytes(b"x")]));
    vec![
        Value::Int(i64::MIN),
        Value::Int(i64::MAX),
        Value::Int(10),
        bytes(b""),
        bytes(b"hello world"),
        Value::List(vec![]),
        Value::List(vec![Value::List(vec![Value::Int(7)]), bytes(b"q")]),
        Value::Dict(Dict::new()),
        Value::Dict(outer),
    ]
}

fn count_nodes(v: &Value) -> u32 {
    match v {
        Value::List(items) => 1 + items.iter().map(count_nodes).sum::<u32>(),
        Value::Dict(d) => {
            let mut n = 1;
            let mut i = 0;
            while let Some((_, value)) = d.entry(i) {
                n += count_nodes(value);
                i += 1;
            }
            n
        }
        _ => 1,
    }
}

#[test]
fn encode_decode_roundtrip() {
    for v in samples() {
        let encoded = encode(&v);
        let back = decode(&encoded).expect("encoded bytes must decode");
        assert_eq!(back.into_owned(), v);
    }
}

#[test]
fn decode_encode_byte_identical_on_canonical() {
    for v in samples() {
        let encoded = encode(&v);
        let decoded = decode(&encoded).expect("encoded bytes must decode");
        assert_eq!(encode(&decoded), encoded);
    }
}

#[test]
fn decoder_never_panics_on_arbitrary_bytes() {
    let alphabet = b"ide l0123456789:-\xff";
    let mut state: u32 = 12345;
    for _ in 0..2000 {
        let mut raw = Vec::new();
        for _ in 0..24 {
            state = state.wrapping_mul(1_664_525).wrapping_add(1_013_904_223);
            raw.push(alphabet[(state >> 16) as usize % alphabet.len()]);
        }
        if let Ok(v) = decode(&raw) {
            assert_eq!(encode(&v), raw);
        }
    }
}

#[test]
fn node_budget_is_exact() {
    for v in samples() {
        let encoded = encode(&v);
        let n = count_nodes(&v);
        let mut at_budget = DecodeOptions::default();
        at_budget.max_nodes = n;
        assert!(decode_with(&encoded, at_budget).is_ok());
        let mut under_budget = DecodeOptions::default();
        under_budget.max_nodes = n - 1;
        let err = decode_with(&encoded, under_budget).unwrap_err();
        assert_eq!(err.kind, DecodeErrorKind::NodeLimitExceeded { max: n - 1 });
    }
}

#[test]
fn depth_limit_counts_from_the_root() {
    let mut opts = DecodeOptions::default();
    opts.max_depth = 1;
    assert!(decode_with(b"lli1eee", opts).is_err());
    assert!(decode_with(b"li1ee", opts).is_ok());
    let err = skip_value_with(b"lli1eee", opts).unwrap_err();
    assert_eq!(err.kind, DecodeErrorKind::DepthExceeded { max: 1 });
    assert_eq!(err.offset, 2);
    assert_eq!(skip_value_with(b"li1eexx", opts).unwrap(), 0..5);
}

#[test]
fn every_error_kind_has_an_input() {
    let cases: Vec<(&[u8], DecodeErrorKind)> = vec![
        (b"l", DecodeErrorKind::UnexpectedEof),
        (b"x", DecodeErrorKind::UnexpectedByte { byte: b'x' }),
        (b"d1:ai1e1:ai2ee", DecodeErrorKind::DuplicateDictKey),
        (b"d1:bi1e1:ai2ee", DecodeErrorKind::UnsortedDictKeys),
        (b"5:ab", DecodeErrorKind::LengthExceedsInput),
        (b"1x", DecodeErrorKind::InvalidLength),
        (b"i1ei2e", DecodeErrorKind::TrailingData),
    ];
    for (input, kind) in cases {
        assert_eq!(decode(input).unwrap_err().kind, kind);
    }
    assert_eq!(
        decode(b"99999999999999999999:a").unwrap_err().kind,
        DecodeErrorKind::LengthOverflow
    );
    assert_eq!(
        decode(b"i-9223372036854775809e").unwrap_err().kind,
        DecodeErrorKind::IntegerOverflow
    );
    assert_eq!(
        decode(b"i-9223372036854775808e").unwrap(),
        Value::Int(i64::MIN)
    );
}

#[test]
fn error_texts() {
    let err = decode(b"i1e?").unwrap_err();
    assert_eq!(err.offset, 3);
    assert_eq!(err.kind.message(), "trailing data after root value");
    let err = decode(b"\xab").unwrap_err();
    assert_eq!(err.kind.message(), "unexpected byte 0xab");
    assert_eq!(err.kind.debug_text(), "UnexpectedByte { byte: 171 }");
    assert_eq!(err.kind.debug_text(), format!("{:?}", err.kind));
    assert_eq!(err.debug_text(), format!("{err:?}"));
    let mut opts = DecodeOptions::default();
    opts.max_nodes = 1;
    let err = decode_with(b"li1ee", opts).unwrap_err();
    assert_eq!(err.kind.message(), "value count exceeded maximum of 1");
    assert_eq!(err.kind.debug_text(), format!("{:?}", err.kind));
}

#[test]
fn a_value_reads_the_same_whatever_follows() {
    let (v, rest) = decode_prefix(b"d1:ai1eezzz").unwrap();
    assert_eq!(v, decode(b"d1:ai1ee").unwrap());
    assert_eq!(rest, b"zzz");
}

#[test]
fn accessors_tell_the_kinds_apart() {
    let v = decode(b"d1:ai1e1:b2:hie").unwrap();
    assert_eq!(v.get(b"a").unwrap().as_int(), Some(1));
    assert_eq!(v.get(b"b").unwrap().as_borrowed_bytes(), Some(&b"hi"[..]));
    assert!(v.get(b"c").is_none());
    assert!(v.as_int().is_none());
    assert!(v.as_bytes().is_none());
    assert!(v.as_list().is_none());
    let d = v.as_dict().unwrap();
    assert!(!d.is_empty());
    assert_eq!(int_field(d, "a"), Some(1));
    assert_eq!(int_field(d, "b"), None);
    assert_eq!(bytes_field(d, "b"), Some(&b"hi"[..]));
    assert_eq!(bytes_field(d, "a"), None);
    assert_eq!(v.clone(), v);
    assert!(Value::Int(3).get(b"a").is_none());
    assert!(bytes(b"owned").as_borrowed_bytes().is_none());
}

#[test]
fn inserting_a_key_again_replaces_its_value() {
    let mut d = Dict::new();
    assert!(d.insert(Cow::Borrowed(&b"k"[..]), Value::Int(1)).is_none());
    assert_eq!(
        d.insert(Cow::Borrowed(&b"k"[..]), Value::Int(2)),
        Some(Value::Int(1))
    );
    assert_eq!(d.len(), 1);
    assert_eq!(d.get(b"k"), Some(&Value::Int(2)));
}

#[test]
fn encode_into_appends() {
    let mut out = b"x".to_vec();
    encode_into(&Value::Int(5), &mut out);
    assert_eq!(out, b"xi5e");
}
