use eve_settings::decode::decode;
use eve_settings::encode::encode;
use eve_settings::error::{DecodeError, EncodeError, EncodeErrorKind, ErrorKind};
use eve_settings::reader::Reader;
use eve_settings::reshare::{clone_value, reshare, try_inline};
use eve_settings::value::Value;

// header: magic 0x7E + u32 shared-count 0
fn stream(body: &[u8]) -> Vec<u8> {
    let mut v = vec![0x7E, 0, 0, 0, 0];
    v.extend_from_slice(body);
    v
}

fn f(x: f64) -> Value {
    Value::Float(x.to_bits())
}

// ----- reader -----

#[test]
fn reads_scalars_little_endian() {
    let data = [0x2A, 0x01, 0x02, 0xEF, 0xBE, 0xAD, 0xDE];
    let mut r = Reader::new(&data);
    assert_eq!(r.read_u8().unwrap(), 0x2A);
    assert_eq!(r.read_u16().unwrap(), 0x0201);
    assert_eq!(r.read_u32().unwrap(), 0xDEADBEEF);
    assert_eq!(r.pos(), 7);
    assert_eq!(r.remaining(), 0);
}

#[test]
fn read_len_single_byte_and_extended() {
    let mut r = Reader::new(&[0x0A]);
    assert_eq!(r.read_len().unwrap(), 10);
    let mut r = Reader::new(&[0xFF, 0x76, 0x02, 0x00, 0x00]);
    assert_eq!(r.read_len().unwrap(), 0x0276);
}

#[test]
fn eof_error_carries_offset() {
    let mut r = Reader::new(&[0x01]);
    r.read_u8().unwrap();
    let err = r.read_u32().unwrap_err();
    assert_eq!(err.offset, 1);
    assert_eq!(err.kind, ErrorKind::UnexpectedEof);
}

#[test]
fn read_bytes_slices_without_copy() {
    let data = [1, 2, 3, 4];
    let mut r = Reader::new(&data);
    assert_eq!(r.read_bytes(3).unwrap(), &[1, 2, 3]);
    assert!(r.read_bytes(2).is_err());
}

#[test]
fn reader_reads_signed_and_wide_values() {
    let data = [0xFE, 0xFF, 0xFF, 0xFF, 0xFF, 0xFF, 0xFF, 0xFF, 0x01];
    let mut r = Reader::new(&data);
    assert_eq!(r.read_i64().unwrap(), -2);
    assert_eq!(r.pos(), 8);
    assert_eq!(r.remaining(), 1);
    let err = r.read_bytes(2).unwrap_err();
    assert_eq!(err.offset, 8);
}

// ----- decode -----

#[test]
fn rejects_bad_magic() {
    let err = decode(&[0x00, 0, 0, 0, 0, 0x01]).unwrap_err();
    assert_eq!(err.kind, ErrorKind::BadMagic(0x00));
}

#[test]
fn decodes_scalar_opcodes() {
    assert_eq!(decode(&stream(&[0x01])).unwrap(), Value::Nil);
    assert_eq!(decode(&stream(&[0x1F])).unwrap(), Value::Bool(true));
    assert_eq!(decode(&stream(&[0x20])).unwrap(), Value::Bool(false));
    assert_eq!(decode(&stream(&[0x07])).unwrap(), Value::Int(-1));
    assert_eq!(decode(&stream(&[0x08])).unwrap(), Value::Int(0));
    assert_eq!(decode(&stream(&[0x09])).unwrap(), Value::Int(1));
    assert_eq!(decode(&stream(&[0x06, 0x2A])).unwrap(), Value::Int(42));
    assert_eq!(decode(&stream(&[0x05, 0x34, 0x12])).unwrap(), Value::Int(0x1234));
    assert_eq!(
        decode(&stream(&[0x04, 0x78, 0x56, 0x34, 0x12])).unwrap(),
        Value::Int(0x12345678)
    );
    assert_eq!(decode(&stream(&[0x0A, 0, 0, 0, 0, 0, 0, 0x04, 0x40])).unwrap(), f(2.5));
    assert_eq!(decode(&stream(&[0x0B])).unwrap(), f(0.0));
}

#[test]
fn decodes_buffer_and_short_strings() {
    assert_eq!(
        decode(&stream(&[0x13, 0x03, b'f', b'o', b'o'])).unwrap(),
        Value::Bytes(b"foo".to_vec())
    );
    assert_eq!(decode(&stream(&[0x0E])).unwrap(), Value::Bytes(vec![]));
    assert_eq!(decode(&stream(&[0x0F, b'x'])).unwrap(), Value::Bytes(b"x".to_vec()));
}

#[test]
fn decodes_containers_dict_wire_order_value_then_key() {
    assert_eq!(
        decode(&stream(&[0x2C, 0x08, 0x09])).unwrap(),
        Value::Tuple(vec![Value::Int(0), Value::Int(1)])
    );
    assert_eq!(decode(&stream(&[0x24])).unwrap(), Value::Tuple(vec![]));
    assert_eq!(decode(&stream(&[0x25, 0x01])).unwrap(), Value::Tuple(vec![Value::Nil]));
    assert_eq!(decode(&stream(&[0x26])).unwrap(), Value::List(vec![]));
    assert_eq!(decode(&stream(&[0x27, 0x09])).unwrap(), Value::List(vec![Value::Int(1)]));
    let d = decode(&stream(&[0x16, 0x01, 0x08, 0x13, 0x03, b'f', b'o', b'o'])).unwrap();
    assert_eq!(d, Value::Dict(vec![(Value::Bytes(b"foo".to_vec()), Value::Int(0))]));
}

#[test]
fn unknown_opcode_reports_offset() {
    let err = decode(&stream(&[0x3D])).unwrap_err();
    assert_eq!(err.kind, ErrorKind::UnknownOpcode(0x3D));
    assert_eq!(err.offset, 5);
}

#[test]
fn shared_buffer_stored_then_ref() {
    let data = [
        0x7E, 0x01, 0x00, 0x00, 0x00, 0x2C, 0x53, 0x02, b'h', b'i', 0x1B, 0x01, 0x01, 0x00, 0x00,
        0x00,
    ];
    assert_eq!(
        decode(&data).unwrap(),
        Value::Tuple(vec![
            Value::Shared { slot: 1, value: Box::new(Value::Bytes(b"hi".to_vec())) },
            Value::Ref(1),
        ])
    );
}

#[test]
fn shared_dict_stored_then_ref() {
    let data = [
        0x7E, 0x01, 0x00, 0x00, 0x00, 0x2C, 0x56, 0x01, 0x09, 0x13, 0x01, b'k', 0x1B, 0x01, 0x01,
        0x00, 0x00, 0x00,
    ];
    let dict = Value::Dict(vec![(Value::Bytes(b"k".to_vec()), Value::Int(1))]);
    assert_eq!(
        decode(&data).unwrap(),
        Value::Tuple(vec![Value::Shared { slot: 1, value: Box::new(dict) }, Value::Ref(1)])
    );
}

#[test]
fn ref_to_unpopulated_slot_is_bad_ref() {
    let data = [0x7E, 0x01, 0x00, 0x00, 0x00, 0x1B, 0x01, 0x01, 0x00, 0x00, 0x00];
    let err = decode(&data).unwrap_err();
    assert_eq!(err.kind, ErrorKind::BadRef(1));
}

#[test]
fn shared_slots_assigned_in_encounter_order_not_completion_order() {
    let data = [
        0x7E, 0x02, 0x00, 0x00, 0x00, 0x14, 0x03, 0x65, 0x6F, 0x01, 0x2A, 0x1B, 0x01, 0x1B, 0x02,
        0x02, 0x00, 0x00, 0x00, 0x01, 0x00, 0x00, 0x00,
    ];
    let long = Value::Shared { slot: 1, value: Box::new(Value::Long(vec![0x2A])) };
    let inner = Value::Shared { slot: 2, value: Box::new(Value::Tuple(vec![long])) };
    assert_eq!(decode(&data).unwrap(), Value::Tuple(vec![inner, Value::Ref(1), Value::Ref(2)]));
}

#[test]
fn deep_nesting_errors_instead_of_overflowing_stack() {
    let err = decode(&stream(&[0x25; 100_000])).unwrap_err();
    assert_eq!(err.kind, ErrorKind::Unsupported("object hierarchy too deep"));
}

#[test]
fn decodes_global_dotted_name() {
    let mut body = vec![0x02, 15];
    body.extend_from_slice(b"__builtin__.set");
    assert_eq!(decode(&stream(&body)).unwrap(), Value::Global(b"__builtin__.set".to_vec()));
}

#[test]
fn decodes_instance_class_then_state() {
    let data = [0x17, 0x13, 0x05, b'M', b'.', b'C', b'l', b's', 0x09];
    assert_eq!(
        decode(&stream(&data)).unwrap(),
        Value::Instance {
            class: Box::new(Value::Bytes(b"M.Cls".to_vec())),
            state: Box::new(Value::Int(1)),
        }
    );
}

#[test]
fn decodes_reduce_ctor_then_double_mark_tail() {
    let mut data = vec![0x22, 0x2C];
    data.push(0x02);
    data.push(3);
    data.extend_from_slice(b"M.f");
    data.push(0x25);
    data.push(0x26);
    data.push(0x2D);
    data.push(0x2D);
    let ctor = Value::Tuple(vec![
        Value::Global(b"M.f".to_vec()),
        Value::Tuple(vec![Value::List(vec![])]),
    ]);
    assert_eq!(
        decode(&stream(&data)).unwrap(),
        Value::Reduce { ctor: Box::new(ctor), items: vec![], pairs: vec![] }
    );
}

#[test]
fn decodes_reduce_with_nonempty_iterator_tail() {
    let mut data = vec![0x22, 0x2C];
    data.push(0x02);
    data.push(3);
    data.extend_from_slice(b"M.f");
    data.push(0x24);
    data.push(0x09);
    data.push(0x2D);
    data.push(0x08);
    data.push(0x09);
    data.push(0x2D);
    let ctor = Value::Tuple(vec![Value::Global(b"M.f".to_vec()), Value::Tuple(vec![])]);
    assert_eq!(
        decode(&stream(&data)).unwrap(),
        Value::Reduce {
            ctor: Box::new(ctor),
            items: vec![Value::Int(1)],
            pairs: vec![(Value::Int(0), Value::Int(1))],
        }
    );
}

#[test]
fn string_0x10_reads_bare_count_no_ff_escape() {
    assert_eq!(
        decode(&stream(&[0x10, 0x03, b'b', b'a', b'r'])).unwrap(),
        Value::Bytes(b"bar".to_vec())
    );
    let mut body = vec![0x10, 0xFF];
    body.extend_from_slice(&[b'z'; 255]);
    assert_eq!(decode(&stream(&body)).unwrap(), Value::Bytes(vec![b'z'; 255]));
}

#[test]
fn shared_global_stored_then_ref() {
    let mut data = vec![0x7E, 0x01, 0x00, 0x00, 0x00, 0x2C, 0x42, 15];
    data.extend_from_slice(b"__builtin__.set");
    data.extend_from_slice(&[0x1B, 0x01]);
    data.extend_from_slice(&[0x01, 0x00, 0x00, 0x00]);
    let g = Value::Shared { slot: 1, value: Box::new(Value::Global(b"__builtin__.set".to_vec())) };
    assert_eq!(decode(&data).unwrap(), Value::Tuple(vec![g, Value::Ref(1)]));
}

#[test]
fn shared_instance_stored_then_ref() {
    let data = [
        0x7E, 0x01, 0x00, 0x00, 0x00, 0x2C, 0x57, 0x13, 0x05, b'M', b'.', b'C', b'l', b's', 0x09,
        0x1B, 0x01, 0x01, 0x00, 0x00, 0x00,
    ];
    let inst = Value::Shared {
        slot: 1,
        value: Box::new(Value::Instance {
            class: Box::new(Value::Bytes(b"M.Cls".to_vec())),
            state: Box::new(Value::Int(1)),
        }),
    };
    assert_eq!(decode(&data).unwrap(), Value::Tuple(vec![inst, Value::Ref(1)]));
}

#[test]
fn shared_reduce_stored_then_ref() {
    let data = [
        0x7E, 0x01, 0x00, 0x00, 0x00, 0x2C, 0x62, 0x2C, 0x02, 3, b'M', b'.', b'f', 0x24, 0x2D,
        0x2D, 0x1B, 0x01, 0x01, 0x00, 0x00, 0x00,
    ];
    let ctor = Value::Tuple(vec![Value::Global(b"M.f".to_vec()), Value::Tuple(vec![])]);
    let red = Value::Shared {
        slot: 1,
        value: Box::new(Value::Reduce { ctor: Box::new(ctor), items: vec![], pairs: vec![] }),
    };
    assert_eq!(decode(&data).unwrap(), Value::Tuple(vec![red, Value::Ref(1)]));
}

#[test]
fn decodes_text_variants_distinctly() {
    assert_eq!(decode(&stream(&[0x2E, 0x03, b'a', b'b', b'c'])).unwrap(), Value::Str("abc".into()));
    assert_eq!(decode(&stream(&[0x28])).unwrap(), Value::StrUcs2(String::new()));
    assert_eq!(decode(&stream(&[0x29, b'x', 0x00])).unwrap(), Value::StrUcs2("x".into()));
    assert_eq!(
        decode(&stream(&[0x12, 0x02, b'h', 0x00, b'i', 0x00])).unwrap(),
        Value::StrUcs2("hi".into())
    );
    assert_eq!(decode(&stream(&[0x11, 0x07])).unwrap(), Value::StrTable(7));
    assert_ne!(decode(&stream(&[0x2E, 0x00])).unwrap(), decode(&stream(&[0x28])).unwrap());
}

#[test]
fn trailing_bytes_after_root_are_a_hard_error() {
    let err = decode(&stream(&[0x09, 0x01])).unwrap_err();
    assert_eq!(err.kind, ErrorKind::TrailingBytes(1));
    assert_eq!(err.offset, 6);
}

#[test]
fn unconsumed_shared_map_is_a_hard_error() {
    let data = [0x7E, 0x01, 0x00, 0x00, 0x00, 0x09, 0x01, 0x00, 0x00, 0x00];
    let err = decode(&data).unwrap_err();
    assert_eq!(err.kind, ErrorKind::UnconsumedSharedMap { declared: 1, stored: 0 });
}

#[test]
fn decode_rejects_unpaired_surrogates_and_bad_utf8() {
    // A lone high surrogate in UNICODE1.
    let err = decode(&stream(&[0x29, 0x00, 0xD8])).unwrap_err();
    assert_eq!(err.kind, ErrorKind::BadUtf8);
    // 0xFF is never valid UTF-8.
    let err = decode(&stream(&[0x2E, 0x01, 0xFF])).unwrap_err();
    assert_eq!(err.kind, ErrorKind::BadUtf8);
    // A surrogate pair decodes to one character.
    assert_eq!(
        decode(&stream(&[0x12, 0x02, 0x3D, 0xD8, 0x00, 0xDE])).unwrap(),
        Value::StrUcs2("\u{1F600}".into())
    );
}

#[test]
fn decode_rejects_string_table_index_zero() {
    let err = decode(&stream(&[0x11, 0x00])).unwrap_err();
    assert_eq!(err.kind, ErrorKind::BadStringRef(0));
}

// ----- encode -----

#[test]
fn encodes_scalars_canonically() {
    assert_eq!(encode(&Value::Nil).unwrap(), stream(&[0x01]));
    assert_eq!(encode(&Value::Bool(true)).unwrap(), stream(&[0x1F]));
    assert_eq!(encode(&Value::Bool(false)).unwrap(), stream(&[0x20]));
    assert_eq!(encode(&Value::Int(-1)).unwrap(), stream(&[0x07]));
    assert_eq!(encode(&Value::Int(0)).unwrap(), stream(&[0x08]));
    assert_eq!(encode(&Value::Int(1)).unwrap(), stream(&[0x09]));
    assert_eq!(encode(&Value::Int(42)).unwrap(), stream(&[0x06, 0x2A]));
    assert_eq!(encode(&Value::Int(-2)).unwrap(), stream(&[0x06, 0xFE]));
    assert_eq!(encode(&Value::Int(127)).unwrap(), stream(&[0x06, 0x7F]));
    assert_eq!(encode(&Value::Int(128)).unwrap(), stream(&[0x05, 0x80, 0x00]));
    assert_eq!(encode(&Value::Int(0x1234)).unwrap(), stream(&[0x05, 0x34, 0x12]));
    assert_eq!(encode(&Value::Int(0x12345678)).unwrap(), stream(&[0x04, 0x78, 0x56, 0x34, 0x12]));
    assert_eq!(
        encode(&Value::Int(0x0102030405060708)).unwrap(),
        stream(&[0x03, 0x08, 0x07, 0x06, 0x05, 0x04, 0x03, 0x02, 0x01])
    );
    assert_eq!(encode(&f(2.5)).unwrap(), stream(&[0x0A, 0, 0, 0, 0, 0, 0, 0x04, 0x40]));
    assert_eq!(encode(&f(0.0)).unwrap(), stream(&[0x0B]));
    assert_eq!(encode(&f(-0.0)).unwrap(), stream(&[0x0A, 0, 0, 0, 0, 0, 0, 0, 0x80]));
    assert_eq!(encode(&Value::Long(vec![0x2A])).unwrap(), stream(&[0x2F, 0x01, 0x2A]));
}

#[test]
fn encodes_string_family_by_tag() {
    assert_eq!(encode(&Value::Bytes(vec![])).unwrap(), stream(&[0x0E]));
    assert_eq!(encode(&Value::Bytes(b"x".to_vec())).unwrap(), stream(&[0x0F, b'x']));
    assert_eq!(
        encode(&Value::Bytes(b"foo".to_vec())).unwrap(),
        stream(&[0x13, 0x03, b'f', b'o', b'o'])
    );
    assert_eq!(encode(&Value::Str("abc".into())).unwrap(), stream(&[0x2E, 0x03, b'a', b'b', b'c']));
    assert_eq!(encode(&Value::Str(String::new())).unwrap(), stream(&[0x2E, 0x00]));
    assert_eq!(encode(&Value::StrUcs2(String::new())).unwrap(), stream(&[0x28]));
    assert_eq!(encode(&Value::StrUcs2("x".into())).unwrap(), stream(&[0x29, b'x', 0x00]));
    assert_eq!(
        encode(&Value::StrUcs2("hi".into())).unwrap(),
        stream(&[0x12, 0x02, b'h', 0x00, b'i', 0x00])
    );
    assert_eq!(encode(&Value::StrTable(7)).unwrap(), stream(&[0x11, 0x07]));
    assert_eq!(encode(&Value::StrTable(0)).unwrap_err().kind, EncodeErrorKind::BadTableIndex);
}

#[test]
fn long_lengths_use_the_ff_escape_minimally() {
    let b254 = Value::Bytes(vec![b'a'; 254]);
    let e254 = encode(&b254).unwrap();
    assert_eq!(&e254[5..7], &[0x13, 254]);
    let b255 = Value::Bytes(vec![b'a'; 255]);
    let e255 = encode(&b255).unwrap();
    assert_eq!(&e255[5..11], &[0x13, 0xFF, 255, 0, 0, 0]);
    assert_eq!(decode(&e254).unwrap(), b254);
    assert_eq!(decode(&e255).unwrap(), b255);
}

#[test]
fn encodes_containers_and_dict_value_first() {
    assert_eq!(encode(&Value::Tuple(vec![])).unwrap(), stream(&[0x24]));
    assert_eq!(encode(&Value::Tuple(vec![Value::Nil])).unwrap(), stream(&[0x25, 0x01]));
    assert_eq!(
        encode(&Value::Tuple(vec![Value::Int(0), Value::Int(1)])).unwrap(),
        stream(&[0x2C, 0x08, 0x09])
    );
    assert_eq!(
        encode(&Value::Tuple(vec![Value::Nil, Value::Nil, Value::Nil])).unwrap(),
        stream(&[0x14, 0x03, 0x01, 0x01, 0x01])
    );
    assert_eq!(encode(&Value::List(vec![])).unwrap(), stream(&[0x26]));
    assert_eq!(encode(&Value::List(vec![Value::Int(1)])).unwrap(), stream(&[0x27, 0x09]));
    let d = Value::Dict(vec![(Value::Bytes(b"foo".to_vec()), Value::Int(0))]);
    assert_eq!(encode(&d).unwrap(), stream(&[0x16, 0x01, 0x08, 0x13, 0x03, b'f', b'o', b'o']));
}

#[test]
fn reencodes_shared_fixtures_byte_identically() {
    let shared_buffer: Vec<u8> = vec![
        0x7E, 0x01, 0x00, 0x00, 0x00, 0x2C, 0x53, 0x02, b'h', b'i', 0x1B, 0x01, 0x01, 0x00, 0x00,
        0x00,
    ];
    let nonidentity_map: Vec<u8> = vec![
        0x7E, 0x02, 0x00, 0x00, 0x00, 0x14, 0x03, 0x65, 0x6F, 0x01, 0x2A, 0x1B, 0x01, 0x1B, 0x02,
        0x02, 0x00, 0x00, 0x00, 0x01, 0x00, 0x00, 0x00,
    ];
    let shared_instance: Vec<u8> = vec![
        0x7E, 0x01, 0x00, 0x00, 0x00, 0x2C, 0x57, 0x13, 0x05, b'M', b'.', b'C', b'l', b's', 0x09,
        0x1B, 0x01, 0x01, 0x00, 0x00, 0x00,
    ];
    let shared_reduce: Vec<u8> = vec![
        0x7E, 0x01, 0x00, 0x00, 0x00, 0x2C, 0x62, 0x2C, 0x02, 3, b'M', b'.', b'f', 0x24, 0x2D,
        0x2D, 0x1B, 0x01, 0x01, 0x00, 0x00, 0x00,
    ];
    for data in [shared_buffer, nonidentity_map, shared_instance, shared_reduce] {
        let v = decode(&data).unwrap();
        assert_eq!(encode(&v).unwrap(), data);
    }
}

#[test]
fn nested_stream_reencodes_recursively() {
    let data = stream(&[0x2B, 0x06, 0x7E, 0x00, 0x00, 0x00, 0x00, 0x09]);
    let v = decode(&data).unwrap();
    assert_eq!(v, Value::Stream(Box::new(Value::Int(1))));
    assert_eq!(encode(&v).unwrap(), data);
}

#[test]
fn encode_rejects_invalid_sharing() {
    let bad = Value::Shared { slot: 1, value: Box::new(Value::Int(5)) };
    assert_eq!(encode(&bad).unwrap_err().kind, EncodeErrorKind::NotStorable("int"));
    let bad_t0 = Value::Shared { slot: 1, value: Box::new(Value::Tuple(vec![])) };
    assert_eq!(encode(&bad_t0).unwrap_err().kind, EncodeErrorKind::NotStorable("tuple"));
    let ok_l0 = Value::Tuple(vec![
        Value::Shared { slot: 1, value: Box::new(Value::List(vec![])) },
        Value::Ref(1),
    ]);
    assert_eq!(decode(&encode(&ok_l0).unwrap()).unwrap(), ok_l0);
    let dangling = Value::Tuple(vec![Value::Ref(1)]);
    assert_eq!(encode(&dangling).unwrap_err().kind, EncodeErrorKind::RefBeforeStore(1));
    let far = Value::Shared { slot: 3, value: Box::new(Value::List(vec![])) };
    assert_eq!(
        encode(&far).unwrap_err().kind,
        EncodeErrorKind::SlotOutOfRange { slot: 3, count: 1 }
    );
    let cyclic = Value::Shared { slot: 1, value: Box::new(Value::List(vec![Value::Ref(1)])) };
    assert_eq!(encode(&cyclic).unwrap_err().kind, EncodeErrorKind::RefBeforeStore(1));
}

#[test]
fn encode_depth_guard_matches_decode() {
    let mut v = Value::Tuple(vec![Value::Nil]);
    for _ in 0..200 {
        v = Value::Tuple(vec![v]);
    }
    assert_eq!(encode(&v).unwrap_err().kind, EncodeErrorKind::TooDeep);
}

#[test]
fn error_messages_name_offset_and_kind() {
    let err = decode(&stream(&[0x3D])).unwrap_err();
    assert_eq!(err.message(), "decode error at offset 0x5: UnknownOpcode(61)");
    let err = encode(&Value::StrTable(0)).unwrap_err();
    assert_eq!(err.message(), "encode error: BadTableIndex");
}

// ----- value -----

#[test]
fn unshared_peels_exactly_one_wrapper() {
    let inner = Value::Int(5);
    let shared = Value::Shared { slot: 1, value: Box::new(clone_value(&inner)) };
    assert_eq!(shared.unshared(), &inner);
    assert_eq!(inner.unshared(), &inner);
}

// ----- round trip -----

/// A small deterministic generator of trees (xorshift), covering every
/// variant the encoder writes without sharing.
struct Gen(u64);

impl Gen {
    fn next(&mut self) -> u64 {
        let mut x = self.0;
        x ^= x << 13;
        x ^= x >> 7;
        x ^= x << 17;
        self.0 = x;
        x
    }

    fn bytes(&mut self) -> Vec<u8> {
        let n = (self.next() % 6) as usize;
        (0..n).map(|_| self.next() as u8).collect()
    }

    fn text(&mut self) -> String {
        let n = (self.next() % 5) as usize;
        let pool = ['a', 'Z', ' ', 'é', '\u{1F600}', '0'];
        (0..n).map(|_| pool[(self.next() % pool.len() as u64) as usize]).collect()
    }

    fn value(&mut self, depth: u32) -> Value {
        let k = if depth == 0 { self.next() % 10 } else { self.next() % 15 };
        match k {
            0 => Value::Nil,
            1 => Value::Bool(self.next() % 2 == 0),
            2 => Value::Int(self.next() as i64 >> (self.next() % 64)),
            3 => Value::Float(self.next()),
            4 => Value::Long(self.bytes()),
            5 => Value::Bytes(self.bytes()),
            6 => Value::Str(self.text()),
            7 => Value::StrUcs2(self.text()),
            8 => Value::StrTable((self.next() % 255 + 1) as u8),
            9 => Value::Global(self.bytes()),
            10 => {
                let n = (self.next() % 4) as usize;
                Value::Tuple((0..n).map(|_| self.value(depth - 1)).collect())
            }
            11 => {
                let n = (self.next() % 4) as usize;
                Value::List((0..n).map(|_| self.value(depth - 1)).collect())
            }
            12 => {
                let n = (self.next() % 3) as usize;
                Value::Dict((0..n).map(|_| (self.value(depth - 1), self.value(depth - 1))).collect())
            }
            13 => Value::Instance {
                class: Box::new(self.value(depth - 1)),
                state: Box::new(self.value(depth - 1)),
            },
            _ => Value::Reduce {
                ctor: Box::new(self.value(depth - 1)),
                items: vec![self.value(depth - 1)],
                pairs: vec![(self.value(depth - 1), self.value(depth - 1))],
            },
        }
    }
}

#[test]
fn random_trees_roundtrip_through_encode_decode() {
    let mut g = Gen(0x9E37_79B9_7F4A_7C15);
    for _ in 0..500 {
        let v = g.value(4);
        let bytes = encode(&v).unwrap();
        let back = decode(&bytes).unwrap();
        assert_eq!(back, v);
        assert_eq!(encode(&back).unwrap(), bytes);
    }
}

#[test]
fn shared_trees_roundtrip_through_encode_decode() {
    let v = Value::List(vec![
        Value::Shared { slot: 2, value: Box::new(Value::Bytes(b"ab".to_vec())) },
        Value::Shared {
            slot: 1,
            value: Box::new(Value::Dict(vec![(Value::Ref(2), Value::Stream(Box::new(Value::Int(7))))])),
        },
        Value::Ref(1),
    ]);
    let bytes = encode(&v).unwrap();
    assert_eq!(decode(&bytes).unwrap(), v);
}

// ----- reshare -----

fn b(s: &str) -> Value {
    Value::Bytes(s.as_bytes().to_vec())
}

fn repeated_bytes_tree() -> Value {
    Value::Dict(vec![
        (b("openWindows"), Value::List(vec![b("overview"), b("market")])),
        (b("lockedWindows"), Value::List(vec![b("overview")])),
        (b("stacks"), Value::List(vec![b("overview")])),
    ])
}

fn count_share_nodes(v: &Value, defs: &mut usize, refs: &mut usize) {
    match v {
        Value::Shared { value, .. } => {
            *defs += 1;
            count_share_nodes(value, defs, refs);
        }
        Value::Ref(_) => *refs += 1,
        Value::Tuple(xs) | Value::List(xs) => xs.iter().for_each(|c| count_share_nodes(c, defs, refs)),
        Value::Dict(es) => es.iter().for_each(|(k, val)| {
            count_share_nodes(k, defs, refs);
            count_share_nodes(val, defs, refs);
        }),
        _ => {}
    }
}

fn is_shared_value(v: &Value, needle: &[u8]) -> bool {
    match v {
        Value::Shared { value, .. } => matches!(&**value, Value::Bytes(b) if b == needle),
        Value::Tuple(xs) | Value::List(xs) => xs.iter().any(|c| is_shared_value(c, needle)),
        Value::Dict(es) => es.iter().any(|(k, val)| is_shared_value(k, needle) || is_shared_value(val, needle)),
        _ => false,
    }
}

fn any_shared_list(v: &Value) -> bool {
    match v {
        Value::Shared { value, .. } => matches!(&**value, Value::List(_)) || any_shared_list(value),
        Value::Tuple(xs) | Value::List(xs) => xs.iter().any(any_shared_list),
        Value::Dict(es) => es.iter().any(|(k, val)| any_shared_list(k) || any_shared_list(val)),
        _ => false,
    }
}

fn inline(v: &Value) -> Value {
    eve_settings::reshare::inline(v)
}

#[test]
fn shares_repeated_immutable_and_leaves_unique_alone() {
    let out = reshare(&repeated_bytes_tree());
    let mut shared_defs = 0usize;
    let mut refs = 0usize;
    count_share_nodes(&out, &mut shared_defs, &mut refs);
    assert_eq!(shared_defs, 1, "one Shared def for the repeated byte-string");
    assert!(refs >= 2, "later occurrences become Refs, got {refs}");
    assert!(!is_shared_value(&out, b"market"));
    let bytes = encode(&out).expect("reshared tree encodes");
    assert_eq!(decode(&bytes).unwrap(), out, "reshared tree round-trips");
}

#[test]
fn preserves_semantics() {
    let t = repeated_bytes_tree();
    let r = reshare(&t);
    let rt = decode(&encode(&r).unwrap()).unwrap();
    assert_eq!(reshare(&rt), r, "encode->decode preserves the reshared value");
    assert_eq!(inline(&rt), inline(&t), "no value changed");
}

#[test]
fn never_shares_mutable_containers() {
    let list = || Value::List(vec![b("aa"), b("bb")]);
    let t = Value::Tuple(vec![list(), list()]);
    let out = reshare(&t);
    assert!(!any_shared_list(&out), "lists are never shared");
    let (mut d, mut r) = (0, 0);
    count_share_nodes(&out, &mut d, &mut r);
    assert!(d >= 1 && r >= 1, "immutable elements still share");
    assert_eq!(inline(&decode(&encode(&out).unwrap()).unwrap()), inline(&t));
}

#[test]
fn shares_repeated_immutable_tuples() {
    let g = || Value::Tuple(vec![Value::Int(16), Value::Int(714), Value::Int(450)]);
    let t = Value::List(vec![g(), g(), g()]);
    let out = reshare(&t);
    let (mut d, mut r) = (0, 0);
    count_share_nodes(&out, &mut d, &mut r);
    assert_eq!(d, 1, "one shared tuple def");
    assert_eq!(r, 2, "two refs");
    assert_eq!(decode(&encode(&out).unwrap()).unwrap(), out);
}

#[test]
fn is_idempotent_on_already_reshared_input() {
    let t = repeated_bytes_tree();
    let once = reshare(&t);
    let twice = reshare(&once);
    assert_eq!(once, twice);
}

#[test]
fn compacts_versus_inlined() {
    let t = repeated_bytes_tree();
    let inlined_len = encode(&inline(&t)).unwrap().len();
    let reshared_len = encode(&reshare(&t)).unwrap().len();
    assert!(reshared_len < inlined_len, "{reshared_len} !< {inlined_len}");
}

#[test]
fn inline_resolves_refs_and_reports_cycles() {
    let t = Value::Tuple(vec![
        Value::Shared { slot: 1, value: Box::new(Value::Str("Jita".into())) },
        Value::Ref(1),
        Value::Ref(9),
    ]);
    assert_eq!(
        inline(&t),
        Value::Tuple(vec![Value::Str("Jita".into()), Value::Str("Jita".into()), Value::Ref(9)])
    );
    // Two stores into one slot, the later holding a ref to it: resolving it
    // never ends.
    let cyclic = Value::Tuple(vec![
        Value::Shared { slot: 1, value: Box::new(Value::Int(1)) },
        Value::Shared { slot: 1, value: Box::new(Value::List(vec![Value::Ref(1)])) },
        Value::Ref(1),
    ]);
    assert!(try_inline(&cyclic).is_none());
}

#[test]
fn failure_texts_print_offsets_in_hex_and_kinds_as_debug_does() {
    let e = DecodeError { offset: 0x1af, kind: ErrorKind::UnconsumedSharedMap { declared: 2, stored: 1 } };
    assert_eq!(e.message(), "decode error at offset 0x1af: UnconsumedSharedMap { declared: 2, stored: 1 }");
    let e = DecodeError { offset: 0, kind: ErrorKind::Unsupported("say \"hi\"") };
    assert_eq!(e.message(), format!("decode error at offset 0x0: {:?}", ErrorKind::Unsupported("say \"hi\"")));
    let e = EncodeError { kind: EncodeErrorKind::SlotOutOfRange { slot: 7, count: 3 } };
    assert_eq!(e.message(), "encode error: SlotOutOfRange { slot: 7, count: 3 }");
    assert_eq!(e.message(), format!("encode error: {:?}", e.kind));
}

// ----- slots named twice, and streams under resharing -----

#[test]
fn a_tail_map_naming_a_slot_twice_is_rejected() {
    let data = [
        0x7E, 0x02, 0, 0, 0, 0x2C, 0x53, 0x02, 0x68, 0x69, 0x53, 0x02, 0x68, 0x69, 0x01, 0, 0, 0, 0x01, 0, 0, 0,
    ];
    let e = decode(&data).unwrap_err();
    assert_eq!(e.kind, ErrorKind::DuplicateSharedSlot(1));
    assert_eq!(e.offset, 10);
}

#[test]
fn a_tree_claiming_a_slot_twice_is_not_encoded() {
    let hi = || Value::Shared { slot: 1, value: Box::new(Value::Bytes(b"hi".to_vec())) };
    let t = Value::Tuple(vec![hi(), hi()]);
    assert_eq!(encode(&t).unwrap_err().kind, EncodeErrorKind::DuplicateSlot(1));
}

#[test]
fn resharing_does_not_share_across_a_stream() {
    let t = Value::Tuple(vec![
        Value::Bytes(b"ab".to_vec()),
        Value::Stream(Box::new(Value::Bytes(b"ab".to_vec()))),
    ]);
    assert!(encode(&t).is_ok());
    let r = reshare(&t);
    assert_eq!(r, clone_value(&t), "a stream payload has its own tail map: nothing is shared across it");
    let bytes = encode(&r).unwrap();
    assert_eq!(decode(&bytes).unwrap(), t);
}

#[test]
fn resharing_still_shares_outside_streams() {
    let ab = || Value::Bytes(b"ab".to_vec());
    let t = Value::Tuple(vec![ab(), Value::Stream(Box::new(ab())), ab()]);
    let r = reshare(&t);
    assert_eq!(
        r,
        Value::Tuple(vec![
            Value::Shared { slot: 1, value: Box::new(ab()) },
            Value::Stream(Box::new(ab())),
            Value::Ref(1),
        ])
    );
    assert!(encode(&r).is_ok());
}
