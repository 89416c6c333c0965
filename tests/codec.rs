use trilogy_save::codec::{decode, encode, DecodeError, Registry};
use trilogy_save::model::{Schema, TagEntry, Value};
use trilogy_save::word::{read_word, write_word, Endian};

fn empty_registry() -> Registry {
    Registry { entries: Vec::new() }
}

fn encoded(v: &Value, e: Endian) -> Vec<u8> {
    let mut out = Vec::new();
    encode(v, e, &mut out);
    out
}

fn round_trip(s: &Schema, reg: &Registry, v: Value, e: Endian) {
    let bytes = encoded(&v, e);
    let (back, end) = decode(s, reg, &bytes, 0, bytes.len(), e).expect("decodes");
    assert_eq!(end, bytes.len());
    assert_eq!(back, v);
    assert_eq!(encoded(&back, e), bytes);
}

#[test]
fn words_in_both_byte_orders() {
    let mut out = Vec::new();
    write_word(&mut out, 0x1122_3344, Endian::Little);
    write_word(&mut out, 0x1122_3344, Endian::Big);
    assert_eq!(out, vec![0x44, 0x33, 0x22, 0x11, 0x11, 0x22, 0x33, 0x44]);
    assert_eq!(read_word(&out, 0, 8, Endian::Little), Some(0x1122_3344));
    assert_eq!(read_word(&out, 4, 8, Endian::Big), Some(0x1122_3344));
    assert_eq!(read_word(&out, 5, 8, Endian::Big), None);
}

#[test]
fn negative_integer_bytes() {
    assert_eq!(encoded(&Value::I32(-2), Endian::Little), vec![0xFE, 0xFF, 0xFF, 0xFF]);
    assert_eq!(encoded(&Value::I32(-2), Endian::Big), vec![0xFF, 0xFF, 0xFF, 0xFE]);
}

#[test]
fn string_has_length_prefix() {
    let v = Value::Str(b"Shep".to_vec());
    assert_eq!(encoded(&v, Endian::Little), vec![4, 0, 0, 0, b'S', b'h', b'e', b'p']);
    round_trip(&Schema::Str, &empty_registry(), v, Endian::Big);
}

#[test]
fn record_list_and_optional_round_trip() {
    let schema = Schema::Record(vec![
        Schema::Bool,
        Schema::U8,
        Schema::List(Box::new(Schema::I32)),
        Schema::Opt(Box::new(Schema::Str)),
        Schema::Opt(Box::new(Schema::U32)),
        Schema::Pad(3),
        Schema::Choice { count: 3, wide: true },
        Schema::F32,
    ]);
    let v = Value::Record(vec![
        Value::Bool(true),
        Value::U8(7),
        Value::List(vec![Value::I32(1), Value::I32(-1), Value::I32(50)]),
        Value::Opt(Some(Box::new(Value::Str(b"Normandy".to_vec())))),
        Value::Opt(None),
        Value::Pad(vec![9, 8, 7]),
        Value::U32(2),
        Value::F32(1.5f32.to_bits()),
    ]);
    round_trip(&schema, &empty_registry(), v, Endian::Little);
}

#[test]
fn empty_list_is_a_zero_count() {
    let v = Value::List(Vec::new());
    assert_eq!(encoded(&v, Endian::Little), vec![0, 0, 0, 0]);
    round_trip(&Schema::List(Box::new(Schema::Str)), &empty_registry(), v, Endian::Little);
}

#[test]
fn truncated_input_is_unexpected_eof() {
    let bytes = vec![5, 0, 0, 0, b'a', b'b'];
    assert_eq!(decode(&Schema::Str, &empty_registry(), &bytes, 0, bytes.len(), Endian::Little), Err(DecodeError::UnexpectedEof));
    assert_eq!(decode(&Schema::I32, &empty_registry(), &bytes, 4, bytes.len(), Endian::Little), Err(DecodeError::UnexpectedEof));
}

#[test]
fn discriminant_out_of_range_is_invalid_variant() {
    let wide = Schema::Choice { count: 3, wide: true };
    assert_eq!(decode(&wide, &empty_registry(), &[3, 0, 0, 0], 0, 4, Endian::Little), Err(DecodeError::InvalidVariant));
    let narrow = Schema::Choice { count: 4, wide: false };
    assert_eq!(decode(&narrow, &empty_registry(), &[4], 0, 1, Endian::Little), Err(DecodeError::InvalidVariant));
    assert_eq!(decode(&Schema::Bool, &empty_registry(), &[2, 0, 0, 0], 0, 4, Endian::Little), Err(DecodeError::InvalidVariant));
    let opt = Schema::Opt(Box::new(Schema::U8));
    assert_eq!(decode(&opt, &empty_registry(), &[2, 0, 0, 0, 1], 0, 5, Endian::Little), Err(DecodeError::InvalidVariant));
}

#[test]
fn trailing_optional_is_absent_at_scope_end() {
    let schema = Schema::Record(vec![Schema::U8, Schema::Trailing(Box::new(Schema::U32))]);
    let reg = empty_registry();
    let absent = decode(&schema, &reg, &[1], 0, 1, Endian::Little).unwrap();
    assert_eq!(absent, (Value::Record(vec![Value::U8(1), Value::Trailing(None)]), 1));
    let bytes = [1, 9, 0, 0, 0];
    let present = decode(&schema, &reg, &bytes, 0, 5, Endian::Little).unwrap();
    assert_eq!(
        present,
        (Value::Record(vec![Value::U8(1), Value::Trailing(Some(Box::new(Value::U32(9))))]), 5)
    );
    assert_eq!(decode(&schema, &reg, &[1, 9, 0], 0, 3, Endian::Little), Err(DecodeError::UnexpectedEof));
}

fn legacy_registry() -> Registry {
    Registry {
        entries: vec![
            TagEntry { tag: b"BioBaseSquadSaveObject".to_vec(), shape: Schema::Record(vec![Schema::Opt(Box::new(Schema::Object))]) },
            TagEntry { tag: b"BioItemXModSaveObject".to_vec(), shape: Schema::Record(vec![Schema::I32, Schema::U8]) },
        ],
    }
}

fn object(class: &[u8], payload: Value) -> Value {
    Value::Object { class: class.to_vec(), owner: b"owner".to_vec(), owner_class: None, payload: Box::new(payload) }
}

#[test]
fn polymorphic_records_nest() {
    let inner = object(b"BioItemXModSaveObject", Value::Record(vec![Value::I32(12), Value::U8(3)]));
    let outer = Value::Object {
        class: b"BioBaseSquadSaveObject".to_vec(),
        owner: b"squad".to_vec(),
        owner_class: Some(b"BioSquad".to_vec()),
        payload: Box::new(Value::Record(vec![Value::Opt(Some(Box::new(inner)))])),
    };
    round_trip(&Schema::Object, &legacy_registry(), outer, Endian::Little);
}

#[test]
fn unknown_tag_is_reported() {
    let v = object(b"BioUnheardOfSaveObject", Value::Record(vec![Value::I32(1), Value::U8(0)]));
    let bytes = encoded(&v, Endian::Little);
    let r = decode(&Schema::Object, &legacy_registry(), &bytes, 0, bytes.len(), Endian::Little);
    assert_eq!(r, Err(DecodeError::UnsupportedTag(b"BioUnheardOfSaveObject".to_vec())));
}

#[test]
fn unknown_tag_inside_a_record_is_reported() {
    let v = Value::Record(vec![Value::U8(1), object(b"Mystery", Value::Record(Vec::new()))]);
    let bytes = encoded(&v, Endian::Little);
    let schema = Schema::Record(vec![Schema::U8, Schema::Object]);
    let r = decode(&schema, &legacy_registry(), &bytes, 0, bytes.len(), Endian::Little);
    assert_eq!(r, Err(DecodeError::UnsupportedTag(b"Mystery".to_vec())));
}

#[test]
fn sixteen_bit_words_and_rest_of_scope() {
    let reg = empty_registry();
    assert_eq!(encoded(&Value::U16(0x1234), Endian::Little), vec![0x34, 0x12]);
    assert_eq!(encoded(&Value::U16(0x1234), Endian::Big), vec![0x12, 0x34]);
    let guid = trilogy_save::records::guid_schema();
    let v = Value::Record(vec![Value::U32(7), Value::U16(1), Value::U16(2), Value::Pad(vec![1, 2, 3, 4, 5, 6, 7, 8])]);
    round_trip(&guid, &reg, v, Endian::Big);
    assert_eq!(decode(&Schema::U16, &reg, &[1], 0, 1, Endian::Little), Err(DecodeError::UnexpectedEof));
    let schema = Schema::Record(vec![Schema::U8, Schema::Rest]);
    let bytes = [9, 1, 2, 3];
    assert_eq!(
        decode(&schema, &reg, &bytes, 0, 4, Endian::Little),
        Ok((Value::Record(vec![Value::U8(9), Value::Pad(vec![1, 2, 3])]), 4))
    );
    assert_eq!(decode(&schema, &reg, &bytes, 0, 1, Endian::Little), Ok((Value::Record(vec![Value::U8(9), Value::Pad(Vec::new())]), 1)));
}

#[test]
fn short_padding_is_unexpected_eof() {
    assert_eq!(decode(&Schema::Pad(4), &empty_registry(), &[1, 2, 3], 0, 3, Endian::Little), Err(DecodeError::UnexpectedEof));
    let truncated_object = [3, 0, 0, 0, b'a'];
    assert_eq!(decode(&Schema::Object, &legacy_registry(), &truncated_object, 0, 5, Endian::Little), Err(DecodeError::UnexpectedEof));
}

#[test]
fn unknown_tag_inside_list_and_optional_is_reported() {
    let bad = object(b"Mystery", Value::Record(Vec::new()));
    let v = Value::List(vec![Value::Opt(Some(Box::new(bad)))]);
    let bytes = encoded(&v, Endian::Little);
    let schema = Schema::List(Box::new(Schema::Opt(Box::new(Schema::Object))));
    let r = decode(&schema, &legacy_registry(), &bytes, 0, bytes.len(), Endian::Little);
    assert_eq!(r, Err(DecodeError::UnsupportedTag(b"Mystery".to_vec())));
}
