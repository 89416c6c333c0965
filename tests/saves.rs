use trilogy_save::checksum::seal_trailing;
use trilogy_save::chunked::{read_chunk_headers, split_blocks, LoadError, Me1LeSaveGame};
use trilogy_save::codec::{decode, encode, DecodeError, Registry};
use trilogy_save::head_morph::{
    deserialize_gibbed_head_morph, head_morph_schema, HeadMorphError, HeadMorphFileError,
};
use trilogy_save::model::{Schema, Value};
use trilogy_save::records::{Dummy, EndGameState, Hotkey, Notoriety, Origin, Rotator, SaveTimeStamp, StreamingState};
use trilogy_save::save_game::{classify, is_console_extension, Formats, SaveKind, Variant};
use trilogy_save::word::Endian;

fn player_schema() -> Schema {
    Schema::Record(vec![Schema::Str, Schema::Opt(Box::new(head_morph_schema()))])
}

fn formats() -> Formats {
    Formats {
        registry: Registry { entries: Vec::new() },
        me1_le: Schema::Record(vec![
            Schema::I32,
            Schema::Str,
            player_schema(),
            Schema::Trailing(Box::new(Schema::Record(vec![Schema::I32, Schema::I32]))),
        ]),
        me2: Schema::Record(vec![Schema::I32, Schema::Str, player_schema()]),
        me2_le: Schema::Record(vec![Schema::I32, Schema::Str, player_schema()]),
        me3: Schema::Record(vec![Schema::I32, Schema::Str, player_schema(), Schema::Choice { count: 3, wide: true }]),
        head_morph: head_morph_schema(),
        me1_le_head_morph: vec![2, 1],
        me2_head_morph: vec![2, 1],
        me2_le_head_morph: vec![2, 1],
        me3_head_morph: vec![2, 1],
    }
}

fn vector(x: f32, y: f32, z: f32) -> Value {
    Value::Record(vec![Value::F32(x.to_bits()), Value::F32(y.to_bits()), Value::F32(z.to_bits())])
}

fn entry(key: &[u8], v: Value) -> Value {
    Value::Record(vec![Value::Str(key.to_vec()), v])
}

fn sample_head_morph() -> Value {
    Value::Record(vec![
        Value::Str(b"HMF_HIR_PROTO".to_vec()),
        Value::List(vec![Value::Str(b"glasses".to_vec())]),
        Value::List(vec![entry(b"jaw", Value::F32(0.25f32.to_bits())), entry(b"brow", Value::F32(1.0f32.to_bits()))]),
        Value::List(vec![entry(b"nose", vector(1.0, 2.0, 3.0))]),
        Value::List(vec![vector(0.0, 0.5, 1.0), vector(-1.0, 0.0, 2.5)]),
        Value::List(vec![vector(4.0, 5.0, 6.0)]),
        Value::List(Vec::new()),
        Value::List(vec![vector(7.0, 8.0, 9.0)]),
        Value::List(vec![entry(b"HED_Scar", Value::F32(0.5f32.to_bits()))]),
        Value::List(vec![entry(
            b"SkinTone",
            Value::Record(vec![
                Value::F32(0.1f32.to_bits()),
                Value::F32(0.2f32.to_bits()),
                Value::F32(0.3f32.to_bits()),
                Value::F32(1.0f32.to_bits()),
            ]),
        )]),
        Value::List(vec![entry(b"HED_Diff", Value::Str(b"tex_01".to_vec())), entry(b"HED_Norm", Value::Str(b"tex_02".to_vec()))]),
    ])
}

fn player(head_morph: Option<Value>) -> Value {
    Value::Record(vec![Value::Str(b"Jane".to_vec()), Value::Opt(head_morph.map(Box::new))])
}

fn me2_payload(version: i32, head_morph: Option<Value>) -> Value {
    Value::Record(vec![Value::I32(version), Value::Str(b"Citadel".to_vec()), player(head_morph)])
}

fn me1_le_payload(head_morph: Option<Value>, no_export: bool) -> Value {
    let trailing = if no_export {
        Value::Trailing(Some(Box::new(Value::Record(vec![Value::I32(11), Value::I32(22)]))))
    } else {
        Value::Trailing(None)
    };
    Value::Record(vec![Value::I32(50), Value::Str(b"Feros and more, long enough for chunks".to_vec()), player(head_morph), trailing])
}

fn bytes_of(v: &Value, e: Endian) -> Vec<u8> {
    let mut out = Vec::new();
    encode(v, e, &mut out);
    out
}

fn crc(data: &[u8]) -> u32 {
    crc::Crc::<u32>::new(&crc::CRC_32_BZIP2).checksum(data)
}

fn me1_le_game(no_export: bool) -> Me1LeSaveGame {
    Me1LeSaveGame {
        magic_number: 0x9E2A_83C1,
        block_size: 16,
        save_data: me1_le_payload(Some(sample_head_morph()), no_export),
        checksum: 0,
        compression_flag: 1,
    }
}

#[test]
fn deserialize_serialize() {
    let f = formats();
    for no_export in [true, false] {
        let first = me1_le_game(no_export).serialize().expect("encodes");
        let loaded = SaveKind::deserialize(&first, &f).expect("decodes");
        let second = loaded.serialize(false).expect("encodes again");
        assert!(first == second);
        match loaded {
            SaveKind::MassEffect1Le(g) => {
                assert_eq!(g.save_data, me1_le_payload(Some(sample_head_morph()), no_export));
                assert_eq!(g.block_size, 16);
                assert_eq!(g.compression_flag, 1);
            },
            _ => panic!("wrong layout"),
        }
    }
}

#[test]
fn compressed_save_checksum_covers_all_but_last_twelve_bytes() {
    let out = me1_le_game(true).serialize().unwrap();
    let at = out.len() - 12;
    let stored = u32::from_le_bytes([out[at], out[at + 1], out[at + 2], out[at + 3]]);
    assert_eq!(stored, crc(&out[..at]));
    assert_eq!(&out[..4], &[0xC1, 0x83, 0x2A, 0x9E]);
}

#[test]
fn chunk_headers_end_below_the_block_size() {
    let game = me1_le_game(true);
    let payload = bytes_of(&game.save_data, Endian::Little);
    assert!(payload.len() % 16 != 0);
    let out = game.serialize().unwrap();
    let (hs, end) = read_chunk_headers(&out, 16, 16).unwrap();
    assert_eq!(hs.len(), (payload.len() + 15) / 16);
    assert_eq!(end, 16 + 8 * hs.len());
    for h in &hs[..hs.len() - 1] {
        assert_eq!(h.1, 16);
    }
    assert!(hs[hs.len() - 1].1 < 16);
    let total: usize = hs.iter().map(|h| h.1 as usize).sum();
    assert_eq!(total, payload.len());
    let total_uncompressed = u32::from_le_bytes([out[12], out[13], out[14], out[15]]);
    assert_eq!(total_uncompressed as usize, payload.len());
    let first = &out[end..end + hs[0].0 as usize];
    assert_eq!(first[0], 0x78);
    let mut inflated = Vec::new();
    std::io::Read::read_to_end(&mut flate2::read::ZlibDecoder::new(first), &mut inflated).unwrap();
    assert_eq!(inflated, payload[..16].to_vec());
}

#[test]
fn corrupt_chunk_is_rejected() {
    let mut out = me1_le_game(true).serialize().unwrap();
    let (hs, end) = read_chunk_headers(&out, 16, 16).unwrap();
    assert!(hs[0].0 > 2);
    out[end + 1] ^= 0xFF;
    out[end + 2] ^= 0xFF;
    let r = SaveKind::deserialize(&out, &formats());
    assert!(matches!(r, Err(LoadError::BadChunk) | Err(LoadError::Corrupt(_))));
}

#[test]
fn ps4_save_round_trip() {
    let f = formats();
    let payload = me1_le_payload(None, false);
    let input = bytes_of(&payload, Endian::Little);
    assert_eq!(classify(&input), Some(Variant::Me1LePs4));
    let loaded = SaveKind::deserialize(&input, &f).unwrap();
    assert_eq!(loaded, SaveKind::MassEffect1LePs4(Box::new(payload)));
    assert_eq!(loaded.serialize(false).unwrap(), input);
}

fn me2_file(payload: &Value, e: Endian) -> Vec<u8> {
    let mut out = bytes_of(payload, e);
    seal_trailing(&mut out, e);
    out
}

#[test]
fn me2_pc_and_console_round_trip() {
    let f = formats();
    let payload = me2_payload(29, Some(sample_head_morph()));
    for (e, console) in [(Endian::Little, false), (Endian::Big, true)] {
        let input = me2_file(&payload, e);
        assert_eq!(classify(&input), Some(Variant::Me2(e)));
        let loaded = SaveKind::deserialize(&input, &f).unwrap();
        assert_eq!(loaded, SaveKind::MassEffect2(Box::new(me2_payload(29, Some(sample_head_morph())))));
        let output = loaded.serialize(console).unwrap();
        assert_eq!(output, input);
        let body = &output[..output.len() - 4];
        let tail = [output[output.len() - 4], output[output.len() - 3], output[output.len() - 2], output[output.len() - 1]];
        let stored = if console { u32::from_be_bytes(tail) } else { u32::from_le_bytes(tail) };
        assert_eq!(stored, crc(body));
    }
}

#[test]
fn console_save_only_reads_big_endian() {
    let f = formats();
    let input = me2_file(&me2_payload(29, None), Endian::Big);
    assert_eq!(&input[..4], &[0, 0, 0, 29]);
    let body = &input[..input.len() - 4];
    assert!(decode(&f.me2, &f.registry, body, 0, body.len(), Endian::Big).is_ok());
    let swapped = decode(&f.me2, &f.registry, body, 0, body.len(), Endian::Little);
    assert!(swapped.is_err());
    let pc = me2_file(&me2_payload(29, None), Endian::Little);
    let pc_body = &pc[..pc.len() - 4];
    assert!(decode(&f.me2, &f.registry, pc_body, 0, pc_body.len(), Endian::Big).is_err());
}

#[test]
fn me2_le_and_me3_round_trip() {
    let f = formats();
    let le = me2_file(&me2_payload(30, None), Endian::Little);
    assert_eq!(classify(&le), Some(Variant::Me2Le));
    let loaded = SaveKind::deserialize(&le, &f).unwrap();
    assert_eq!(loaded.serialize(true).unwrap(), le);
    let me3 = Value::Record(vec![Value::I32(59), Value::Str(b"Earth".to_vec()), player(None), Value::U32(2)]);
    let input = me2_file(&me3, Endian::Big);
    assert_eq!(classify(&input), Some(Variant::Me3(Endian::Big)));
    let loaded = SaveKind::deserialize(&input, &f).unwrap();
    assert_eq!(loaded, SaveKind::MassEffect3(Box::new(Value::Record(vec![
        Value::I32(59),
        Value::Str(b"Earth".to_vec()),
        player(None),
        Value::U32(2),
    ]))));
    assert_eq!(loaded.serialize(true).unwrap(), input);
}

#[test]
fn unknown_header_is_not_a_save() {
    let f = formats();
    assert_eq!(classify(&[1, 2, 3, 4, 5]), None);
    assert_eq!(SaveKind::deserialize(&[1, 2, 3, 4, 5], &f).unwrap_err(), LoadError::NotASave);
    assert_eq!(SaveKind::deserialize(&[29, 0], &f).unwrap_err(), LoadError::NotASave);
}

#[test]
fn truncated_save_of_known_version_is_corrupt() {
    let f = formats();
    let input = me2_file(&me2_payload(29, None), Endian::Little);
    let cut = &input[..10];
    assert_eq!(SaveKind::deserialize(cut, &f).unwrap_err(), LoadError::Corrupt(DecodeError::UnexpectedEof));
}

#[test]
fn export_without_head_morph_fails() {
    let f = formats();
    let save = SaveKind::MassEffect2(Box::new(me2_payload(29, None)));
    assert_eq!(save.head_morph(&f), Err(HeadMorphError::NoHeadMorph));
}

#[test]
fn import_then_export_reproduces_head_morph() {
    let f = formats();
    let input = me2_file(&me2_payload(29, None), Endian::Little);
    let save = SaveKind::deserialize(&input, &f).unwrap();
    let save = save.with_head_morph(&f, sample_head_morph()).map_err(|(_, e)| e).unwrap();
    assert_eq!(save.head_morph(&f).unwrap(), &sample_head_morph());
    let written = save.serialize(false).unwrap();
    let reloaded = SaveKind::deserialize(&written, &f).unwrap();
    assert_eq!(reloaded.head_morph(&f).unwrap(), &sample_head_morph());
    assert_eq!(reloaded, SaveKind::MassEffect2(Box::new(me2_payload(29, Some(sample_head_morph())))));
}

#[test]
fn import_into_compressed_save() {
    let f = formats();
    let mut game = me1_le_game(false);
    game.save_data = me1_le_payload(None, false);
    let save = SaveKind::MassEffect1Le(Box::new(game));
    let save = save.with_head_morph(&f, sample_head_morph()).map_err(|(_, e)| e).unwrap();
    let written = save.serialize(false).unwrap();
    let reloaded = SaveKind::deserialize(&written, &f).unwrap();
    assert_eq!(reloaded.head_morph(&f).unwrap(), &sample_head_morph());
}

#[test]
fn bad_head_morph_path_is_reported() {
    let mut f = formats();
    f.me2_head_morph = vec![1];
    let save = SaveKind::MassEffect2(Box::new(me2_payload(29, None)));
    assert_eq!(save.head_morph(&f), Err(HeadMorphError::BadPath));
    let r = save.with_head_morph(&f, sample_head_morph());
    match r {
        Err((back, e)) => {
            assert_eq!(e, HeadMorphError::BadPath);
            assert_eq!(back, SaveKind::MassEffect2(Box::new(me2_payload(29, None))));
        },
        Ok(_) => panic!("path leads to a string"),
    }
}

#[test]
fn gibbed_head_morph() {
    let f = formats();
    for digit in [b'2', b'3'] {
        let mut file = b"GIBBEDMASSEFFECT".to_vec();
        file.push(digit);
        file.extend_from_slice(b"HEADMORPH");
        file.extend_from_slice(&[1, 2, 3, 4, 5]);
        assert_eq!(file.len(), 31);
        file.extend(bytes_of(&sample_head_morph(), Endian::Little));
        assert_eq!(deserialize_gibbed_head_morph(&file, &f).unwrap(), sample_head_morph());
    }
    assert_eq!(deserialize_gibbed_head_morph(b"(hair_mesh: \"x\")", &f), Err(HeadMorphFileError::NotGibbed));
    let short = b"GIBBEDMASSEFFECT3HEADMORPH".to_vec();
    assert_eq!(deserialize_gibbed_head_morph(&short, &f), Err(HeadMorphFileError::Corrupt(DecodeError::UnexpectedEof)));
}

#[test]
fn console_extension_ignores_case() {
    assert!(is_console_extension(b"xbsav"));
    assert!(is_console_extension(b"XbSaV"));
    assert!(!is_console_extension(b"pcsav"));
    assert!(!is_console_extension(b"xbsav2"));
}

#[test]
fn checksum_of_known_input() {
    let mut data = b"123456789".to_vec();
    seal_trailing(&mut data, Endian::Little);
    assert_eq!(&data[9..], &0xFC89_1918u32.to_le_bytes());
    let mut data = b"123456789".to_vec();
    seal_trailing(&mut data, Endian::Big);
    assert_eq!(&data[9..], &0xFC89_1918u32.to_be_bytes());
}

#[test]
fn discriminants_in_range() {
    assert_eq!(EndGameState::deserialize(2), Ok(EndGameState::LivedToFightAgain));
    assert_eq!(EndGameState::deserialize(3), Err(DecodeError::InvalidVariant));
    assert_eq!(EndGameState::OutInABlazeOfGlory.serialize(), 1);
    assert_eq!(Origin::deserialize(3), Ok(Origin::Earthborn));
    assert_eq!(Origin::deserialize(4), Err(DecodeError::InvalidVariant));
    assert_eq!(Notoriety::deserialize(1), Ok(Notoriety::Survivor));
    assert_eq!(Notoriety::Ruthless.serialize(), 3);
}

#[test]
fn typed_records_convert() {
    let t = SaveTimeStamp { seconds_since_midnight: 3600, day: 7, month: 11, year: 2183 };
    let v = t.to_value();
    assert_eq!(v, Value::Record(vec![Value::I32(3600), Value::I32(7), Value::I32(11), Value::I32(2183)]));
    assert_eq!(SaveTimeStamp::from_value(&v), Some(t));
    assert_eq!(Rotator::from_value(&v), None);
    let r = Rotator { pitch: -1, yaw: 2, roll: 3 };
    assert_eq!(Rotator::from_value(&r.to_value()), Some(r));
    let d: Dummy<8> = Dummy::default();
    assert_eq!(d.bytes, vec![0u8; 8]);
    assert_eq!(d.to_value(), Value::Pad(vec![0u8; 8]));
}

#[test]
fn blocks_cut_the_payload() {
    let u: Vec<u8> = (0u8..20).collect();
    let parts = split_blocks(&u, 8);
    assert_eq!(parts, vec![(0u8..8).collect::<Vec<u8>>(), (8u8..16).collect(), (16u8..20).collect()]);
    let exact = split_blocks(&u[..16].to_vec(), 8);
    assert_eq!(exact.len(), 2);
    assert_eq!(exact[1].len(), 8);
    assert!(split_blocks(&Vec::new(), 8).is_empty());
}

#[test]
fn framing_takes_any_chunks() {
    let game = me1_le_game(false);
    let u: Vec<u8> = vec![1, 2, 3, 4, 5];
    let parts = vec![u.clone()];
    let cs = vec![vec![0xAA, 0xBB]];
    let out = game.frame_chunks(&u, &parts, &cs).unwrap();
    let mut expected: Vec<u8> = Vec::new();
    for w in [0x9E2A_83C1u32, 16, 2, 5, 2, 5] {
        expected.extend_from_slice(&w.to_le_bytes());
    }
    expected.extend_from_slice(&[0xAA, 0xBB]);
    let at = expected.len();
    expected.extend_from_slice(&crc(&expected).to_le_bytes());
    expected.extend_from_slice(&1u32.to_le_bytes());
    expected.extend_from_slice(&5u32.to_le_bytes());
    assert_eq!(at, out.len() - 12);
    assert_eq!(out, expected);
}

#[test]
fn string_records_convert() {
    let s = StreamingState { name: b"BIOA_NOR".to_vec(), is_active: true };
    let v = s.to_value();
    assert_eq!(v, Value::Record(vec![Value::Str(b"BIOA_NOR".to_vec()), Value::Bool(true)]));
    assert_eq!(StreamingState::from_value(&v), Some(s));
    assert_eq!(Hotkey::from_value(&v), None);
    let h = Hotkey { pawn_name: b"Garrus".to_vec(), power_id: 7 };
    assert_eq!(Hotkey::from_value(&h.to_value()), Some(h));
    let bytes = bytes_of(&Hotkey { pawn_name: b"Tali".to_vec(), power_id: -1 }.to_value(), Endian::Little);
    let reg = Registry { entries: Vec::new() };
    let (back, _) = decode(&Hotkey::schema(), &reg, &bytes, 0, bytes.len(), Endian::Little).unwrap();
    assert_eq!(Hotkey::from_value(&back), Some(Hotkey { pawn_name: b"Tali".to_vec(), power_id: -1 }));
}

#[test]
fn unknown_tag_in_a_save_is_reported() {
    let mut f = formats();
    f.me2 = Schema::Record(vec![Schema::I32, Schema::Str, player_schema(), Schema::Opt(Box::new(Schema::Object))]);
    let payload = Value::Record(vec![
        Value::I32(29),
        Value::Str(b"Omega".to_vec()),
        player(None),
        Value::Opt(Some(Box::new(Value::Object {
            class: b"BioUnknownSaveObject".to_vec(),
            owner: Vec::new(),
            owner_class: None,
            payload: Box::new(Value::Record(Vec::new())),
        }))),
    ]);
    let input = me2_file(&payload, Endian::Little);
    assert_eq!(
        SaveKind::deserialize(&input, &f).unwrap_err(),
        LoadError::Corrupt(DecodeError::UnsupportedTag(b"BioUnknownSaveObject".to_vec()))
    );
}

#[test]
fn chunk_header_above_block_size_is_rejected() {
    let mut out = me1_le_game(true).serialize().unwrap();
    out[20..24].copy_from_slice(&17u32.to_le_bytes());
    assert_eq!(read_chunk_headers(&out, 16, 16).unwrap_err(), LoadError::Corrupt(DecodeError::InvalidVariant));
}

#[test]
fn serialize_ignores_target_for_single_order_layouts() {
    let game = me1_le_game(true);
    let save = SaveKind::MassEffect1Le(Box::new(me1_le_game(true)));
    assert_eq!(save.serialize(true).unwrap(), save.serialize(false).unwrap());
    assert_eq!(save.serialize(true).unwrap(), game.serialize().unwrap());
    let le = SaveKind::MassEffect2Le(Box::new(me2_payload(30, None)));
    assert_eq!(le.serialize(true).unwrap(), le.serialize(false).unwrap());
}

#[test]
fn compressed_save_of_other_version_is_unsupported() {
    let mut game = me1_le_game(true);
    game.save_data = Value::Record(vec![
        Value::I32(49),
        Value::Str(b"Feros and more, long enough for chunks".to_vec()),
        player(None),
        Value::Trailing(None),
    ]);
    let out = game.serialize().unwrap();
    assert_eq!(SaveKind::deserialize(&out, &formats()).unwrap_err(), LoadError::UnsupportedVersion);
}
