//! The five save layouts: telling them apart, and loading and saving each one
//! under its envelope.

use vstd::prelude::*;
use crate::word::{Endian, word, word_value, read_word, lemma_word_value, lemma_word_bytes};
use crate::model::{Schema, Val, Value, enc, encodable, known_tag, reads, tag_fault};
use crate::codec::{decode, encode, scope, DecodeError, Registry};
use crate::chunked::{decodes_to, inflated_body, layout_ok, load_unsupported, LoadError, Me1LeSaveGame, SaveError, loaded_from, blocks, concat, compressed, sealed, unsealed_image};
use crate::checksum::{crc32_bzip2, seal_trailing};
use crate::lemmas::lemma_reads_prefix;

verus! {

/// The first four bytes of a compressed Legendary Edition save of the first game.
pub open spec fn me1_le_magic() -> Seq<u8> {
    seq![0xC1u8, 0x83u8, 0x2Au8, 0x9Eu8]
}

/// The layout of the first game's Legendary Edition on PC: a magic number, then
/// zlib chunks.
#[derive(Debug, Clone, PartialEq, Eq)]
pub struct Me1LeMagicNumber(pub u32);

/// The layout of the first game's Legendary Edition on PS4: version 50, raw.
#[derive(Debug, Clone, PartialEq, Eq)]
pub struct Me1LeVersion(pub i32);

pub const ME1_LE_VERSION: u32 = 50;
pub const ME2_VERSION: u32 = 29;
pub const ME2_LE_VERSION: u32 = 30;
pub const ME3_VERSION: u32 = 59;

/// The version of the second game's console saves, which are big-endian, as
/// read little-endian.
pub const ME2_VERSION_SWAPPED: u32 = 0x1D00_0000;
/// The same for the third game.
pub const ME3_VERSION_SWAPPED: u32 = 0x3B00_0000;

proof fn lemma_swapped_word(a: u32, b: u32)
    requires
        (a & 0xff) as u8 == ((b >> 24u32) & 0xff) as u8,
        ((a >> 8u32) & 0xff) as u8 == ((b >> 16u32) & 0xff) as u8,
        ((a >> 16u32) & 0xff) as u8 == ((b >> 8u32) & 0xff) as u8,
        ((a >> 24u32) & 0xff) as u8 == (b & 0xff) as u8,
    ensures
        word(a, Endian::Little) == word(b, Endian::Big),
{
    assert(word(a, Endian::Little) =~= word(b, Endian::Big));
}

/// A console version word is the big-endian encoding of the version.
pub proof fn lemma_swapped_versions()
    ensures
        word(ME2_VERSION_SWAPPED, Endian::Little) == word(ME2_VERSION, Endian::Big),
        word(ME3_VERSION_SWAPPED, Endian::Little) == word(ME3_VERSION, Endian::Big),
{
    assert(0x1D00_0000u32 & 0xff == 0 && (0x1D00_0000u32 >> 8u32) & 0xff == 0 && (0x1D00_0000u32 >> 16u32)
        & 0xff == 0 && (0x1D00_0000u32 >> 24u32) & 0xff == 29 && (29u32 >> 24u32) & 0xff == 0 && (29u32
        >> 16u32) & 0xff == 0 && (29u32 >> 8u32) & 0xff == 0 && 29u32 & 0xff == 29) by (bit_vector);
    assert(0x3B00_0000u32 & 0xff == 0 && (0x3B00_0000u32 >> 8u32) & 0xff == 0 && (0x3B00_0000u32 >> 16u32)
        & 0xff == 0 && (0x3B00_0000u32 >> 24u32) & 0xff == 59 && (59u32 >> 24u32) & 0xff == 0 && (59u32
        >> 16u32) & 0xff == 0 && (59u32 >> 8u32) & 0xff == 0 && 59u32 & 0xff == 59) by (bit_vector);
    lemma_swapped_word(ME2_VERSION_SWAPPED, ME2_VERSION);
    lemma_swapped_word(ME3_VERSION_SWAPPED, ME3_VERSION);
}

/// The five layouts; the byte order of the first releases of the second and
/// third games depends on the platform.
#[derive(Clone, Copy, Debug, PartialEq, Eq, Structural)]
pub enum Variant {
    Me1Le,
    Me1LePs4,
    Me2(Endian),
    Me2Le,
    Me3(Endian),
}

/// The layout of `x`, tried in a fixed order: the first header that matches wins.
pub open spec fn variant_of(x: Seq<u8>) -> Option<Variant> {
    if x.len() < 4 {
        None
    } else if x.subrange(0, 4) == me1_le_magic() {
        Some(Variant::Me1Le)
    } else {
        let w = word_value(x.subrange(0, 4), Endian::Little);
        if w == ME1_LE_VERSION {
            Some(Variant::Me1LePs4)
        } else if w == ME2_VERSION {
            Some(Variant::Me2(Endian::Little))
        } else if w == ME2_VERSION_SWAPPED {
            Some(Variant::Me2(Endian::Big))
        } else if w == ME2_LE_VERSION {
            Some(Variant::Me2Le)
        } else if w == ME3_VERSION {
            Some(Variant::Me3(Endian::Little))
        } else if w == ME3_VERSION_SWAPPED {
            Some(Variant::Me3(Endian::Big))
        } else {
            None
        }
    }
}

impl Me1LeMagicNumber {
    /// Accepts exactly the four magic bytes at the start of `input`.
    pub fn deserialize(input: &[u8]) -> (r: Result<Me1LeMagicNumber, LoadError>)
        ensures
            r is Ok <==> input@.len() >= 4 && input@.subrange(0, 4) == me1_le_magic(),
            r matches Ok(m) ==> m.0 == word_value(me1_le_magic(), Endian::Little),
            r is Err ==> r->Err_0 is NotASave,
    {
        if input.len() < 4 {
            return Err(LoadError::NotASave);
        }
        if input[0] == 0xC1 && input[1] == 0x83 && input[2] == 0x2A && input[3] == 0x9E {
            let n = read_word(input, 0, input.len(), Endian::Little).unwrap();
            proof {
                assert(input@.subrange(0, 4) =~= me1_le_magic());
                lemma_word_value(n, Endian::Little);
            }
            Ok(Me1LeMagicNumber(n))
        } else {
            proof {
                if input@.subrange(0, 4) == me1_le_magic() {
                    assert(input@.subrange(0, 4)[0] == input@[0]);
                    assert(input@.subrange(0, 4)[1] == input@[1]);
                    assert(input@.subrange(0, 4)[2] == input@[2]);
                    assert(input@.subrange(0, 4)[3] == input@[3]);
                }
            }
            Err(LoadError::NotASave)
        }
    }
}

impl Me1LeVersion {
    /// Accepts a little-endian version word of 50 at the start of `input`.
    pub fn deserialize(input: &[u8]) -> (r: Result<Me1LeVersion, LoadError>)
        ensures
            r is Ok <==> input@.len() >= 4 && word_value(input@.subrange(0, 4), Endian::Little) == ME1_LE_VERSION,
            r matches Ok(v) ==> v.0 == 50,
            r is Err ==> r->Err_0 is NotASave,
    {
        match read_word(input, 0, input.len(), Endian::Little) {
            Some(w) => {
                proof {
                    lemma_word_bytes(input@.subrange(0, 4), Endian::Little);
                    lemma_word_value(w, Endian::Little);
                }
                if w == ME1_LE_VERSION {
                    Ok(Me1LeVersion(50))
                } else {
                    Err(LoadError::NotASave)
                }
            },
            None => Err(LoadError::NotASave),
        }
    }
}

/// Tells the layout of `input` from its first bytes.
pub fn classify(input: &[u8]) -> (r: Option<Variant>)
    ensures
        r == variant_of(input@),
{
    if input.len() < 4 {
        return None;
    }
    if Me1LeMagicNumber::deserialize(input).is_ok() {
        return Some(Variant::Me1Le);
    }
    let w = read_word(input, 0, input.len(), Endian::Little).unwrap();
    proof {
        lemma_word_bytes(input@.subrange(0, 4), Endian::Little);
        lemma_word_value(w, Endian::Little);
        assert(w == word_value(input@.subrange(0, 4), Endian::Little));
    }
    if w == ME1_LE_VERSION {
        Some(Variant::Me1LePs4)
    } else if w == ME2_VERSION {
        Some(Variant::Me2(Endian::Little))
    } else if w == ME2_VERSION_SWAPPED {
        Some(Variant::Me2(Endian::Big))
    } else if w == ME2_LE_VERSION {
        Some(Variant::Me2Le)
    } else if w == ME3_VERSION {
        Some(Variant::Me3(Endian::Little))
    } else if w == ME3_VERSION_SWAPPED {
        Some(Variant::Me3(Endian::Big))
    } else {
        None
    }
}

/// The schemas of the five layouts' payloads, and the table of polymorphic
/// record shapes that they share.
#[derive(Debug, PartialEq, Eq)]
pub struct Formats {
    pub registry: Registry,
    /// The first game's Legendary Edition, on PC (inside the chunks) and on PS4.
    pub me1_le: Schema,
    pub me2: Schema,
    pub me2_le: Schema,
    pub me3: Schema,
    /// The head-morph record.
    pub head_morph: Schema,
    /// Where each layout's payload holds its optional head morph, as record
    /// field indices.
    pub me1_le_head_morph: Vec<usize>,
    pub me2_head_morph: Vec<usize>,
    pub me2_le_head_morph: Vec<usize>,
    pub me3_head_morph: Vec<usize>,
}

impl Formats {
    pub open spec fn wf(&self) -> bool {
        self.registry.wf()
    }
}

/// A loaded save of one of the five layouts.
#[derive(Debug, PartialEq, Eq)]
pub enum SaveKind {
    MassEffect1Le(Box<Me1LeSaveGame>),
    MassEffect1LePs4(Box<Value>),
    MassEffect2(Box<Value>),
    MassEffect2Le(Box<Value>),
    MassEffect3(Box<Value>),
}

/// Everything but the trailing four-byte checksum.
pub open spec fn trailed_body(x: Seq<u8>) -> Seq<u8> {
    x.subrange(0, x.len() - 4)
}

/// `p` followed by its checksum in byte order `e`.
pub open spec fn with_checksum(p: Seq<u8>, e: Endian) -> Seq<u8> {
    p + word(crc32_bzip2(p), e)
}

/// The byte order that a save of layout `k` is written in.
pub open spec fn write_order(k: SaveKind, console: bool) -> Endian {
    match k {
        SaveKind::MassEffect2(_) | SaveKind::MassEffect3(_) => if console {
            Endian::Big
        } else {
            Endian::Little
        },
        _ => Endian::Little,
    }
}

/// What a save of a layout without compression is written as.
pub open spec fn plain_image(k: SaveKind, console: bool) -> Seq<u8> {
    let e = write_order(k, console);
    match k {
        SaveKind::MassEffect1LePs4(v) => enc(v@, e),
        _ => with_checksum(enc(k.plain_payload(), e), e),
    }
}

/// `k` is what `x` loads as.
pub open spec fn loads_as(x: Seq<u8>, f: Formats, k: SaveKind) -> bool {
    let tbl = f.registry.table();
    match (variant_of(x), k) {
        (Some(Variant::Me1Le), SaveKind::MassEffect1Le(g)) => loaded_from(x, f.me1_le, tbl, *g),
        (Some(Variant::Me1LePs4), SaveKind::MassEffect1LePs4(v)) => reads(f.me1_le, v@, x, tbl, Endian::Little),
        (Some(Variant::Me2(e)), SaveKind::MassEffect2(v)) => reads(f.me2, v@, trailed_body(x), tbl, e),
        (Some(Variant::Me2Le), SaveKind::MassEffect2Le(v)) => reads(f.me2_le, v@, trailed_body(x), tbl, Endian::Little),
        (Some(Variant::Me3(e)), SaveKind::MassEffect3(v)) => reads(f.me3, v@, trailed_body(x), tbl, e),
        _ => false,
    }
}

/// Reading `x` under its layout meets a polymorphic record whose class name `c`
/// is outside the table.
pub open spec fn unknown_class_in(x: Seq<u8>, f: Formats, c: Seq<u8>) -> bool {
    let tbl = f.registry.table();
    match variant_of(x) {
        Some(Variant::Me1Le) => exists|hs: Seq<(u32, u32)>|
            layout_ok(x, hs) && #[trigger] tag_fault(f.me1_le, inflated_body(x, hs), tbl, Endian::Little, c),
        Some(Variant::Me1LePs4) => tag_fault(f.me1_le, x, tbl, Endian::Little, c),
        Some(Variant::Me2(e)) => tag_fault(f.me2, trailed_body(x), tbl, e, c),
        Some(Variant::Me2Le) => tag_fault(f.me2_le, trailed_body(x), tbl, Endian::Little, c),
        Some(Variant::Me3(e)) => tag_fault(f.me3, trailed_body(x), tbl, e, c),
        None => false,
    }
}

/// Some save is read from `x` under its layout.
pub open spec fn loadable(x: Seq<u8>, f: Formats) -> bool {
    let tbl = f.registry.table();
    match variant_of(x) {
        Some(Variant::Me1Le) => exists|hs: Seq<(u32, u32)>, v: Val| #[trigger] decodes_to(x, f.me1_le, tbl, hs, v),
        Some(Variant::Me1LePs4) => exists|v: Val| #[trigger] reads(f.me1_le, v, x, tbl, Endian::Little),
        Some(Variant::Me2(e)) => exists|v: Val| #[trigger] reads(f.me2, v, trailed_body(x), tbl, e),
        Some(Variant::Me2Le) => exists|v: Val| #[trigger] reads(f.me2_le, v, trailed_body(x), tbl, Endian::Little),
        Some(Variant::Me3(e)) => exists|v: Val| #[trigger] reads(f.me3, v, trailed_body(x), tbl, e),
        _ => false,
    }
}

/// Decodes a payload of schema `s` from `bytes[0..lim]`.
fn decode_payload(s: &Schema, reg: &Registry, bytes: &[u8], lim: usize, e: Endian) -> (r: Result<Box<Value>, LoadError>)
    requires
        lim <= bytes@.len(),
        reg.wf(),
    ensures
        r matches Ok(v) ==> reads(*s, v@, bytes@.subrange(0, lim as int), reg.table(), e) && encodable(v@),
        r is Err ==> r->Err_0 is Corrupt && forall|v: Val| !#[trigger] reads(*s, v, bytes@.subrange(0, lim as int), reg.table(), e),
        r matches Err(LoadError::Corrupt(DecodeError::UnsupportedTag(t))) ==> !known_tag(reg.table(), t@),
        forall|c: Seq<u8>|
            #[trigger] tag_fault(*s, bytes@.subrange(0, lim as int), reg.table(), e, c) ==> load_unsupported(r, c),
{
    match decode(s, reg, bytes, 0, lim, e) {
        Ok((v, _)) => {
            proof {
                lemma_reads_prefix(*s, v@, scope(bytes@, 0, lim as int), reg.table(), e);
                assert forall|c: Seq<u8>| !#[trigger] tag_fault(*s, bytes@.subrange(0, lim as int), reg.table(), e, c) by {
                    assert(!tag_fault(*s, scope(bytes@, 0, lim as int), reg.table(), e, c));
                }
            }
            Ok(Box::new(v))
        },
        Err(err) => {
            proof {
                assert forall|v: Val| !#[trigger] reads(*s, v, bytes@.subrange(0, lim as int), reg.table(), e) by {
                    assert(!reads(*s, v, scope(bytes@, 0, lim as int), reg.table(), e));
                }
                assert forall|c: Seq<u8>| #[trigger] tag_fault(*s, bytes@.subrange(0, lim as int), reg.table(), e, c)
                    implies load_unsupported(Err::<Box<Value>, LoadError>(LoadError::Corrupt(err)), c) by {
                    assert(tag_fault(*s, scope(bytes@, 0, lim as int), reg.table(), e, c));
                }
            }
            Err(LoadError::Corrupt(err))
        },
    }
}

impl SaveKind {
    /// The payload's model, for the layouts without compression.
    pub open spec fn plain_payload(&self) -> Val {
        match self {
            SaveKind::MassEffect1Le(g) => g.save_data@,
            SaveKind::MassEffect1LePs4(v) => v@,
            SaveKind::MassEffect2(v) => v@,
            SaveKind::MassEffect2Le(v) => v@,
            SaveKind::MassEffect3(v) => v@,
        }
    }

    /// Every payload can be encoded, and a compressed save has a block size.
    pub open spec fn wf(&self) -> bool {
        match self {
            SaveKind::MassEffect1Le(g) => g.wf(),
            _ => encodable(self.plain_payload()),
        }
    }

    /// Loads a save: tells its layout from its header, then decodes the payload
    /// under that layout's envelope.
    pub fn deserialize(input: &[u8], f: &Formats) -> (r: Result<SaveKind, LoadError>)
        requires
            f.wf(),
        ensures
            r matches Ok(k) ==> loads_as(input@, *f, k) && k.wf(),
            (r matches Err(LoadError::NotASave)) <==> variant_of(input@) is None,
            r is Err ==> !loadable(input@, *f),
            r matches Err(LoadError::Corrupt(DecodeError::UnsupportedTag(t))) ==> !known_tag(f.registry.table(), t@),
            forall|c: Seq<u8>| #[trigger] unknown_class_in(input@, *f, c) ==> load_unsupported(r, c),
    {
        let tbl = Ghost(f.registry.table());
        let variant = match classify(input) {
            Some(v) => v,
            None => {
                return Err(LoadError::NotASave);
            },
        };
        let n = input.len();
        let r = match variant {
            Variant::Me1Le => {
                match Me1LeSaveGame::deserialize(input, &f.me1_le, &f.registry) {
                    Ok(g) => Ok(SaveKind::MassEffect1Le(Box::new(g))),
                    Err(LoadError::NotASave) => Err(LoadError::Corrupt(crate::codec::DecodeError::UnexpectedEof)),
                    Err(err) => Err(err),
                }
            },
            Variant::Me1LePs4 => {
                proof {
                    assert(input@.subrange(0, n as int) =~= input@);
                }
                match decode_payload(&f.me1_le, &f.registry, input, n, Endian::Little) {
                    Ok(v) => Ok(SaveKind::MassEffect1LePs4(v)),
                    Err(err) => Err(err),
                }
            },
            Variant::Me2(e) => match decode_payload(&f.me2, &f.registry, input, n - 4, e) {
                Ok(v) => Ok(SaveKind::MassEffect2(v)),
                Err(err) => Err(err),
            },
            Variant::Me2Le => match decode_payload(&f.me2_le, &f.registry, input, n - 4, Endian::Little) {
                Ok(v) => Ok(SaveKind::MassEffect2Le(v)),
                Err(err) => Err(err),
            },
            Variant::Me3(e) => match decode_payload(&f.me3, &f.registry, input, n - 4, e) {
                Ok(v) => Ok(SaveKind::MassEffect3(v)),
                Err(err) => Err(err),
            },
        };
        r
    }

    /// Encodes the save. The first releases of the second and third games are
    /// written big-endian for a console target and little-endian otherwise; the
    /// other layouts have one byte order. Every checksum is computed anew.
    pub fn serialize(&self, console: bool) -> (r: Result<Vec<u8>, SaveError>)
        requires
            self.wf(),
        ensures
            match self {
                SaveKind::MassEffect1Le(g) => {
                    let u = enc(g.save_data@, Endian::Little);
                    let parts = blocks(u, g.block_size as nat);
                    &&& r matches Ok(out) ==> out@ == sealed(unsealed_image(**g, u, parts, compressed(parts)))
                    &&& r is Err <==> (u.len() > u32::MAX || concat(compressed(parts)).len() > u32::MAX)
                    &&& r matches Err(e) ==> e is TooLarge
                },
                _ => r matches Ok(out) && out@ == plain_image(*self, console),
            },
    {
        let platform = if console { Endian::Big } else { Endian::Little };
        match self {
            SaveKind::MassEffect1Le(g) => g.serialize(),
            SaveKind::MassEffect1LePs4(v) => {
                let mut out: Vec<u8> = Vec::new();
                encode(v, Endian::Little, &mut out);
                Ok(out)
            },
            SaveKind::MassEffect2(v) => {
                let mut out: Vec<u8> = Vec::new();
                encode(v, platform, &mut out);
                seal_trailing(&mut out, platform);
                Ok(out)
            },
            SaveKind::MassEffect2Le(v) => {
                let mut out: Vec<u8> = Vec::new();
                encode(v, Endian::Little, &mut out);
                seal_trailing(&mut out, Endian::Little);
                Ok(out)
            },
            SaveKind::MassEffect3(v) => {
                let mut out: Vec<u8> = Vec::new();
                encode(v, platform, &mut out);
                seal_trailing(&mut out, platform);
                Ok(out)
            },
        }
    }
}

/// `b` in lower case, for ASCII letters.
pub open spec fn ascii_lower(b: u8) -> u8 {
    if 65 <= b <= 90 {
        (b + 32) as u8
    } else {
        b
    }
}

/// The extension of console save files, `xbsav`.
pub open spec fn console_extension() -> Seq<u8> {
    seq![120u8, 98u8, 115u8, 97u8, 118u8]
}

/// Whether a file extension names a console save, ignoring ASCII case.
pub fn is_console_extension(ext: &[u8]) -> (r: bool)
    ensures
        r == (ext@.len() == 5 && forall|i: int| 0 <= i < 5 ==> #[trigger] ascii_lower(ext@[i]) == console_extension()[i]),
{
    if ext.len() != 5 {
        return false;
    }
    let want: [u8; 5] = [120u8, 98u8, 115u8, 97u8, 118u8];
    proof {
        assert(want@ =~= console_extension());
    }
    let mut i: usize = 0;
    while i < 5
        invariant
            ext@.len() == 5,
            want@ == console_extension(),
            i <= 5,
            forall|j: int| 0 <= j < i ==> #[trigger] ascii_lower(ext@[j]) == console_extension()[j],
        decreases 5 - i,
    {
        let b = ext[i];
        let lower = if 65 <= b && b <= 90 { b + 32 } else { b };
        if lower != want[i] {
            proof {
                assert(ascii_lower(ext@[i as int]) != console_extension()[i as int]);
            }
            return false;
        }
        i += 1;
    }
    true
}

} // verus!
