//! Properties that relate several operations, proved over the models that the
//! operations' contracts use.

use vstd::prelude::*;
use crate::word::{Endian, word, word_value, lemma_word_value, lemma_word_bytes};
use crate::model::{Schema, TagEntry, Val, enc, enc_header, header_fits, known_tag, prefix, reads, tags_distinct};
use crate::lemmas::{lemma_header_unique, lemma_reads_own_encoding, lemma_reads_prefix, lemma_reads_unique};
use crate::checksum::{crc32_bzip2, inner_checksum_valid, trailing_checksum_valid};
use crate::chunked::{decodes_to, inflated_body, sealed, sum_uncompressed};
use crate::save_game::{
    ME2_VERSION, ME2_VERSION_SWAPPED, ME3_VERSION, ME3_VERSION_SWAPPED, Variant, lemma_swapped_versions,
    variant_of, with_checksum, loadable, Formats, SaveKind, loads_as, plain_image, trailed_body, write_order,
};
use crate::head_morph::{get_at, is_slot, put_at};

verus! {

/// Decoding, encoding and decoding again gives the same value: a value read
/// from any scope is read back from its own encoding, and nothing else is.
/// Encoding is a function of the value, so encoding twice gives the same bytes.
pub proof fn lemma_round_trip(s: Schema, v: Val, x: Seq<u8>, tbl: Seq<TagEntry>, e: Endian)
    requires
        tags_distinct(tbl),
        reads(s, v, x, tbl, e),
    ensures
        reads(s, v, enc(v, e), tbl, e),
        forall|w: Val| #[trigger] reads(s, w, enc(v, e), tbl, e) ==> w == v,
{
    lemma_reads_own_encoding(s, v, x, tbl, e);
    assert forall|w: Val| #[trigger] reads(s, w, enc(v, e), tbl, e) implies w == v by {
        lemma_reads_unique(s, w, v, enc(v, e), tbl, e);
    }
}

/// A payload followed by its checksum reads back as the same payload, and the
/// checksum validates.
pub proof fn lemma_sealed_round_trip(s: Schema, v: Val, x: Seq<u8>, tbl: Seq<TagEntry>, e: Endian)
    requires
        tags_distinct(tbl),
        reads(s, v, x, tbl, e),
    ensures
        with_checksum(enc(v, e), e).subrange(0, with_checksum(enc(v, e), e).len() - 4) == enc(v, e),
        trailing_checksum_valid(with_checksum(enc(v, e), e), e),
        forall|w: Val| #[trigger] reads(s, w, enc(v, e), tbl, e) <==> w == v,
{
    let y = with_checksum(enc(v, e), e);
    lemma_word_value(crc32_bzip2(enc(v, e)), e);
    assert(y.subrange(0, y.len() - 4) =~= enc(v, e));
    assert(y.subrange(y.len() - 4, y.len() as int) =~= word(crc32_bzip2(enc(v, e)), e));
    lemma_round_trip(s, v, x, tbl, e);
}

/// A checksum written in front of the last twelve bytes validates.
pub proof fn lemma_sealed_checksum(image: Seq<u8>)
    requires
        image.len() >= 12,
    ensures
        inner_checksum_valid(sealed(image)),
        sealed(image).len() == image.len(),
        sealed(image).subrange(0, image.len() - 12) == image.subrange(0, image.len() - 12),
{
    let c = word(crc32_bzip2(image.subrange(0, image.len() - 12)), Endian::Little);
    lemma_word_value(crc32_bzip2(image.subrange(0, image.len() - 12)), Endian::Little);
    let y = sealed(image);
    assert(y.subrange(0, image.len() - 12) =~= image.subrange(0, image.len() - 12));
    assert(y.subrange(y.len() - 12, y.len() - 8) =~= c);
}

/// In a decoded compressed save the last chunk is shorter than a block, every
/// other one is exactly a block, every chunk is a valid zlib stream of its
/// declared size, and the declared sizes add up to the length
/// of what the chunks inflate to.
pub proof fn lemma_decoded_chunks(x: Seq<u8>, s: Schema, tbl: Seq<TagEntry>, hs: Seq<(u32, u32)>, v: Val)
    requires
        decodes_to(x, s, tbl, hs, v),
    ensures
        hs[hs.len() - 1].1 < crate::chunked::word_at(x, 4),
        forall|i: int| 0 <= i < hs.len() - 1 ==> #[trigger] hs[i].1 == crate::chunked::word_at(x, 4),
        crate::chunked::chunks_valid(x, crate::chunked::chunks_start(hs), hs),
        inflated_body(x, hs).len() == sum_uncompressed(hs),
{
}

/// No value is read as a polymorphic record whose header names a class outside
/// the table: such a record is never skipped or read in a default shape.
pub proof fn lemma_unknown_tag_unreadable(
    x: Seq<u8>,
    tbl: Seq<TagEntry>,
    e: Endian,
    c: Seq<u8>,
    o: Seq<u8>,
    k: Option<Seq<u8>>,
)
    requires
        header_fits(c, o, k),
        prefix(enc_header(c, o, k, e), x),
        !known_tag(tbl, c),
    ensures
        forall|v: Val| !#[trigger] reads(Schema::Object, v, x, tbl, e),
{
    assert forall|v: Val| !#[trigger] reads(Schema::Object, v, x, tbl, e) by {
        if let Val::Object { class, owner, owner_class, payload } = v {
            if reads(Schema::Object, v, x, tbl, e) {
                lemma_header_unique(class, owner, owner_class, c, o, k, x, e);
            }
        }
    }
}

proof fn lemma_reverse_words(a: u32, b: u32)
    requires
        word(a, Endian::Little) == word(b, Endian::Big),
    ensures
        word(b, Endian::Little) == word(a, Endian::Big),
{
    let l = word(a, Endian::Little);
    assert(l[0] == word(b, Endian::Big)[0]);
    assert(l[3] == word(b, Endian::Big)[3]);
    assert(word(b, Endian::Little) =~= word(a, Endian::Big));
}

/// The version word decides the byte order of the first releases of the
/// second and third games: a console save carries its version only when read
/// big-endian, a PC save only when read little-endian, so reading either in
/// the other order does not find the version it was classified by.
pub proof fn lemma_platform_byte_order(x: Seq<u8>)
    requires
        x.len() >= 4,
    ensures
        variant_of(x) == Some(Variant::Me2(Endian::Big)) ==> word_value(x.subrange(0, 4), Endian::Big)
            == ME2_VERSION && word_value(x.subrange(0, 4), Endian::Little) != ME2_VERSION,
        variant_of(x) == Some(Variant::Me2(Endian::Little)) ==> word_value(x.subrange(0, 4), Endian::Little)
            == ME2_VERSION && word_value(x.subrange(0, 4), Endian::Big) != ME2_VERSION,
        variant_of(x) == Some(Variant::Me3(Endian::Big)) ==> word_value(x.subrange(0, 4), Endian::Big)
            == ME3_VERSION && word_value(x.subrange(0, 4), Endian::Little) != ME3_VERSION,
        variant_of(x) == Some(Variant::Me3(Endian::Little)) ==> word_value(x.subrange(0, 4), Endian::Little)
            == ME3_VERSION && word_value(x.subrange(0, 4), Endian::Big) != ME3_VERSION,
{
    let b = x.subrange(0, 4);
    lemma_swapped_versions();
    lemma_reverse_words(ME2_VERSION_SWAPPED, ME2_VERSION);
    lemma_reverse_words(ME3_VERSION_SWAPPED, ME3_VERSION);
    lemma_word_bytes(b, Endian::Little);
    lemma_word_value(ME2_VERSION, Endian::Big);
    lemma_word_value(ME3_VERSION, Endian::Big);
    lemma_word_value(ME2_VERSION_SWAPPED, Endian::Big);
    lemma_word_value(ME3_VERSION_SWAPPED, Endian::Big);
    lemma_word_value(ME2_VERSION, Endian::Little);
    lemma_word_value(ME3_VERSION, Endian::Little);
}

/// A head morph put into a save's head-morph slot is what is taken out of it.
pub proof fn lemma_import_export(v: Val, path: Seq<usize>, h: Val)
    requires
        is_slot(get_at(v, path)),
    ensures
        get_at(put_at(v, path, Val::Opt(Some(Box::new(h)))), path) == Some(Val::Opt(Some(Box::new(h)))),
    decreases path.len(),
{
    if path.len() > 0 {
        if let Val::Record(vs) = v {
            lemma_import_export(vs[path[0] as int], path.drop_first(), h);
        }
    }
}

/// Putting a head morph into a save changes nothing outside the slot: every
/// other field of every record on the way keeps its value and position.
pub proof fn lemma_import_keeps_others(v: Val, path: Seq<usize>, h: Val, other: Seq<usize>)
    requires
        is_slot(get_at(v, path)),
        other.len() == path.len(),
        other != path,
        get_at(v, other) is Some,
    ensures
        get_at(put_at(v, path, Val::Opt(Some(Box::new(h)))), other) == get_at(v, other),
    decreases path.len(),
{
    if path.len() == 0 {
        assert(other =~= path);
    } else {
        if let Val::Record(vs) = v {
            let k = path[0] as int;
            let us = vs.update(k, put_at(vs[k], path.drop_first(), Val::Opt(Some(Box::new(h)))));
            if other[0] == path[0] {
                assert(other.drop_first() != path.drop_first()) by {
                    if other.drop_first() == path.drop_first() {
                        assert forall|i: int| 0 <= i < other.len() implies other[i] == path[i] by {
                            if i > 0 {
                                assert(other[i] == other.drop_first()[i - 1]);
                                assert(path[i] == path.drop_first()[i - 1]);
                            }
                        }
                        assert(other =~= path);
                    }
                }
                lemma_import_keeps_others(vs[k], path.drop_first(), h, other.drop_first());
                assert(us[k] == put_at(vs[k], path.drop_first(), Val::Opt(Some(Box::new(h)))));
            } else {
                assert(us[other[0] as int] == vs[other[0] as int]);
            }
        }
    }
}

/// The byte order a layout was loaded in.
pub open spec fn load_order(x: Seq<u8>) -> Endian {
    match variant_of(x) {
        Some(Variant::Me2(e)) => e,
        Some(Variant::Me3(e)) => e,
        _ => Endian::Little,
    }
}

/// Loading a save of a layout without compression, writing it in the byte order
/// it was loaded in, and loading the result again gives the same layout and the
/// same payload; writing it twice gives the same bytes.
///
/// The payload must encode to at least the four bytes of the version word that
/// tells the layout.
pub proof fn lemma_save_round_trip(x: Seq<u8>, f: Formats, k: SaveKind, console: bool)
    requires
        f.wf(),
        loads_as(x, f, k),
        !(k is MassEffect1Le),
        write_order(k, console) == load_order(x),
        enc(k.plain_payload(), load_order(x)).len() >= 4,
    ensures
        variant_of(plain_image(k, console)) == variant_of(x),
        loads_as(plain_image(k, console), f, k),
        forall|k2: SaveKind|
            #[trigger] loads_as(plain_image(k, console), f, k2) ==> k2.plain_payload() == k.plain_payload(),
{
    let e = load_order(x);
    let v = k.plain_payload();
    let tbl = f.registry.table();
    let y = plain_image(k, console);
    let s = match k {
        SaveKind::MassEffect1LePs4(_) => f.me1_le,
        SaveKind::MassEffect2(_) => f.me2,
        SaveKind::MassEffect2Le(_) => f.me2_le,
        _ => f.me3,
    };
    let body = if k is MassEffect1LePs4 { x } else { trailed_body(x) };
    assert(reads(s, v, body, tbl, e));
    lemma_reads_prefix(s, v, body, tbl, e);
    lemma_round_trip(s, v, body, tbl, e);
    let ybody = if k is MassEffect1LePs4 { y } else { trailed_body(y) };
    if !(k is MassEffect1LePs4) {
        lemma_sealed_round_trip(s, v, body, tbl, e);
    }
    assert(ybody == enc(v, e));
    assert(y.subrange(0, 4) =~= x.subrange(0, 4)) by {
        assert forall|i: int| 0 <= i < 4 implies y.subrange(0, 4)[i] == x.subrange(0, 4)[i] by {
            assert(y[i] == enc(v, e)[i]);
            assert(body.subrange(0, enc(v, e).len() as int)[i] == enc(v, e)[i]);
        }
    }
    assert(variant_of(y) == variant_of(x));
    assert forall|k2: SaveKind| #[trigger] loads_as(y, f, k2) implies k2.plain_payload() == v by {
        lemma_reads_unique(s, k2.plain_payload(), v, ybody, tbl, e);
    }
}

/// The stored checksum is never checked on load: two files of a layout with a
/// trailing checksum that differ only in those last four bytes load alike.
pub proof fn lemma_checksum_not_read(x: Seq<u8>, y: Seq<u8>, f: Formats)
    requires
        x.len() == y.len(),
        x.len() >= 8,
        x.subrange(0, x.len() - 4) == y.subrange(0, y.len() - 4),
        variant_of(x) matches Some(v) && (v is Me2 || v is Me2Le || v is Me3),
    ensures
        variant_of(y) == variant_of(x),
        loadable(y, f) == loadable(x, f),
        forall|k: SaveKind| #[trigger] loads_as(y, f, k) == loads_as(x, f, k),
{
    assert(y.subrange(0, 4) =~= x.subrange(0, 4)) by {
        assert forall|i: int| 0 <= i < 4 implies y.subrange(0, 4)[i] == x.subrange(0, 4)[i] by {
            assert(x.subrange(0, x.len() - 4)[i] == y.subrange(0, y.len() - 4)[i]);
        }
    }
    assert(trailed_body(y) == trailed_body(x));
}

/// Encoding a compressed save and loading it again gives back its payload,
/// and no other, provided the payload's last block is shorter than the block
/// size (a payload of whole blocks ends the chunk list too late, the known edge
/// of the layout) and each chunk inflates back to its block, as zlib's decoder
/// does for what its encoder wrote.
pub proof fn lemma_compressed_round_trip(
    g: crate::chunked::Me1LeSaveGame,
    s: Schema,
    tbl: Seq<TagEntry>,
    x: Seq<u8>,
    parts: Seq<Seq<u8>>,
    cs: Seq<Seq<u8>>,
)
    requires
        tags_distinct(tbl),
        reads(s, g.save_data@, x, tbl, Endian::Little),
        crate::chunked::block_split(enc(g.save_data@, Endian::Little), g.block_size as nat, parts),
        cs.len() == parts.len(),
        parts.len() > 0,
        parts.last().len() < g.block_size,
        enc(g.save_data@, Endian::Little).len() <= u32::MAX,
        crate::chunked::concat(cs).len() <= u32::MAX,
        forall|i: int|
            0 <= i < cs.len() ==> crate::zlib::zlib_valid(#[trigger] cs[i]) && crate::zlib::zlib_decompress(cs[i])
                == parts[i],
        crate::chunked::version_supported(enc(g.save_data@, Endian::Little)),
    ensures
        ({
            let y = sealed(crate::chunked::unsealed_image(g, enc(g.save_data@, Endian::Little), parts, cs));
            let hs = crate::chunked::headers_of(parts, cs);
            &&& decodes_to(y, s, tbl, hs, g.save_data@)
            &&& forall|w: Val| #[trigger] decodes_to(y, s, tbl, hs, w) ==> w == g.save_data@
        }),
{
    let le = Endian::Little;
    let v = g.save_data@;
    let u = enc(v, le);
    let img = crate::chunked::unsealed_image(g, u, parts, cs);
    let y = sealed(img);
    let hs = crate::chunked::headers_of(parts, cs);
    let cc = crate::chunked::concat(cs);
    crate::chunked::lemma_encoded_chunk_headers(g, u, parts, cs);
    crate::chunked::lemma_header_bytes_at(parts, cs, 0);
    lemma_word_value(g.magic_number, le);
    lemma_word_value(g.block_size, le);
    lemma_word_value(cc.len() as u32, le);
    lemma_word_value(u.len() as u32, le);
    lemma_word_value(g.checksum, le);
    lemma_word_value(g.compression_flag, le);
    let hb = crate::chunked::header_bytes(parts, cs);
    let start: int = 16 + hb.len() as int;
    assert(img.len() == start + cc.len() + 12);
    lemma_sealed_checksum(img);
    assert(y.subrange(start, start + cc.len() as int) =~= cc) by {
        assert forall|i: int| 0 <= i < cc.len() implies y.subrange(start, start + cc.len() as int)[i] == cc[i] by {
            assert(y.subrange(0, img.len() - 12)[start + i] == img.subrange(0, img.len() - 12)[start + i]);
        }
    }
    assert forall|j: int| 0 <= j < parts.len() implies #[trigger] parts[j].len() <= u32::MAX by {
        assert(parts[j].len() <= g.block_size);
    }
    assert forall|j: int| 0 <= j < cs.len() implies #[trigger] cs[j].len() <= u32::MAX by {
        crate::chunked::lemma_concat_prefix(cs, j + 1);
        crate::chunked::lemma_concat_prefix(cs.subrange(0, j + 1), j);
        assert(cs.subrange(0, j + 1).drop_last() =~= cs.subrange(0, j));
        assert(cs.subrange(0, j + 1).subrange(0, j) =~= cs.subrange(0, j));
    }
    crate::chunked::lemma_chunks_read_back(y, start, parts, cs);
    assert(crate::chunked::chunks_start(hs) == start);
    assert(crate::chunked::inflated_parts(cs) =~= parts);
    assert(crate::chunked::inflated_body(y, hs) == u);
    assert forall|i: int| 0 <= i < hs.len() implies crate::chunked::chunk_ok(
        #[trigger] crate::chunked::chunk_slices(y, start, hs)[i],
        hs[i].1,
    ) by {
        assert(crate::zlib::zlib_valid(cs[i]));
    }
    lemma_reads_own_encoding(s, v, x, tbl, le);
    assert forall|w: Val| #[trigger] decodes_to(y, s, tbl, hs, w) implies w == v by {
        lemma_reads_unique(s, w, v, u, tbl, le);
    }
}

} // verus!
