//! The compressed envelope: a payload split into zlib chunks of one block size,
//! each announced by a header of its compressed and uncompressed sizes.

use vstd::prelude::*;
use crate::word::{Endian, word, word_value, read_word, lemma_word_value, lemma_word_bytes};
use crate::zlib::{zlib_compress, zlib_decompress, zlib_valid, inflate, deflate};
use crate::codec::{copy_range, decode, encode, Registry, DecodeError};
use crate::model::{Schema, Val, Value, enc, encodable, reads};
use crate::checksum::{bzip2_checksum, crc32_bzip2, patch_checksum, patched};
use crate::word::write_word;

verus! {

/// The little-endian word at `at`.
pub open spec fn word_at(x: Seq<u8>, at: int) -> u32 {
    word_value(x.subrange(at, at + 4), Endian::Little)
}

/// The chunk header (compressed size, uncompressed size) at `at`.
pub open spec fn header_at(x: Seq<u8>, at: int) -> (u32, u32) {
    (word_at(x, at), word_at(x, at + 4))
}

/// `hs` are the chunk headers that start at `pos`: every uncompressed size but
/// the last equals the block size, and the last one is below it, which ends the
/// list.
pub open spec fn chunk_list_at(x: Seq<u8>, pos: int, block: u32, hs: Seq<(u32, u32)>) -> bool {
    &&& hs.len() >= 1
    &&& pos + 8 * hs.len() <= x.len()
    &&& forall|i: int| 0 <= i < hs.len() ==> #[trigger] hs[i] == header_at(x, pos + 8 * i)
    &&& forall|i: int| 0 <= i < hs.len() - 1 ==> #[trigger] hs[i].1 == block
    &&& hs[hs.len() - 1].1 < block
}

/// The sum of the compressed sizes.
pub open spec fn sum_compressed(hs: Seq<(u32, u32)>) -> nat
    decreases hs.len(),
{
    if hs.len() == 0 {
        0
    } else {
        sum_compressed(hs.drop_last()) + hs.last().0 as nat
    }
}

/// The sum of the uncompressed sizes.
pub open spec fn sum_uncompressed(hs: Seq<(u32, u32)>) -> nat
    decreases hs.len(),
{
    if hs.len() == 0 {
        0
    } else {
        sum_uncompressed(hs.drop_last()) + hs.last().1 as nat
    }
}

/// The compressed bytes of the chunks, which follow each other from `pos`.
pub open spec fn chunk_slices(x: Seq<u8>, pos: int, hs: Seq<(u32, u32)>) -> Seq<Seq<u8>>
    decreases hs.len(),
{
    if hs.len() == 0 {
        Seq::empty()
    } else {
        let s = pos + sum_compressed(hs.drop_last());
        chunk_slices(x, pos, hs.drop_last()).push(x.subrange(s, s + hs.last().0))
    }
}

/// The concatenation of a sequence of byte strings.
pub open spec fn concat(parts: Seq<Seq<u8>>) -> Seq<u8>
    decreases parts.len(),
{
    if parts.len() == 0 {
        Seq::empty()
    } else {
        concat(parts.drop_last()) + parts.last()
    }
}

/// What each chunk decompresses to.
pub open spec fn inflated_parts(slices: Seq<Seq<u8>>) -> Seq<Seq<u8>> {
    slices.map_values(|s: Seq<u8>| zlib_decompress(s))
}

/// Every chunk fits the input, is a valid zlib stream, and inflates to its
/// declared uncompressed size.
pub open spec fn chunks_valid(x: Seq<u8>, pos: int, hs: Seq<(u32, u32)>) -> bool {
    &&& pos + sum_compressed(hs) <= x.len()
    &&& forall|i: int| 0 <= i < hs.len() ==> chunk_ok(#[trigger] chunk_slices(x, pos, hs)[i], hs[i].1)
}

/// `c` is a valid zlib stream of `n` bytes.
pub open spec fn chunk_ok(c: Seq<u8>, n: u32) -> bool {
    zlib_valid(c) && zlib_decompress(c).len() == n
}

/// `r` is the load failure that names the unknown class `c`.
pub open spec fn load_unsupported<T>(r: Result<T, LoadError>, c: Seq<u8>) -> bool {
    r matches Err(LoadError::Corrupt(DecodeError::UnsupportedTag(t))) && t@ == c
}

/// Why loading failed.
#[derive(Debug, Clone, PartialEq, Eq)]
pub enum LoadError {
    /// No known save layout matches the header.
    NotASave,
    /// A known game, but a version of its format that is not supported.
    UnsupportedVersion,
    /// The body of a known version does not decode.
    Corrupt(crate::codec::DecodeError),
    /// A chunk is not a zlib stream of its declared size.
    BadChunk,
}

pub proof fn lemma_sums_push(hs: Seq<(u32, u32)>, h: (u32, u32))
    ensures
        sum_compressed(hs.push(h)) == sum_compressed(hs) + h.0,
        sum_uncompressed(hs.push(h)) == sum_uncompressed(hs) + h.1,
{
    assert(hs.push(h).drop_last() =~= hs);
}

/// Reads the chunk headers that start at `pos`, up to the first whose
/// uncompressed size is below `block`.
pub fn read_chunk_headers(bytes: &[u8], pos: usize, block: u32) -> (r: Result<(Vec<(u32, u32)>, usize), LoadError>)
    requires
        pos <= bytes@.len(),
    ensures
        match r {
            Ok((hs, end)) => chunk_list_at(bytes@, pos as int, block, hs@) && end == pos + 8 * hs@.len(),
            Err(err) => (err matches LoadError::Corrupt(d) && !(d is UnsupportedTag)) && forall|hs: Seq<(u32, u32)>|
                !#[trigger] chunk_list_at(bytes@, pos as int, block, hs),
        },
{
    let mut hs: Vec<(u32, u32)> = Vec::new();
    let mut at = pos;
    loop
        invariant
            pos <= at <= bytes@.len(),
            at == pos + 8 * hs@.len(),
            forall|i: int| 0 <= i < hs@.len() ==> #[trigger] hs@[i] == header_at(bytes@, pos + 8 * i),
            forall|i: int| 0 <= i < hs@.len() ==> #[trigger] hs@[i].1 == block,
        decreases bytes@.len() - at,
    {
        if bytes.len() - at < 8 {
            proof {
                assert forall|g: Seq<(u32, u32)>| !#[trigger] chunk_list_at(bytes@, pos as int, block, g) by {
                    if chunk_list_at(bytes@, pos as int, block, g) {
                        if g.len() - 1 < hs@.len() {
                            let k = g.len() - 1;
                            assert(g[k] == header_at(bytes@, pos + 8 * k));
                            assert(hs@[k] == header_at(bytes@, pos + 8 * k));
                        }
                    }
                }
            }
            return Err(LoadError::Corrupt(crate::codec::DecodeError::UnexpectedEof));
        }
        let c = read_word(bytes, at, bytes.len(), Endian::Little).unwrap();
        let u = read_word(bytes, at + 4, bytes.len(), Endian::Little).unwrap();
        proof {
            lemma_word_value(c, Endian::Little);
            lemma_word_value(u, Endian::Little);
        }
        proof {
            assert(header_at(bytes@, at as int) == (c, u));
        }
        if u > block {
            proof {
                assert forall|g: Seq<(u32, u32)>| !#[trigger] chunk_list_at(bytes@, pos as int, block, g) by {
                    if chunk_list_at(bytes@, pos as int, block, g) {
                        let k = hs@.len() as int;
                        if k < g.len() {
                            assert(pos + 8 * k == at);
                            assert(g[k] == header_at(bytes@, pos + 8 * k));
                            assert(g[k].1 == u);
                            if k < g.len() - 1 {
                                assert(g[k].1 == block);
                            } else {
                                assert(g[g.len() - 1].1 < block);
                            }
                        } else {
                            let m = g.len() - 1;
                            assert(g[m] == header_at(bytes@, pos + 8 * m));
                            assert(hs@[m] == header_at(bytes@, pos + 8 * m));
                        }
                    }
                }
            }
            return Err(LoadError::Corrupt(crate::codec::DecodeError::InvalidVariant));
        }
        let ghost old_hs = hs@;
        hs.push((c, u));
        at = at + 8;
        if u < block {
            proof {
                assert forall|i: int| 0 <= i < hs@.len() - 1 implies #[trigger] hs@[i].1 == block by {
                    assert(hs@[i] == old_hs[i]);
                }
            }
            return Ok((hs, at));
        }
    }
}

pub proof fn lemma_take_prefixes(x: Seq<u8>, pos: int, hs: Seq<(u32, u32)>, k: int)
    requires
        0 <= k <= hs.len(),
    ensures
        chunk_slices(x, pos, hs.take(k)) == chunk_slices(x, pos, hs).take(k),
        sum_compressed(hs.take(k)) <= sum_compressed(hs),
        chunk_slices(x, pos, hs).len() == hs.len(),
    decreases hs.len(),
{
    if hs.len() > 0 {
        if k == hs.len() {
            assert(hs.take(k) =~= hs);
            lemma_take_prefixes(x, pos, hs.drop_last(), 0);
            assert(chunk_slices(x, pos, hs).take(k) =~= chunk_slices(x, pos, hs));
        } else {
            lemma_take_prefixes(x, pos, hs.drop_last(), k);
            assert(hs.drop_last().take(k) =~= hs.take(k));
            assert(chunk_slices(x, pos, hs).take(k) =~= chunk_slices(x, pos, hs.drop_last()).take(k));
        }
    }
}

pub proof fn lemma_concat_push(parts: Seq<Seq<u8>>, p: Seq<u8>)
    ensures
        concat(parts.push(p)) == concat(parts) + p,
        inflated_parts(parts.push(p)) == inflated_parts(parts).push(zlib_decompress(p)),
{
    assert(parts.push(p).drop_last() =~= parts);
    assert(inflated_parts(parts.push(p)) =~= inflated_parts(parts).push(zlib_decompress(p)));
}

/// Inflates the chunks whose headers are `hs` and whose compressed bytes follow
/// each other from `pos`, and concatenates what they yield.
///
/// Each chunk must yield exactly its declared uncompressed size, so the sizes
/// add up to the length of the result.
pub fn inflate_chunks(bytes: &[u8], pos: usize, hs: &Vec<(u32, u32)>) -> (r: Result<(Vec<u8>, usize), LoadError>)
    requires
        pos <= bytes@.len(),
    ensures
        match r {
            Ok((u, end)) => {
                &&& end == pos + sum_compressed(hs@)
                &&& end <= bytes@.len()
                &&& u@ == concat(inflated_parts(chunk_slices(bytes@, pos as int, hs@)))
                &&& u@.len() == sum_uncompressed(hs@)
                &&& chunks_valid(bytes@, pos as int, hs@)
            },
            Err(err) => err is BadChunk && !chunks_valid(bytes@, pos as int, hs@),
        },
{
    let mut out: Vec<u8> = Vec::new();
    let mut cur = pos;
    let mut i: usize = 0;
    proof {
        assert(hs@.take(0) =~= Seq::<(u32, u32)>::empty());
        lemma_take_prefixes(bytes@, pos as int, hs@, 0);
    }
    while i < hs.len()
        invariant
            pos <= cur <= bytes@.len(),
            i <= hs@.len(),
            cur == pos + sum_compressed(hs@.take(i as int)),
            out@ == concat(inflated_parts(chunk_slices(bytes@, pos as int, hs@.take(i as int)))),
            out@.len() == sum_uncompressed(hs@.take(i as int)),
            forall|j: int| 0 <= j < i ==> chunk_ok(#[trigger] chunk_slices(bytes@, pos as int, hs@)[j], hs@[j].1),
        decreases hs@.len() - i,
    {
        let (c, n) = hs[i];
        proof {
            assert(hs@.take(i + 1).drop_last() =~= hs@.take(i as int));
            assert(hs@.take(i + 1) =~= hs@.take(i as int).push((c, n)));
            lemma_sums_push(hs@.take(i as int), (c, n));
            lemma_take_prefixes(bytes@, pos as int, hs@, i + 1);
            lemma_take_prefixes(bytes@, pos as int, hs@, hs@.len() as int);
            assert(chunk_slices(bytes@, pos as int, hs@.take(i + 1))[i as int] == chunk_slices(bytes@, pos as int, hs@)[i as int]);
        }
        if bytes.len() - cur < c as usize {
            proof {
                lemma_take_prefixes(bytes@, pos as int, hs@, i + 1);
            }
            return Err(LoadError::BadChunk);
        }
        let slice = copy_range(bytes, cur, cur + c as usize);
        proof {
            assert(hs@.take(i + 1).last() == (c, n));
            lemma_take_prefixes(bytes@, pos as int, hs@.take(i as int), 0);
            assert(chunk_slices(bytes@, pos as int, hs@.take(i + 1)) == chunk_slices(
                bytes@,
                pos as int,
                hs@.take(i as int),
            ).push(bytes@.subrange(cur as int, cur + c)));
            assert(slice@ == chunk_slices(bytes@, pos as int, hs@)[i as int]);
        }
        let part = match inflate(slice.as_slice()) {
            Some(part) => part,
            None => {
                proof {
                    assert(!chunk_ok(chunk_slices(bytes@, pos as int, hs@)[i as int], hs@[i as int].1));
                }
                return Err(LoadError::BadChunk);
            },
        };
        if part.len() != n as usize {
            proof {
                assert(!chunk_ok(chunk_slices(bytes@, pos as int, hs@)[i as int], hs@[i as int].1));
            }
            return Err(LoadError::BadChunk);
        }
        proof {
            lemma_concat_push(chunk_slices(bytes@, pos as int, hs@.take(i as int)), slice@);
            lemma_concat_push(
                inflated_parts(chunk_slices(bytes@, pos as int, hs@.take(i as int))),
                zlib_decompress(slice@),
            );
        }
        out.extend_from_slice(part.as_slice());
        cur = cur + c as usize;
        i += 1;
    }
    proof {
        assert(hs@.take(hs@.len() as int) =~= hs@);
    }
    Ok((out, cur))
}

/// Why encoding failed.
#[derive(Debug, Clone, PartialEq, Eq)]
pub enum SaveError {
    /// A size does not fit its 32-bit field.
    TooLarge,
}

/// `parts` cut `u` into blocks of `b` bytes, the last one possibly shorter.
pub open spec fn block_split(u: Seq<u8>, b: nat, parts: Seq<Seq<u8>>) -> bool {
    &&& concat(parts) == u
    &&& forall|j: int| 0 <= j < parts.len() ==> 0 < #[trigger] parts[j].len() <= b
    &&& forall|j: int| 0 <= j < parts.len() - 1 ==> #[trigger] parts[j].len() == b
}

/// The zlib streams of `parts`.
pub open spec fn compressed(parts: Seq<Seq<u8>>) -> Seq<Seq<u8>> {
    parts.map_values(|p: Seq<u8>| zlib_compress(p))
}

/// The byte strings held by `vs`.
pub open spec fn views(vs: Seq<Vec<u8>>) -> Seq<Seq<u8>> {
    vs.map_values(|v: Vec<u8>| v@)
}

/// The chunk headers for blocks `parts` whose compressed chunks are `cs`.
pub open spec fn header_bytes(parts: Seq<Seq<u8>>, cs: Seq<Seq<u8>>) -> Seq<u8>
    decreases parts.len(),
{
    if parts.len() == 0 {
        Seq::empty()
    } else {
        header_bytes(parts.drop_last(), cs.subrange(0, parts.len() - 1)) + word(
            cs[parts.len() - 1].len() as u32,
            Endian::Little,
        ) + word(parts.last().len() as u32, Endian::Little)
    }
}

/// The compressed save, before its checksum is written, for blocks `parts` of
/// the payload `u` compressed into the chunks `cs`.
pub open spec fn unsealed_image(g: Me1LeSaveGame, u: Seq<u8>, parts: Seq<Seq<u8>>, cs: Seq<Seq<u8>>) -> Seq<u8> {
    let le = Endian::Little;
    word(g.magic_number, le) + word(g.block_size, le) + word(concat(cs).len() as u32, le) + word(
        u.len() as u32,
        le,
    ) + header_bytes(parts, cs) + concat(cs) + word(g.checksum, le) + word(g.compression_flag, le)
        + word(u.len() as u32, le)
}

/// `image` with the checksum of all but its last twelve bytes written in front
/// of them.
pub open spec fn sealed(image: Seq<u8>) -> Seq<u8> {
    patched(
        image,
        image.len() - 12,
        word(crc32_bzip2(image.subrange(0, image.len() - 12)), Endian::Little),
    )
}

/// A save of the compressed layout.
#[derive(Debug, PartialEq, Eq)]
pub struct Me1LeSaveGame {
    pub magic_number: u32,
    pub block_size: u32,
    pub save_data: Value,
    pub checksum: u32,
    pub compression_flag: u32,
}

/// Where the compressed chunks start, after the chunk headers `hs`.
pub open spec fn chunks_start(hs: Seq<(u32, u32)>) -> int {
    16 + 8 * hs.len() as int
}

/// Where the trailer (checksum, compression flag, uncompressed size) starts.
pub open spec fn trailer_start(hs: Seq<(u32, u32)>) -> int {
    chunks_start(hs) + sum_compressed(hs)
}

/// The payload that the chunks of `x` inflate to.
pub open spec fn inflated_body(x: Seq<u8>, hs: Seq<(u32, u32)>) -> Seq<u8> {
    concat(inflated_parts(chunk_slices(x, chunks_start(hs), hs)))
}

/// `x` holds a compressed save whose chunk headers are `hs`.
pub open spec fn layout_ok(x: Seq<u8>, hs: Seq<(u32, u32)>) -> bool {
    &&& x.len() >= 16
    &&& chunk_list_at(x, 16, word_at(x, 4), hs)
    &&& trailer_start(hs) + 12 <= x.len()
    &&& chunks_valid(x, chunks_start(hs), hs)
    &&& inflated_body(x, hs).len() == sum_uncompressed(hs)
    &&& version_supported(inflated_body(x, hs))
}

/// The payload, when it holds a version word, holds the supported one.
pub open spec fn version_supported(body: Seq<u8>) -> bool {
    body.len() >= 4 ==> word_value(body.subrange(0, 4), Endian::Little) == crate::save_game::ME1_LE_VERSION
}

/// `x` decodes to a save whose payload is `v`.
pub open spec fn decodes_to(x: Seq<u8>, s: Schema, tbl: Seq<crate::model::TagEntry>, hs: Seq<(u32, u32)>, v: Val) -> bool {
    layout_ok(x, hs) && reads(s, v, inflated_body(x, hs), tbl, Endian::Little)
}

/// `g` is what the compressed save `x` decodes to under payload schema `s`.
pub open spec fn loaded_from(x: Seq<u8>, s: Schema, tbl: Seq<crate::model::TagEntry>, g: Me1LeSaveGame) -> bool {
    &&& g.wf()
    &&& g.magic_number == word_at(x, 0)
    &&& g.block_size == word_at(x, 4)
    &&& exists|hs: Seq<(u32, u32)>| {
        &&& #[trigger] decodes_to(x, s, tbl, hs, g.save_data@)
        &&& g.checksum == word_at(x, trailer_start(hs))
        &&& g.compression_flag == word_at(x, trailer_start(hs) + 4)
    }
}

impl Me1LeSaveGame {
    /// The block size is positive and the payload can be encoded.
    pub open spec fn wf(&self) -> bool {
        self.block_size > 0 && encodable(self.save_data@)
    }

    /// Decodes a compressed save whose payload has schema `s`.
    ///
    /// It succeeds when the chunk headers end, every chunk is the zlib stream of
    /// its declared size, the payload decodes and the trailer is there.
    pub fn deserialize(input: &[u8], s: &Schema, reg: &Registry) -> (r: Result<Me1LeSaveGame, LoadError>)
        requires
            reg.wf(),
        ensures
            r matches Ok(g) ==> loaded_from(input@, *s, reg.table(), g),
            r is Err ==> forall|hs: Seq<(u32, u32)>, v: Val| !#[trigger] decodes_to(input@, *s, reg.table(), hs, v),
            r matches Err(LoadError::Corrupt(DecodeError::UnsupportedTag(t))) ==> !crate::model::known_tag(reg.table(), t@),
            r matches Err(LoadError::UnsupportedVersion) ==> exists|hs: Seq<(u32, u32)>|
                #[trigger] chunk_list_at(input@, 16, word_at(input@, 4), hs) && !version_supported(inflated_body(input@, hs)),
            forall|hs: Seq<(u32, u32)>, c: Seq<u8>|
                layout_ok(input@, hs) && #[trigger] crate::model::tag_fault(*s, inflated_body(input@, hs), reg.table(), Endian::Little, c)
                    ==> load_unsupported(r, c),
    {
        let le = Endian::Little;
        if input.len() < 16 {
            return Err(LoadError::Corrupt(DecodeError::UnexpectedEof));
        }
        let magic_number = read_word(input, 0, input.len(), le).unwrap();
        let block_size = read_word(input, 4, input.len(), le).unwrap();
        proof {
            lemma_word_value(magic_number, le);
            lemma_word_value(block_size, le);
            assert(block_size == word_at(input@, 4));
        }
        let (hs, p) = match read_chunk_headers(input, 16, block_size) {
            Ok(hp) => hp,
            Err(err) => {
                return Err(err);
            },
        };
        let (body, t) = match inflate_chunks(input, p, &hs) {
            Ok(bt) => bt,
            Err(err) => {
                proof {
                    assert forall|g: Seq<(u32, u32)>, v: Val| !#[trigger] decodes_to(input@, *s, reg.table(), g, v) by {
                        if layout_ok(input@, g) {
                            lemma_chunk_list_unique(input@, 16, block_size, g, hs@);
                        }
                    }
                    assert forall|g: Seq<(u32, u32)>| !#[trigger] layout_ok(input@, g) by {
                        if layout_ok(input@, g) {
                            lemma_chunk_list_unique(input@, 16, block_size, g, hs@);
                        }
                    }
                }
                return Err(err);
            },
        };
        let ghost x = input@;
        proof {
            assert(body@ == inflated_body(x, hs@));
            assert forall|g: Seq<(u32, u32)>| chunk_list_at(x, 16, block_size, g) implies g == hs@ by {
                lemma_chunk_list_unique(x, 16, block_size, g, hs@);
            }
        }
        if let Some(version) = read_word(body.as_slice(), 0, body.len(), le) {
            if version != crate::save_game::ME1_LE_VERSION {
                proof {
                    lemma_word_bytes(body@.subrange(0, 4), le);
                    lemma_word_value(version, le);
                    assert(!version_supported(inflated_body(x, hs@)));
                    assert(chunk_list_at(input@, 16, word_at(input@, 4), hs@));
                }
                return Err(LoadError::UnsupportedVersion);
            }
            proof {
                lemma_word_bytes(body@.subrange(0, 4), le);
                lemma_word_value(version, le);
            }
        }
        proof {
            assert(version_supported(body@));
            assert forall|g: Seq<(u32, u32)>| chunk_list_at(x, 16, block_size, g) implies g == hs@ by {
                lemma_chunk_list_unique(x, 16, block_size, g, hs@);
            }
        }
        let r0 = decode(s, reg, body.as_slice(), 0, body.len(), le);
        proof {
            assert(crate::codec::scope(body@, 0, body@.len() as int) =~= body@);
            assert forall|g: Seq<(u32, u32)>, c: Seq<u8>|
                layout_ok(input@, g) && #[trigger] crate::model::tag_fault(*s, inflated_body(input@, g), reg.table(), le, c)
                    implies crate::codec::unsupported(r0, c) by {
                lemma_chunk_list_unique(input@, 16, block_size, g, hs@);
                assert(crate::model::tag_fault(*s, crate::codec::scope(body@, 0, body@.len() as int), reg.table(), le, c));
            }
        }
        let save_data = match r0 {
            Ok((v, _)) => v,
            Err(err) => {
                proof {
                    assert(crate::codec::scope(body@, 0, body@.len() as int) =~= body@);
                    assert forall|g: Seq<(u32, u32)>, v: Val| !#[trigger] decodes_to(input@, *s, reg.table(), g, v) by {
                        if layout_ok(input@, g) {
                            lemma_chunk_list_unique(input@, 16, block_size, g, hs@);
                            assert(!reads(
                                *s,
                                v,
                                crate::codec::scope(body@, 0, body@.len() as int),
                                reg.table(),
                                le,
                            ));
                        }
                    }
                }
                return Err(LoadError::Corrupt(err));
            },
        };
        proof {
            assert(body@.subrange(0, body@.len() as int) =~= body@);
            crate::lemmas::lemma_reads_prefix(*s, save_data@, body@, reg.table(), le);
        }
        if input.len() - t < 12 {
            return Err(LoadError::Corrupt(DecodeError::UnexpectedEof));
        }
        let checksum = read_word(input, t, input.len(), le).unwrap();
        let compression_flag = read_word(input, t + 4, input.len(), le).unwrap();
        proof {
            lemma_word_bytes(input@.subrange(0, 4), le);
            lemma_word_bytes(input@.subrange(4, 8), le);
            lemma_word_bytes(input@.subrange(t as int, t + 4), le);
            lemma_word_bytes(input@.subrange(t + 4, t + 8), le);
            lemma_word_value(magic_number, le);
            lemma_word_value(block_size, le);
            lemma_word_value(checksum, le);
            lemma_word_value(compression_flag, le);
            assert(hs@[hs@.len() - 1].1 < block_size);
            assert(decodes_to(x, *s, reg.table(), hs@, save_data@));
        }
        Ok(Me1LeSaveGame { magic_number, block_size, save_data, checksum, compression_flag })
    }
}

/// `u` cut into blocks of `b` bytes from the front, the last one possibly
/// shorter; no block for an empty payload.
pub open spec fn blocks(u: Seq<u8>, b: nat) -> Seq<Seq<u8>>
    decreases u.len(),
{
    if u.len() == 0 || b == 0 {
        Seq::empty()
    } else if u.len() <= b {
        seq![u]
    } else {
        seq![u.subrange(0, b as int)] + blocks(u.subrange(b as int, u.len() as int), b)
    }
}

/// Cuts `u` into blocks of `b` bytes, the last one possibly shorter.
pub fn split_blocks(u: &Vec<u8>, b: usize) -> (r: Vec<Vec<u8>>)
    requires
        b > 0,
    ensures
        views(r@) == blocks(u@, b as nat),
        block_split(u@, b as nat, views(r@)),
{
    let mut parts: Vec<Vec<u8>> = Vec::new();
    let mut i: usize = 0;
    proof {
        assert(views(parts@) =~= Seq::<Seq<u8>>::empty());
        assert(u@.subrange(0, 0) =~= Seq::<u8>::empty());
        assert(u@.subrange(0, u@.len() as int) =~= u@);
        assert(views(parts@) + blocks(u@.subrange(0, u@.len() as int), b as nat) =~= blocks(u@, b as nat));
    }
    while i < u.len()
        invariant
            b > 0,
            i <= u@.len(),
            views(parts@) + blocks(u@.subrange(i as int, u@.len() as int), b as nat) == blocks(u@, b as nat),
            concat(views(parts@)) == u@.subrange(0, i as int),
            forall|j: int| 0 <= j < parts@.len() ==> 0 < #[trigger] views(parts@)[j].len() <= b,
            forall|j: int| 0 <= j < parts@.len() - 1 ==> #[trigger] views(parts@)[j].len() == b,
            i < u@.len() ==> forall|j: int| 0 <= j < parts@.len() ==> #[trigger] views(parts@)[j].len() == b,
        decreases u@.len() - i,
    {
        let end = if u.len() - i > b { i + b } else { u.len() };
        let chunk = copy_range(u.as_slice(), i, end);
        proof {
            let t = u@.subrange(i as int, u@.len() as int);
            let t2 = u@.subrange(end as int, u@.len() as int);
            if end < u@.len() {
                assert(t.subrange(0, b as int) =~= chunk@);
                assert(t.subrange(b as int, t.len() as int) =~= t2);
                assert(blocks(t, b as nat) == seq![chunk@] + blocks(t2, b as nat));
            } else {
                assert(t =~= chunk@);
                assert(t2.len() == 0);
                assert(blocks(t, b as nat) == seq![chunk@]);
                assert(blocks(t2, b as nat) =~= Seq::<Seq<u8>>::empty());
            }
            assert(views(parts@.push(chunk)) =~= views(parts@).push(chunk@));
            assert(views(parts@).push(chunk@) + blocks(t2, b as nat) =~= views(parts@) + (seq![chunk@] + blocks(t2, b as nat)));
            lemma_concat_push(views(parts@), chunk@);
            assert(u@.subrange(0, end as int) =~= u@.subrange(0, i as int) + chunk@);
        }
        parts.push(chunk);
        i = end;
    }
    proof {
        assert(u@.subrange(0, u@.len() as int) =~= u@);
        assert(blocks(u@.subrange(i as int, u@.len() as int), b as nat) =~= Seq::<Seq<u8>>::empty());
        assert(views(parts@) + Seq::<Seq<u8>>::empty() =~= views(parts@));
    }
    parts
}

/// Compresses each block.
fn compress_blocks(parts: &Vec<Vec<u8>>) -> (r: Vec<Vec<u8>>)
    ensures
        views(r@) == compressed(views(parts@)),
{
    let mut cs: Vec<Vec<u8>> = Vec::new();
    let mut i: usize = 0;
    while i < parts.len()
        invariant
            i <= parts@.len(),
            views(cs@) == compressed(views(parts@.subrange(0, i as int))),
        decreases parts@.len() - i,
    {
        let c = deflate(parts[i].as_slice()).unwrap();
        proof {
            assert(views(cs@.push(c)) =~= views(cs@).push(c@));
            assert(compressed(views(parts@.subrange(0, i + 1))) =~= compressed(
                views(parts@.subrange(0, i as int)),
            ).push(zlib_compress(parts@[i as int]@)));
        }
        cs.push(c);
        i += 1;
    }
    proof {
        assert(parts@.subrange(0, parts@.len() as int) =~= parts@);
    }
    cs
}

impl Me1LeSaveGame {
    /// Frames the payload `u`, cut into the blocks `parts` and compressed into
    /// the chunks `cs`: header, chunk headers, chunks and trailer, with the
    /// checksum of all but the last twelve bytes written in front of them.
    pub fn frame_chunks(&self, u: &Vec<u8>, parts: &Vec<Vec<u8>>, cs: &Vec<Vec<u8>>) -> (r: Result<Vec<u8>, SaveError>)
        requires
            u@.len() <= u32::MAX,
            block_split(u@, self.block_size as nat, views(parts@)),
            cs@.len() == parts@.len(),
        ensures
            r matches Ok(out) ==> out@ == sealed(unsealed_image(*self, u@, views(parts@), views(cs@))),
            r is Err <==> concat(views(cs@)).len() > u32::MAX,
            r matches Err(e) ==> e is TooLarge,
    {
        let le = Endian::Little;
        let mut hdrs: Vec<u8> = Vec::new();
        let mut body: Vec<u8> = Vec::new();
        let mut total: u32 = 0;
        let mut i: usize = 0;
        proof {
            assert(views(parts@).subrange(0, 0) =~= Seq::<Seq<u8>>::empty());
            assert(views(cs@).subrange(0, 0) =~= Seq::<Seq<u8>>::empty());
        }
        while i < cs.len()
            invariant
                le == Endian::Little,
                cs@.len() == parts@.len(),
                i <= cs@.len(),
                forall|j: int| 0 <= j < parts@.len() ==> #[trigger] views(parts@)[j].len() <= self.block_size,
                hdrs@ == header_bytes(views(parts@).subrange(0, i as int), views(cs@).subrange(0, i as int)),
                body@ == concat(views(cs@).subrange(0, i as int)),
                total == body@.len(),
            decreases cs@.len() - i,
        {
            let c = &cs[i];
            let ghost ps = views(parts@).subrange(0, i + 1);
            let ghost ks = views(cs@).subrange(0, i + 1);
            proof {
                assert(ps.drop_last() =~= views(parts@).subrange(0, i as int));
                assert(ks.subrange(0, i as int) =~= views(cs@).subrange(0, i as int));
                assert(ks.drop_last() =~= views(cs@).subrange(0, i as int));
                assert(ks[i as int] == c@);
                assert(ps.last() == parts@[i as int]@);
            }
            if c.len() > (u32::MAX - total) as usize {
                proof {
                    lemma_concat_prefix(views(cs@), i + 1);
                }
                return Err(SaveError::TooLarge);
            }
            write_word(&mut hdrs, c.len() as u32, le);
            write_word(&mut hdrs, parts[i].len() as u32, le);
            body.extend_from_slice(c.as_slice());
            total = total + c.len() as u32;
            proof {
                lemma_concat_push(views(cs@).subrange(0, i as int), c@);
                assert(views(cs@).subrange(0, i as int).push(c@) =~= ks);
            }
            i += 1;
        }
        proof {
            assert(views(parts@).subrange(0, parts@.len() as int) =~= views(parts@));
            assert(views(cs@).subrange(0, cs@.len() as int) =~= views(cs@));
        }
        let n = u.len() as u32;
        let mut out: Vec<u8> = Vec::new();
        write_word(&mut out, self.magic_number, le);
        write_word(&mut out, self.block_size, le);
        write_word(&mut out, total, le);
        write_word(&mut out, n, le);
        out.extend_from_slice(hdrs.as_slice());
        out.extend_from_slice(body.as_slice());
        write_word(&mut out, self.checksum, le);
        write_word(&mut out, self.compression_flag, le);
        write_word(&mut out, n, le);
        proof {
            assert(out@ =~= unsealed_image(*self, u@, views(parts@), views(cs@)));
            lemma_word_value(n, le);
        }
        let front = copy_range(out.as_slice(), 0, out.len() - 12);
        let crc = bzip2_checksum(front.as_slice());
        patch_checksum(&mut out, crc);
        Ok(out)
    }

    /// Encodes the save: the payload is cut into blocks of the block size, each
    /// compressed into a chunk, and the chunks are framed. It fails only where a
    /// size does not fit its 32-bit field.
    pub fn serialize(&self) -> (r: Result<Vec<u8>, SaveError>)
        requires
            self.wf(),
        ensures
            ({
                let u = enc(self.save_data@, Endian::Little);
                let parts = blocks(u, self.block_size as nat);
                &&& r matches Ok(out) ==> out@ == sealed(unsealed_image(*self, u, parts, compressed(parts)))
                &&& r is Err <==> (u.len() > u32::MAX || concat(compressed(parts)).len() > u32::MAX)
                &&& r matches Err(e) ==> e is TooLarge
            }),
    {
        let mut u: Vec<u8> = Vec::new();
        encode(&self.save_data, Endian::Little, &mut u);
        proof {
            assert(u@ =~= enc(self.save_data@, Endian::Little));
        }
        if u.len() > u32::MAX as usize {
            return Err(SaveError::TooLarge);
        }
        let parts = split_blocks(&u, self.block_size as usize);
        let cs = compress_blocks(&parts);
        proof {
            assert(views(cs@).len() == cs@.len());
            assert(views(parts@).len() == parts@.len());
        }
        self.frame_chunks(&u, &parts, &cs)
    }
}

pub proof fn lemma_concat_prefix(parts: Seq<Seq<u8>>, k: int)
    requires
        0 <= k <= parts.len(),
    ensures
        concat(parts.subrange(0, k)).len() <= concat(parts).len(),
    decreases parts.len(),
{
    if k < parts.len() {
        lemma_concat_prefix(parts.drop_last(), k);
        assert(parts.drop_last().subrange(0, k) =~= parts.subrange(0, k));
    } else {
        assert(parts.subrange(0, k) =~= parts);
    }
}

/// The chunk headers at a position are determined by the bytes.
pub proof fn lemma_chunk_list_unique(x: Seq<u8>, pos: int, block: u32, g: Seq<(u32, u32)>, h: Seq<(u32, u32)>)
    requires
        chunk_list_at(x, pos, block, g),
        chunk_list_at(x, pos, block, h),
    ensures
        g == h,
{
    if g.len() < h.len() {
        assert(g[g.len() - 1] == h[g.len() - 1]);
    } else if h.len() < g.len() {
        assert(g[h.len() - 1] == h[h.len() - 1]);
    }
    assert(g =~= h);
}

/// The chunk headers that `header_bytes` writes for blocks `parts` compressed
/// into `cs`.
pub open spec fn headers_of(parts: Seq<Seq<u8>>, cs: Seq<Seq<u8>>) -> Seq<(u32, u32)> {
    Seq::new(parts.len(), |i: int| (cs[i].len() as u32, parts[i].len() as u32))
}

pub proof fn lemma_header_bytes_at(parts: Seq<Seq<u8>>, cs: Seq<Seq<u8>>, i: int)
    requires
        0 <= i < parts.len(),
        cs.len() == parts.len(),
    ensures
        header_bytes(parts, cs).len() == 8 * parts.len(),
        header_bytes(parts, cs).subrange(8 * i, 8 * i + 4) == word(cs[i].len() as u32, Endian::Little),
        header_bytes(parts, cs).subrange(8 * i + 4, 8 * i + 8) == word(parts[i].len() as u32, Endian::Little),
    decreases parts.len(),
{
    let le = Endian::Little;
    let n = parts.len() - 1;
    let init = parts.drop_last();
    let cinit = cs.subrange(0, n);
    lemma_word_value(cs[n].len() as u32, le);
    lemma_word_value(parts.last().len() as u32, le);
    if init.len() > 0 {
        lemma_header_bytes_at(init, cinit, if i < n { i } else { 0 });
    } else {
        assert(header_bytes(init, cinit) =~= Seq::<u8>::empty());
    }
    let h = header_bytes(parts, cs);
    if i < n {
        assert(cinit[i] == cs[i]);
        assert(h.subrange(8 * i, 8 * i + 4) =~= header_bytes(init, cinit).subrange(8 * i, 8 * i + 4));
        assert(h.subrange(8 * i + 4, 8 * i + 8) =~= header_bytes(init, cinit).subrange(8 * i + 4, 8 * i + 8));
    } else {
        assert(h.subrange(8 * i, 8 * i + 4) =~= word(cs[n].len() as u32, le));
        assert(h.subrange(8 * i + 4, 8 * i + 8) =~= word(parts.last().len() as u32, le));
    }
}

/// The chunk headers that encoding writes end where decoding stops reading
/// them: when the payload's last block is shorter than the block size, the
/// headers read back from the encoded save are those of the blocks, every one
/// but the last a full block, and their uncompressed sizes add up to the
/// payload's length.
#[verifier::rlimit(60)]
pub proof fn lemma_encoded_chunk_headers(g: Me1LeSaveGame, u: Seq<u8>, parts: Seq<Seq<u8>>, cs: Seq<Seq<u8>>)
    requires
        block_split(u, g.block_size as nat, parts),
        cs.len() == parts.len(),
        parts.len() > 0,
        parts.last().len() < g.block_size,
    ensures
        chunk_list_at(sealed(unsealed_image(g, u, parts, cs)), 16, g.block_size, headers_of(parts, cs)),
        word_at(sealed(unsealed_image(g, u, parts, cs)), 4) == g.block_size,
        sum_uncompressed(headers_of(parts, cs)) == u.len(),
{
    let le = Endian::Little;
    let img = unsealed_image(g, u, parts, cs);
    let y = sealed(img);
    let hs = headers_of(parts, cs);
    let hb = header_bytes(parts, cs);
    lemma_header_bytes_at(parts, cs, 0);
    lemma_word_value(g.magic_number, le);
    lemma_word_value(g.block_size, le);
    lemma_word_value(concat(cs).len() as u32, le);
    lemma_word_value(u.len() as u32, le);
    lemma_word_value(g.checksum, le);
    lemma_word_value(g.compression_flag, le);
    lemma_word_value(crc32_bzip2(img.subrange(0, img.len() - 12)), le);
    assert(img.len() == 16 + hb.len() + concat(cs).len() + 12);
    assert(y.subrange(0, img.len() - 12) =~= img.subrange(0, img.len() - 12));
    assert(y.subrange(4, 8) =~= word(g.block_size, le)) by {
        assert(y.subrange(4, 8) =~= img.subrange(4, 8));
    }
    assert forall|i: int| 0 <= i < hs.len() implies #[trigger] hs[i] == header_at(y, 16 + 8 * i) by {
        lemma_header_bytes_at(parts, cs, i);
        lemma_word_value(cs[i].len() as u32, le);
        lemma_word_value(parts[i].len() as u32, le);
        assert(y.subrange(16 + 8 * i, 16 + 8 * i + 4) =~= hb.subrange(8 * i, 8 * i + 4));
        assert(y.subrange(16 + 8 * i + 4, 16 + 8 * i + 8) =~= hb.subrange(8 * i + 4, 8 * i + 8));
    }
    assert forall|i: int| 0 <= i < hs.len() - 1 implies #[trigger] hs[i].1 >= g.block_size by {
        assert(parts[i].len() == g.block_size);
    }
    lemma_sum_headers(parts, cs);
}

pub proof fn lemma_sum_headers(parts: Seq<Seq<u8>>, cs: Seq<Seq<u8>>)
    requires
        cs.len() == parts.len(),
        forall|j: int| 0 <= j < parts.len() ==> #[trigger] parts[j].len() <= u32::MAX,
    ensures
        sum_uncompressed(headers_of(parts, cs)) == concat(parts).len(),
    decreases parts.len(),
{
    if parts.len() > 0 {
        let n = parts.len() - 1;
        let init = parts.drop_last();
        assert(headers_of(parts, cs).drop_last() =~= headers_of(init, cs.subrange(0, n)));
        assert forall|j: int| 0 <= j < init.len() implies #[trigger] init[j].len() <= u32::MAX by {
            assert(init[j] == parts[j]);
        }
        lemma_sum_headers(init, cs.subrange(0, n));
    }
}

/// Chunks written one after the other from `p0` are read back, one by one,
/// through headers that give their lengths.
pub proof fn lemma_chunks_read_back(y: Seq<u8>, p0: int, parts: Seq<Seq<u8>>, cs: Seq<Seq<u8>>)
    requires
        0 <= p0,
        cs.len() == parts.len(),
        forall|j: int| 0 <= j < cs.len() ==> #[trigger] cs[j].len() <= u32::MAX,
        forall|j: int| 0 <= j < parts.len() ==> #[trigger] parts[j].len() <= u32::MAX,
        p0 + concat(cs).len() <= y.len(),
        y.subrange(p0, p0 + concat(cs).len()) == concat(cs),
    ensures
        chunk_slices(y, p0, headers_of(parts, cs)) == cs,
        sum_compressed(headers_of(parts, cs)) == concat(cs).len(),
    decreases cs.len(),
{
    if cs.len() > 0 {
        let n = cs.len() - 1;
        let hs = headers_of(parts, cs);
        let ci = cs.subrange(0, n);
        let pi = parts.subrange(0, n);
        assert(cs.drop_last() =~= ci);
        assert(hs.drop_last() =~= headers_of(pi, ci));
        assert(concat(cs) == concat(ci) + cs[n]);
        assert(y.subrange(p0, p0 + concat(ci).len()) =~= concat(cs).subrange(0, concat(ci).len() as int));
        assert(concat(cs).subrange(0, concat(ci).len() as int) =~= concat(ci));
        lemma_chunks_read_back(y, p0, pi, ci);
        let st = p0 + concat(ci).len();
        assert(y.subrange(st, st + cs[n].len()) =~= cs[n]) by {
            assert forall|i: int| 0 <= i < cs[n].len() implies y.subrange(st, st + cs[n].len())[i] == cs[n][i] by {
                assert(y.subrange(p0, p0 + concat(cs).len())[concat(ci).len() + i] == concat(cs)[concat(ci).len() + i]);
            }
        }
        assert(chunk_slices(y, p0, hs) =~= cs);
    }
}

} // verus!
