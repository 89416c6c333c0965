//! The CRC-32 (BZIP2 parameters) that seals an encoded save, and where it goes.

use vstd::prelude::*;
use crate::word::{Endian, word, write_word};

verus! {

/// The CRC-32 of `data` with the BZIP2 parameters (polynomial 0x04C11DB7, not
/// reflected, initial value and final xor 0xFFFFFFFF).
pub uninterp spec fn crc32_bzip2(data: Seq<u8>) -> u32;

/// Relies on `crc::Crc::<u32>::checksum` with `crc::CRC_32_BZIP2`: the checksum is
/// a function of the bytes alone.
#[verifier::external_body]
pub(crate) fn bzip2_checksum(data: &[u8]) -> (r: u32)
    ensures
        r == crc32_bzip2(data@),
{
    crc::Crc::<u32>::new(&crc::CRC_32_BZIP2).checksum(data)
}

/// `image` with the four bytes at `at` replaced by `w`.
pub open spec fn patched(image: Seq<u8>, at: int, w: Seq<u8>) -> Seq<u8> {
    image.subrange(0, at) + w + image.subrange(at + 4, image.len() as int)
}

/// Writes `crc` little-endian over the four bytes that start twelve bytes
/// before the end of `image`.
pub fn patch_checksum(image: &mut Vec<u8>, crc: u32)
    requires
        old(image)@.len() >= 12,
    ensures
        final(image)@ == patched(old(image)@, old(image)@.len() - 12, word(crc, Endian::Little)),
{
    let at = image.len() - 12;
    let mut w: Vec<u8> = Vec::new();
    write_word(&mut w, crc, Endian::Little);
    let mut j: usize = 0;
    while j < 4
        invariant
            w@ == word(crc, Endian::Little),
            image@.len() == old(image)@.len(),
            old(image)@.len() >= 12,
            at + 12 == image@.len(),
            image@.len() <= usize::MAX,
            at == old(image)@.len() - 12,
            j <= 4,
            forall|i: int| 0 <= i < image@.len() ==> #[trigger] image@[i] == if at <= i < at + j {
                w@[i - at]
            } else {
                old(image)@[i]
            },
        decreases 4 - j,
    {
        let k = at + j;
        image.set(k, w[j]);
        j += 1;
    }
    assert(image@ =~= patched(old(image)@, old(image)@.len() - 12, word(crc, Endian::Little)));
}

/// `payload` followed by its checksum `crc` in byte order `e`.
pub fn append_checksum(payload: &mut Vec<u8>, crc: u32, e: Endian)
    ensures
        final(payload)@ == old(payload)@ + word(crc, e),
{
    write_word(payload, crc, e);
}

/// Seals `payload` with its trailing checksum in byte order `e`.
pub fn seal_trailing(payload: &mut Vec<u8>, e: Endian)
    ensures
        final(payload)@ == old(payload)@ + word(crc32_bzip2(old(payload)@), e),
{
    let crc = bzip2_checksum(payload.as_slice());
    append_checksum(payload, crc, e);
}

/// Whether `image` ends with the checksum of what precedes it, in byte order `e`.
pub open spec fn trailing_checksum_valid(image: Seq<u8>, e: Endian) -> bool {
    image.len() >= 4 && image.subrange(image.len() - 4, image.len() as int) == word(
        crc32_bzip2(image.subrange(0, image.len() - 4)),
        e,
    )
}

/// Whether the four bytes twelve before the end of `image` hold, little-endian,
/// the checksum of everything before them.
pub open spec fn inner_checksum_valid(image: Seq<u8>) -> bool {
    image.len() >= 12 && image.subrange(image.len() - 12, image.len() - 8) == word(
        crc32_bzip2(image.subrange(0, image.len() - 12)),
        Endian::Little,
    )
}

} // verus!
