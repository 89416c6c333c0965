//! Fixed-width words in a chosen byte order.

use vstd::prelude::*;

verus! {

/// The byte order of a whole encoding pass.
#[derive(Clone, Copy, Debug, PartialEq, Eq, Structural)]
pub enum Endian {
    Little,
    Big,
}

/// The four bytes of `n`, least significant first.
pub open spec fn le_bytes(n: u32) -> Seq<u8> {
    seq![
        (n & 0xff) as u8,
        ((n >> 8u32) & 0xff) as u8,
        ((n >> 16u32) & 0xff) as u8,
        ((n >> 24u32) & 0xff) as u8,
    ]
}

/// The encoding of a 32-bit word in byte order `e`.
pub open spec fn word(n: u32, e: Endian) -> Seq<u8> {
    let b = le_bytes(n);
    match e {
        Endian::Little => b,
        Endian::Big => seq![b[3], b[2], b[1], b[0]],
    }
}

/// The word whose little-endian bytes are `b0 b1 b2 b3`.
pub open spec fn word_of_le(b0: u8, b1: u8, b2: u8, b3: u8) -> u32 {
    (b0 as u32) | ((b1 as u32) << 8u32) | ((b2 as u32) << 16u32) | ((b3 as u32) << 24u32)
}

/// The word that the four bytes `b` encode in byte order `e`.
pub open spec fn word_value(b: Seq<u8>, e: Endian) -> u32 {
    match e {
        Endian::Little => word_of_le(b[0], b[1], b[2], b[3]),
        Endian::Big => word_of_le(b[3], b[2], b[1], b[0]),
    }
}

proof fn lemma_le_split(b0: u8, b1: u8, b2: u8, b3: u8)
    ensures
        ({
            let n = word_of_le(b0, b1, b2, b3);
            &&& (n & 0xff) as u8 == b0
            &&& ((n >> 8u32) & 0xff) as u8 == b1
            &&& ((n >> 16u32) & 0xff) as u8 == b2
            &&& ((n >> 24u32) & 0xff) as u8 == b3
        }),
{
    let n = word_of_le(b0, b1, b2, b3);
    assert(n == (b0 as u32) | ((b1 as u32) << 8u32) | ((b2 as u32) << 16u32) | ((b3 as u32) << 24u32));
    assert((((b0 as u32) | ((b1 as u32) << 8u32) | ((b2 as u32) << 16u32) | ((b3 as u32) << 24u32)) & 0xff) as u8 == b0
        && ((((b0 as u32) | ((b1 as u32) << 8u32) | ((b2 as u32) << 16u32) | ((b3 as u32) << 24u32)) >> 8u32) & 0xff) as u8 == b1
        && ((((b0 as u32) | ((b1 as u32) << 8u32) | ((b2 as u32) << 16u32) | ((b3 as u32) << 24u32)) >> 16u32) & 0xff) as u8 == b2
        && ((((b0 as u32) | ((b1 as u32) << 8u32) | ((b2 as u32) << 16u32) | ((b3 as u32) << 24u32)) >> 24u32) & 0xff) as u8 == b3)
        by (bit_vector);
}

proof fn lemma_le_join(n: u32)
    ensures
        word_of_le(
            (n & 0xff) as u8,
            ((n >> 8u32) & 0xff) as u8,
            ((n >> 16u32) & 0xff) as u8,
            ((n >> 24u32) & 0xff) as u8,
        ) == n,
{
    assert((((n & 0xff) as u8) as u32) | ((((n >> 8u32) & 0xff) as u8 as u32) << 8u32)
        | ((((n >> 16u32) & 0xff) as u8 as u32) << 16u32) | ((((n >> 24u32) & 0xff) as u8 as u32)
        << 24u32) == n) by (bit_vector);
}

/// Decoding a word's encoding gives the word back.
pub proof fn lemma_word_value(n: u32, e: Endian)
    ensures
        word(n, e).len() == 4,
        word_value(word(n, e), e) == n,
{
    lemma_le_join(n);
}

/// Four bytes are the encoding of the word they decode to.
pub proof fn lemma_word_bytes(b: Seq<u8>, e: Endian)
    requires
        b.len() == 4,
    ensures
        word(word_value(b, e), e) == b,
{
    match e {
        Endian::Little => lemma_le_split(b[0], b[1], b[2], b[3]),
        Endian::Big => lemma_le_split(b[3], b[2], b[1], b[0]),
    }
    assert(word(word_value(b, e), e) =~= b);
}

/// Two words with the same encoding are equal.
pub proof fn lemma_word_injective(m: u32, n: u32, e: Endian)
    requires
        word(m, e) == word(n, e),
    ensures
        m == n,
{
    lemma_word_value(m, e);
    lemma_word_value(n, e);
}

/// Reads the word at `pos`, if four bytes remain before `lim`.
pub fn read_word(bytes: &[u8], pos: usize, lim: usize, e: Endian) -> (r: Option<u32>)
    requires
        pos <= lim <= bytes@.len(),
    ensures
        r is Some <==> lim - pos >= 4,
        r matches Some(n) ==> word(n, e) == bytes@.subrange(pos as int, pos + 4),
{
    if lim - pos < 4 {
        return None;
    }
    let (b0, b1, b2, b3) = match e {
        Endian::Little => (bytes[pos], bytes[pos + 1], bytes[pos + 2], bytes[pos + 3]),
        Endian::Big => (bytes[pos + 3], bytes[pos + 2], bytes[pos + 1], bytes[pos]),
    };
    let n: u32 = (b0 as u32) | ((b1 as u32) << 8u32) | ((b2 as u32) << 16u32) | ((b3 as u32)
        << 24u32);
    proof {
        let b = bytes@.subrange(pos as int, pos + 4);
        assert(n == word_value(b, e));
        lemma_word_bytes(b, e);
    }
    Some(n)
}

/// Appends the encoding of `n` to `out`.
pub fn write_word(out: &mut Vec<u8>, n: u32, e: Endian)
    ensures
        final(out)@ == old(out)@ + word(n, e),
{
    let b0 = (n & 0xff) as u8;
    let b1 = ((n >> 8u32) & 0xff) as u8;
    let b2 = ((n >> 16u32) & 0xff) as u8;
    let b3 = ((n >> 24u32) & 0xff) as u8;
    match e {
        Endian::Little => {
            out.push(b0);
            out.push(b1);
            out.push(b2);
            out.push(b3);
        },
        Endian::Big => {
            out.push(b3);
            out.push(b2);
            out.push(b1);
            out.push(b0);
        },
    }
    assert(final(out)@ =~= old(out)@ + word(n, e));
}

/// The bits of a signed word survive a round trip through its unsigned form.
pub proof fn lemma_signed_bits(n: i32, w: u32)
    ensures
        (n as u32) as i32 == n,
        (w as i32) as u32 == w,
{
    assert((n as u32) as i32 == n) by (bit_vector);
    assert((w as i32) as u32 == w) by (bit_vector);
}

/// The encoding of a 16-bit word in byte order `e`.
pub open spec fn half(n: u16, e: Endian) -> Seq<u8> {
    let b0 = (n & 0xff) as u8;
    let b1 = ((n >> 8u16) & 0xff) as u8;
    match e {
        Endian::Little => seq![b0, b1],
        Endian::Big => seq![b1, b0],
    }
}

/// The 16-bit word whose little-endian bytes are `b0 b1`.
pub open spec fn half_of_le(b0: u8, b1: u8) -> u16 {
    (b0 as u16) | ((b1 as u16) << 8u16)
}

proof fn lemma_half_le(b0: u8, b1: u8, n: u16)
    ensures
        ((half_of_le(b0, b1) & 0xff) as u8 == b0) && (((half_of_le(b0, b1) >> 8u16) & 0xff) as u8 == b1),
        half_of_le((n & 0xff) as u8, ((n >> 8u16) & 0xff) as u8) == n,
{
    assert(((((b0 as u16) | ((b1 as u16) << 8u16)) & 0xff) as u8 == b0) && (((((b0 as u16) | ((b1 as u16)
        << 8u16)) >> 8u16) & 0xff) as u8 == b1) && ((((n & 0xff) as u8) as u16) | ((((n >> 8u16) & 0xff)
        as u8 as u16) << 8u16) == n)) by (bit_vector);
}

/// Two bytes and the 16-bit word they encode in byte order `e` determine each
/// other.
pub proof fn lemma_half(n: u16, b: Seq<u8>, e: Endian)
    ensures
        half(n, e).len() == 2,
        b.len() == 2 && b == half(n, e) ==> n == match e {
            Endian::Little => half_of_le(b[0], b[1]),
            Endian::Big => half_of_le(b[1], b[0]),
        },
        b.len() == 2 ==> b == half(
            match e {
                Endian::Little => half_of_le(b[0], b[1]),
                Endian::Big => half_of_le(b[1], b[0]),
            },
            e,
        ),
{
    if b.len() == 2 {
        match e {
            Endian::Little => lemma_half_le(b[0], b[1], n),
            Endian::Big => lemma_half_le(b[1], b[0], n),
        }
        let m = match e {
            Endian::Little => half_of_le(b[0], b[1]),
            Endian::Big => half_of_le(b[1], b[0]),
        };
        assert(half(m, e) =~= b);
    } else {
        lemma_half_le(0, 0, n);
    }
}

/// Reads the 16-bit word at `pos`, if two bytes remain before `lim`.
pub fn read_half(bytes: &[u8], pos: usize, lim: usize, e: Endian) -> (r: Option<u16>)
    requires
        pos <= lim <= bytes@.len(),
    ensures
        r is Some <==> lim - pos >= 2,
        r matches Some(n) ==> half(n, e) == bytes@.subrange(pos as int, pos + 2),
{
    if lim - pos < 2 {
        return None;
    }
    let (b0, b1) = match e {
        Endian::Little => (bytes[pos], bytes[pos + 1]),
        Endian::Big => (bytes[pos + 1], bytes[pos]),
    };
    let n: u16 = (b0 as u16) | ((b1 as u16) << 8u16);
    proof {
        lemma_half(n, bytes@.subrange(pos as int, pos + 2), e);
    }
    Some(n)
}

/// Appends the encoding of the 16-bit word `n` to `out`.
pub fn write_half(out: &mut Vec<u8>, n: u16, e: Endian)
    ensures
        final(out)@ == old(out)@ + half(n, e),
{
    let b0 = (n & 0xff) as u8;
    let b1 = ((n >> 8u16) & 0xff) as u8;
    match e {
        Endian::Little => {
            out.push(b0);
            out.push(b1);
        },
        Endian::Big => {
            out.push(b1);
            out.push(b0);
        },
    }
    assert(final(out)@ =~= old(out)@ + half(n, e));
}

} // verus!
