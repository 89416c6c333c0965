//! Reading and writing values by schema.

use vstd::prelude::*;
use crate::word::{Endian, word, word_value, lemma_word_bytes, read_word, write_word, lemma_word_value, lemma_word_injective, lemma_signed_bits};
use crate::model::{
    Schema, TagEntry, Val, Value, enc, enc_all, enc_header, enc_opt_str, enc_str, encodable,
    header_fits, known_tag, opt_bytes_view, skip, tag_fault, prefix, reads, reads_all, repeat, rest, str_fits, tags_distinct,
    value_view, values_view,
};
use crate::lemmas::{
    lemma_prefix_concat, lemma_prefix_split, lemma_prefix_same_len,
    lemma_str_unique, lemma_header_unique, lemma_reads_prefix, lemma_reads_unique,
    lemma_reads_all_unique,
};
use crate::seqs::{
    lemma_values_view, lemma_values_view_push, lemma_enc_all_push, lemma_all_encodable,
    lemma_reads_all_take, lemma_reads_all_push,
};

verus! {

/// Why a decode failed. Every failure aborts the whole decode.
#[derive(Debug, Clone, PartialEq, Eq)]
pub enum DecodeError {
    /// The scope ended while fields remained.
    UnexpectedEof,
    /// A discriminant, or a boolean, outside its range.
    InvalidVariant,
    /// A polymorphic record whose class name the registry does not know.
    UnsupportedTag(Vec<u8>),
}

/// The closed table of polymorphic record shapes, keyed by class name.
#[derive(Debug, PartialEq, Eq)]
pub struct Registry {
    pub entries: Vec<TagEntry>,
}

impl Registry {
    /// Class names are unique.
    pub open spec fn wf(&self) -> bool {
        tags_distinct(self.entries@)
    }

    pub open spec fn table(&self) -> Seq<TagEntry> {
        self.entries@
    }

    /// The index of the entry for `tag`.
    pub fn lookup(&self, tag: &[u8]) -> (r: Option<usize>)
        ensures
            r matches Some(i) ==> i < self.entries@.len() && self.entries@[i as int].tag@ == tag@,
            r is None ==> !known_tag(self.entries@, tag@),
    {
        let mut i: usize = 0;
        while i < self.entries.len()
            invariant
                i <= self.entries@.len(),
                forall|j: int| 0 <= j < i ==> self.entries@[j].tag@ != tag@,
            decreases self.entries@.len() - i,
        {
            if bytes_equal(self.entries[i].tag.as_slice(), tag) {
                return Some(i);
            }
            i += 1;
        }
        None
    }
}

/// Whether two byte strings are equal.
pub fn bytes_equal(a: &[u8], b: &[u8]) -> (r: bool)
    ensures
        r == (a@ == b@),
{
    if a.len() != b.len() {
        return false;
    }
    let mut i: usize = 0;
    while i < a.len()
        invariant
            a@.len() == b@.len(),
            i <= a@.len(),
            forall|j: int| 0 <= j < i ==> a@[j] == b@[j],
        decreases a@.len() - i,
    {
        if a[i] != b[i] {
            return false;
        }
        i += 1;
    }
    assert(a@ =~= b@);
    true
}

/// The bytes `bytes[from..to]`.
pub fn copy_range(bytes: &[u8], from: usize, to: usize) -> (r: Vec<u8>)
    requires
        from <= to <= bytes@.len(),
    ensures
        r@ == bytes@.subrange(from as int, to as int),
{
    let mut out: Vec<u8> = Vec::new();
    let mut i: usize = from;
    while i < to
        invariant
            from <= i <= to,
            to <= bytes@.len(),
            out@ == bytes@.subrange(from as int, i as int),
        decreases to - i,
    {
        out.push(bytes[i]);
        i += 1;
        assert(out@ =~= bytes@.subrange(from as int, i as int));
    }
    out
}

/// The scope `bytes[pos..lim]`.
pub open spec fn scope(bytes: Seq<u8>, pos: int, lim: int) -> Seq<u8> {
    bytes.subrange(pos, lim)
}

proof fn lemma_scope_rest(bytes: Seq<u8>, pos: int, cur: int, lim: int)
    requires
        0 <= pos <= cur <= lim <= bytes.len(),
    ensures
        scope(bytes, cur, lim) == rest(scope(bytes, pos, lim), cur - pos),
{
    assert(scope(bytes, cur, lim) =~= rest(scope(bytes, pos, lim), cur - pos));
}

/// Reads a length-prefixed string.
pub fn decode_str(bytes: &[u8], pos: usize, lim: usize, e: Endian) -> (r: Result<(Vec<u8>, usize), DecodeError>)
    requires
        pos <= lim <= bytes@.len(),
    ensures
        match r {
            Ok((t, end)) => str_fits(t@) && prefix(enc_str(t@, e), scope(bytes@, pos as int, lim as int))
                && end == pos + enc_str(t@, e).len(),
            Err(err) => err is UnexpectedEof && forall|t: Seq<u8>|
                str_fits(t) ==> !prefix(enc_str(t, e), #[trigger] scope(bytes@, pos as int, lim as int)),
        },
{
    let x = Ghost(scope(bytes@, pos as int, lim as int));
    let n = match read_word(bytes, pos, lim, e) {
        Some(n) => n,
        None => {
            proof {
                assert forall|t: Seq<u8>| str_fits(t) implies !prefix(enc_str(t, e), x@) by {
                    lemma_word_value(t.len() as u32, e);
                }
            }
            return Err(DecodeError::UnexpectedEof);
        },
    };
    proof {
        lemma_word_value(n, e);
        assert(word(n, e) =~= x@.subrange(0, 4));
    }
    if lim - pos - 4 < n as usize {
        proof {
            assert forall|t: Seq<u8>| str_fits(t) implies !prefix(enc_str(t, e), x@) by {
                if prefix(enc_str(t, e), x@) {
                    lemma_word_value(t.len() as u32, e);
                    lemma_prefix_split(word(t.len() as u32, e), t, x@);
                    lemma_prefix_same_len(word(t.len() as u32, e), word(n, e), x@);
                    lemma_word_injective(t.len() as u32, n, e);
                }
            }
        }
        return Err(DecodeError::UnexpectedEof);
    }
    let end = pos + 4 + n as usize;
    let t = copy_range(bytes, pos + 4, end);
    proof {
        assert(x@.subrange(0, enc_str(t@, e).len() as int) =~= enc_str(t@, e));
    }
    Ok((t, end))
}

/// Reads the header of a polymorphic record: class name, owner name and
/// optional owner class.
pub fn decode_header(bytes: &[u8], pos: usize, lim: usize, e: Endian) -> (r: Result<
    (Vec<u8>, Vec<u8>, Option<Vec<u8>>, usize),
    DecodeError,
>)
    requires
        pos <= lim <= bytes@.len(),
    ensures
        match r {
            Ok((c, o, k, end)) => {
                &&& header_fits(c@, o@, opt_bytes_view(k))
                &&& prefix(
                    enc_header(c@, o@, opt_bytes_view(k), e),
                    scope(bytes@, pos as int, lim as int),
                )
                &&& end == pos + enc_header(c@, o@, opt_bytes_view(k), e).len()
            },
            Err(err) => (err is UnexpectedEof || (err is InvalidVariant && lim - pos >= 12)) && forall|
                c: Seq<u8>,
                o: Seq<u8>,
                k: Option<Seq<u8>>,
            |
                header_fits(c, o, k) ==> !prefix(
                    #[trigger] enc_header(c, o, k, e),
                    scope(bytes@, pos as int, lim as int),
                ),
        },
{
    let x = Ghost(scope(bytes@, pos as int, lim as int));
    let (c, p1) = match decode_str(bytes, pos, lim, e) {
        Ok(cp) => cp,
        Err(err) => {
            proof {
                assert forall|c: Seq<u8>, o: Seq<u8>, k: Option<Seq<u8>>|
                    header_fits(c, o, k) implies !prefix(#[trigger] enc_header(c, o, k, e), x@) by {
                    if prefix(enc_header(c, o, k, e), x@) {
                        lemma_prefix_split(enc_str(c, e) + enc_str(o, e), enc_opt_str(k, e), x@);
                        lemma_prefix_split(enc_str(c, e), enc_str(o, e), x@);
                    }
                }
            }
            return Err(err);
        },
    };
    proof {
        lemma_scope_rest(bytes@, pos as int, p1 as int, lim as int);
    }
    let (o, p2) = match decode_str(bytes, p1, lim, e) {
        Ok(op) => op,
        Err(err) => {
            proof {
                assert forall|c2: Seq<u8>, o: Seq<u8>, k: Option<Seq<u8>>|
                    header_fits(c2, o, k) implies !prefix(#[trigger] enc_header(c2, o, k, e), x@) by {
                    if prefix(enc_header(c2, o, k, e), x@) {
                        lemma_prefix_split(enc_str(c2, e) + enc_str(o, e), enc_opt_str(k, e), x@);
                        lemma_prefix_split(enc_str(c2, e), enc_str(o, e), x@);
                        lemma_str_unique(c2, c@, x@, e);
                    }
                }
            }
            return Err(err);
        },
    };
    proof {
        lemma_scope_rest(bytes@, pos as int, p2 as int, lim as int);
        lemma_scope_rest(bytes@, p1 as int, p2 as int, lim as int);
        lemma_prefix_concat(enc_str(c@, e), enc_str(o@, e), x@);
        lemma_word_value(0, e);
        lemma_word_value(1, e);
    }
    let ghost front = enc_str(c@, e) + enc_str(o@, e);
    let d = read_word(bytes, p2, lim, e);
    let failed = Ghost(
        forall|k: Option<Seq<u8>>|
            #![trigger enc_opt_str(k, e)]
            (match k {
                Some(t) => str_fits(t),
                None => true,
            }) ==> !prefix(enc_opt_str(k, e), rest(x@, front.len() as int)),
    );
    proof {
        if failed@ {
            assert forall|c2: Seq<u8>, o2: Seq<u8>, k: Option<Seq<u8>>|
                header_fits(c2, o2, k) implies !prefix(#[trigger] enc_header(c2, o2, k, e), x@) by {
                if prefix(enc_header(c2, o2, k, e), x@) {
                    lemma_prefix_split(enc_str(c2, e) + enc_str(o2, e), enc_opt_str(k, e), x@);
                    lemma_prefix_split(enc_str(c2, e), enc_str(o2, e), x@);
                    lemma_str_unique(c2, c@, x@, e);
                    lemma_str_unique(o2, o@, rest(x@, enc_str(c@, e).len() as int), e);
                }
            }
        }
    }
    match d {
        None => {
            proof {
                assert(failed@);
            }
            return Err(DecodeError::UnexpectedEof);
        },
        Some(0u32) => {
            proof {
                let y = rest(x@, front.len() as int);
                assert(y == scope(bytes@, p2 as int, lim as int));
                lemma_word_value(0, e);
                assert(y.subrange(0, 4) =~= bytes@.subrange(p2 as int, p2 + 4));
                lemma_prefix_concat(front, enc_opt_str(None, e), x@);
            }
            return Ok((c, o, None, p2 + 4));
        },
        Some(1u32) => {
            proof {
                lemma_scope_rest(bytes@, p2 as int, (p2 + 4) as int, lim as int);
            }
            match decode_str(bytes, p2 + 4, lim, e) {
                Ok((t, p3)) => {
                    proof {
                        let y = rest(x@, front.len() as int);
                        assert(y == scope(bytes@, p2 as int, lim as int));
                        assert(y.subrange(0, 4) =~= bytes@.subrange(p2 as int, p2 + 4));
                        lemma_prefix_concat(word(1, e), enc_str(t@, e), y);
                        lemma_prefix_concat(front, enc_opt_str(Some(t@), e), x@);
                    }
                    return Ok((c, o, Some(t), p3));
                },
                Err(err) => {
                    proof {
                        assert forall|k: Option<Seq<u8>>|
                            (match k {
                                Some(t) => str_fits(t),
                                None => true,
                            }) implies !prefix(
                            #[trigger] enc_opt_str(k, e),
                            rest(x@, front.len() as int),
                        ) by {
                            let y = rest(x@, front.len() as int);
                            assert(y == scope(bytes@, p2 as int, lim as int));
                            if prefix(enc_opt_str(k, e), y) {
                                match k {
                                    Some(t) => {
                                        lemma_prefix_split(word(1, e), enc_str(t, e), y);
                                    },
                                    None => {
                                        lemma_prefix_same_len(word(0, e), word(1, e), y);
                                        lemma_word_injective(0, 1, e);
                                    },
                                }
                            }
                        }
                        assert(failed@);
                    }
                    return Err(err);
                },
            }
        },
        Some(_) => {
            proof {
                let y = rest(x@, front.len() as int);
                assert(y == scope(bytes@, p2 as int, lim as int));
                assert forall|k: Option<Seq<u8>>|
                    (match k {
                        Some(t) => str_fits(t),
                        None => true,
                    }) implies !prefix(#[trigger] enc_opt_str(k, e), y) by {
                    if prefix(enc_opt_str(k, e), y) {
                        match k {
                            Some(t) => {
                                lemma_prefix_split(word(1, e), enc_str(t, e), y);
                                lemma_prefix_same_len(word(1, e), word(d->0, e), y);
                                lemma_word_injective(1, d->0, e);
                            },
                            None => {
                                lemma_prefix_same_len(word(0, e), word(d->0, e), y);
                                lemma_word_injective(0, d->0, e);
                            },
                        }
                    }
                }
                assert(failed@);
            }
            return Err(DecodeError::InvalidVariant);
        },
    }
}

proof fn lemma_word_at(bytes: Seq<u8>, pos: int, lim: int, n: u32, e: Endian)
    requires
        0 <= pos,
        pos + 4 <= lim <= bytes.len(),
        word(n, e) == bytes.subrange(pos, pos + 4),
    ensures
        prefix(word(n, e), scope(bytes, pos, lim)),
        forall|m: u32| #[trigger] prefix(word(m, e), scope(bytes, pos, lim)) ==> m == n,
{
    lemma_word_value(n, e);
    assert(scope(bytes, pos, lim).subrange(0, 4) =~= bytes.subrange(pos, pos + 4));
    assert forall|m: u32| #[trigger] prefix(word(m, e), scope(bytes, pos, lim)) implies m == n by {
        lemma_word_value(m, e);
        lemma_word_injective(m, n, e);
    }
}

proof fn lemma_word_short(bytes: Seq<u8>, pos: int, lim: int, e: Endian)
    requires
        0 <= pos <= lim <= bytes.len(),
        lim - pos < 4,
    ensures
        forall|m: u32| !#[trigger] prefix(word(m, e), scope(bytes, pos, lim)),
{
    assert forall|m: u32| !#[trigger] prefix(word(m, e), scope(bytes, pos, lim)) by {
        lemma_word_value(m, e);
    }
}

/// Whether some value that `s` reads from the scope begins with a header that
/// names a class outside the table.
pub open spec fn unknown_tag_at(s: Schema, x: Seq<u8>, tbl: Seq<TagEntry>, e: Endian, c: Seq<u8>) -> bool {
    &&& s is Object
    &&& !known_tag(tbl, c)
    &&& exists|o: Seq<u8>, k: Option<Seq<u8>>|
        header_fits(c, o, k) && prefix(#[trigger] enc_header(c, o, k, e), x)
}

/// The fewest bytes that a value of schema `s` takes.
pub open spec fn min_len(s: Schema) -> nat {
    match s {
        Schema::U8 => 1,
        Schema::U16 => 2,
        Schema::Bool | Schema::I32 | Schema::U32 | Schema::F32 | Schema::Str => 4,
        Schema::Pad(n) => n as nat,
        Schema::Choice { count, wide } => if wide { 4 } else { 1 },
        Schema::List(_) | Schema::Opt(_) => 4,
        Schema::Object => 12,
        _ => 0,
    }
}

/// The discriminant that starts `x` is outside the range of schema `s`.
pub open spec fn out_of_range(s: Schema, x: Seq<u8>, e: Endian) -> bool {
    match s {
        Schema::Bool | Schema::Opt(_) => x.len() >= 4 && word_value(x.subrange(0, 4), e) > 1,
        Schema::Choice { count, wide } => if wide {
            x.len() >= 4 && word_value(x.subrange(0, 4), e) >= count
        } else {
            x.len() >= 1 && x[0] as u32 >= count
        },
        _ => false,
    }
}

/// Reads one value of schema `s` from `bytes[pos..lim]` in byte order `e`.
///
/// It succeeds exactly when some value is read there, and that value is then
/// unique; a polymorphic record whose class name is unknown fails with that name.
/// `r` is the failure that names the unknown class `c`.
pub open spec fn unsupported<T>(r: Result<T, DecodeError>, c: Seq<u8>) -> bool {
    r is Err && r->Err_0 is UnsupportedTag && r->Err_0->UnsupportedTag_0@ == c
}

/// Reading the fields `fs` from `x` meets, after the fields in front of it, a
/// field that meets a polymorphic record of unknown class `c`.
pub open spec fn fields_fault(fs: Seq<Schema>, x: Seq<u8>, tbl: Seq<TagEntry>, e: Endian, c: Seq<u8>) -> bool {
    exists|k: int, vs: Seq<Val>|
        0 <= k < fs.len() && #[trigger] reads_all(fs.subrange(0, k), vs, x, tbl, e) && tag_fault(
            fs[k],
            skip(x, enc_all(vs, e).len() as int),
            tbl,
            e,
            c,
        )
}

/// What `decode` promises for schema `s` on `bytes[pos..lim]`.
pub open spec fn decode_post(
    s: Schema,
    bytes: Seq<u8>,
    pos: int,
    lim: int,
    tbl: Seq<TagEntry>,
    e: Endian,
    r: Result<(Value, usize), DecodeError>,
) -> bool {
    &&& match r {
        Ok((v, end)) => reads(s, v@, scope(bytes, pos, lim), tbl, e) && end == pos + enc(v@, e).len(),
        Err(err) => forall|w: Val| !#[trigger] reads(s, w, scope(bytes, pos, lim), tbl, e),
    }
    &&& forall|c: Seq<u8>|
        #[trigger] unknown_tag_at(s, scope(bytes, pos, lim), tbl, e, c)
            ==> (r is Err && r->Err_0 is UnsupportedTag && r->Err_0->UnsupportedTag_0@ == c)
    &&& (r matches Err(DecodeError::UnsupportedTag(t)) ==> !known_tag(tbl, t@))
    &&& forall|c: Seq<u8>|
        #[trigger] tag_fault(s, scope(bytes, pos, lim), tbl, e, c) ==> unsupported(r, c)
    &&& (lim - pos < min_len(s) ==> r matches Err(DecodeError::UnexpectedEof))
    &&& (out_of_range(s, scope(bytes, pos, lim), e) ==> r matches Err(DecodeError::InvalidVariant))
}

pub fn decode(s: &Schema, reg: &Registry, bytes: &[u8], pos: usize, lim: usize, e: Endian) -> (r: Result<
    (Value, usize),
    DecodeError,
>)
    requires
        pos <= lim <= bytes@.len(),
        reg.wf(),
    ensures
        decode_post(*s, bytes@, pos as int, lim as int, reg.table(), e, r),
    decreases lim - pos, s, 2int,
{
    let ghost x = scope(bytes@, pos as int, lim as int);
    let ghost tbl = reg.table();
    match s {
        Schema::U8 => {
            if pos < lim {
                proof {
                    assert(x.subrange(0, 1) =~= seq![bytes@[pos as int]]);
                }
                let v = Value::U8(bytes[pos]);
                proof {
                    assert(reads(*s, v@, x, tbl, e));
                }
                Ok((v, pos + 1))
            } else {
                Err(DecodeError::UnexpectedEof)
            }
        },
        Schema::Bool => {
            match read_word(bytes, pos, lim, e) {
                None => {
                    proof {
                        lemma_word_short(bytes@, pos as int, lim as int, e);
                        assert forall|w: Val| !#[trigger] reads(*s, w, x, tbl, e) by {
                            if w is Bool {
                                assert(enc(w, e) == word(if w->Bool_0 { 1u32 } else { 0u32 }, e));
                            }
                        }
                    }
                    Err(DecodeError::UnexpectedEof)
                },
                Some(n) => {
                    proof {
                        lemma_word_at(bytes@, pos as int, lim as int, n, e);
                        lemma_word_value(n, e);
                    }
                    if n == 0 {
                        let v = Value::Bool(false);
                        proof {
                            assert(reads(*s, v@, x, tbl, e));
                        }
                        Ok((v, pos + 4))
                    } else if n == 1 {
                        let v = Value::Bool(true);
                        proof {
                            assert(reads(*s, v@, x, tbl, e));
                        }
                        Ok((v, pos + 4))
                    } else {
                        proof {
                            assert forall|w: Val| !#[trigger] reads(*s, w, x, tbl, e) by {
                                if w is Bool {
                                    assert(enc(w, e) == word(if w->Bool_0 { 1u32 } else { 0u32 }, e));
                                }
                            }
                        }
                        Err(DecodeError::InvalidVariant)
                    }
                },
            }
        },
        Schema::I32 | Schema::U32 | Schema::F32 => {
            match read_word(bytes, pos, lim, e) {
                None => {
                    proof {
                        lemma_word_short(bytes@, pos as int, lim as int, e);
                        assert forall|w: Val| !#[trigger] reads(*s, w, x, tbl, e) by {
                            if w is I32 {
                                assert(enc(w, e) == word(w->I32_0 as u32, e));
                            } else if w is U32 {
                                assert(enc(w, e) == word(w->U32_0, e));
                            } else if w is F32 {
                                assert(enc(w, e) == word(w->F32_0, e));
                            }
                        }
                    }
                    Err(DecodeError::UnexpectedEof)
                },
                Some(n) => {
                    proof {
                        lemma_word_at(bytes@, pos as int, lim as int, n, e);
                        lemma_word_value(n, e);
                        lemma_signed_bits(0, n);
                    }
                    let v = match s {
                        Schema::I32 => Value::I32(n as i32),
                        Schema::U32 => Value::U32(n),
                        _ => Value::F32(n),
                    };
                    proof {
                        assert(reads(*s, v@, x, tbl, e));
                    }
                    Ok((v, pos + 4))
                },
            }
        },
        Schema::U16 => {
            match crate::word::read_half(bytes, pos, lim, e) {
                None => {
                    proof {
                        assert forall|w: Val| !#[trigger] reads(*s, w, x, tbl, e) by {
                            if w is U16 {
                                crate::word::lemma_half(w->U16_0, x, e);
                            }
                        }
                    }
                    Err(DecodeError::UnexpectedEof)
                },
                Some(n) => {
                    let v = Value::U16(n);
                    proof {
                        crate::word::lemma_half(n, x, e);
                        assert(x.subrange(0, 2) =~= bytes@.subrange(pos as int, pos + 2));
                        assert(reads(*s, v@, x, tbl, e));
                    }
                    Ok((v, pos + 2))
                },
            }
        },
        Schema::Rest => {
            let t = copy_range(bytes, pos, lim);
            let v = Value::Pad(t);
            proof {
                assert(reads(*s, v@, x, tbl, e));
            }
            Ok((v, lim))
        },
        Schema::Str => {
            match decode_str(bytes, pos, lim, e) {
                Ok((t, end)) => {
                    let v = Value::Str(t);
                    proof {
                        assert(reads(*s, v@, x, tbl, e));
                    }
                    Ok((v, end))
                },
                Err(err) => {
                    proof {
                        assert forall|w: Val| !#[trigger] reads(*s, w, x, tbl, e) by {
                            if w is Str {
                                assert(enc(w, e) == enc_str(w->Str_0, e));
                            }
                        }
                    }
                    Err(err)
                },
            }
        },
        Schema::Pad(n) => {
            if lim - pos < *n {
                Err(DecodeError::UnexpectedEof)
            } else {
                let t = copy_range(bytes, pos, pos + *n);
                proof {
                    assert(x.subrange(0, *n as int) =~= t@);
                }
                let v = Value::Pad(t);
                proof {
                    assert(reads(*s, v@, x, tbl, e));
                }
                Ok((v, pos + *n))
            }
        },
        Schema::Choice { count, wide } => {
            if *wide {
                match read_word(bytes, pos, lim, e) {
                    None => {
                        proof {
                            lemma_word_short(bytes@, pos as int, lim as int, e);
                            assert forall|w: Val| !#[trigger] reads(*s, w, x, tbl, e) by {
                                if w is U32 {
                                    assert(enc(w, e) == word(w->U32_0, e));
                                }
                            }
                        }
                        Err(DecodeError::UnexpectedEof)
                    },
                    Some(d) => {
                        proof {
                            lemma_word_at(bytes@, pos as int, lim as int, d, e);
                            lemma_word_value(d, e);
                        }
                        if d < *count {
                            let v = Value::U32(d);
                            proof {
                                assert(reads(*s, v@, x, tbl, e));
                            }
                            Ok((v, pos + 4))
                        } else {
                            proof {
                                assert forall|w: Val| !#[trigger] reads(*s, w, x, tbl, e) by {
                                    if w is U32 {
                                        assert(enc(w, e) == word(w->U32_0, e));
                                    }
                                }
                            }
                            Err(DecodeError::InvalidVariant)
                        }
                    },
                }
            } else if pos < lim {
                let d = bytes[pos];
                proof {
                    assert(x.subrange(0, 1) =~= seq![d]);
                }
                if (d as u32) < *count {
                    let v = Value::U8(d);
                    proof {
                        assert(reads(*s, v@, x, tbl, e));
                    }
                    Ok((v, pos + 1))
                } else {
                    proof {
                        assert forall|w: Val| !#[trigger] reads(*s, w, x, tbl, e) by {
                            if w is U8 && prefix(enc(w, e), x) {
                                assert(enc(w, e)[0] == x.subrange(0, 1)[0]);
                            }
                        }
                    }
                    Err(DecodeError::InvalidVariant)
                }
            } else {
                Err(DecodeError::UnexpectedEof)
            }
        },
        Schema::Record(_) => decode_record(s, reg, bytes, pos, lim, e),
        Schema::List(_) => decode_list(s, reg, bytes, pos, lim, e),
        Schema::Opt(_) => decode_opt(s, reg, bytes, pos, lim, e),
        Schema::Trailing(_) => decode_trailing(s, reg, bytes, pos, lim, e),
        Schema::Object => decode_object(s, reg, bytes, pos, lim, e),
    }
}

#[verifier::rlimit(60)]
fn decode_record(s: &Schema, reg: &Registry, bytes: &[u8], pos: usize, lim: usize, e: Endian) -> (r: Result<
    (Value, usize),
    DecodeError,
>)
    requires
        pos <= lim <= bytes@.len(),
        reg.wf(),
        s is Record,
    ensures
        decode_post(*s, bytes@, pos as int, lim as int, reg.table(), e, r),
    decreases lim - pos, s, 1int,
{
    let ghost x = scope(bytes@, pos as int, lim as int);
    let ghost tbl = reg.table();
    match s {
        Schema::Record(fs) => {
            let r = decode_fields(fs, reg, bytes, pos, lim, e);
            proof {
                assert forall|c: Seq<u8>| #[trigger] tag_fault(*s, x, tbl, e, c) implies unsupported(r, c) by {
                    assert(fields_fault(fs@, x, tbl, e, c));
                }
            }
            match r {
                Ok((vs, end)) => {
                    let v = Value::Record(vs);
                    proof {
                        assert(reads(*s, v@, x, tbl, e));
                    }
                    Ok((v, end))
                },
                Err(err) => {
                    proof {
                        assert forall|w: Val| !#[trigger] reads(*s, w, x, tbl, e) by {
                            if w is Record {
                                assert(!reads_all(fs@, w->Record_0, x, tbl, e));
                            }
                        }
                    }
                    Err(err)
                },
            }
        },
        _ => Err(DecodeError::UnexpectedEof),
    }
}

#[verifier::rlimit(60)]
fn decode_list(s: &Schema, reg: &Registry, bytes: &[u8], pos: usize, lim: usize, e: Endian) -> (r: Result<
    (Value, usize),
    DecodeError,
>)
    requires
        pos <= lim <= bytes@.len(),
        reg.wf(),
        s is List,
    ensures
        decode_post(*s, bytes@, pos as int, lim as int, reg.table(), e, r),
    decreases lim - pos, s, 1int,
{
    let ghost x = scope(bytes@, pos as int, lim as int);
    let ghost tbl = reg.table();
    match s {
        Schema::List(el) => {
            let n = match read_word(bytes, pos, lim, e) {
                Some(n) => n,
                None => {
                    proof {
                        lemma_word_short(bytes@, pos as int, lim as int, e);
                        assert forall|w: Val| !#[trigger] reads(*s, w, x, tbl, e) by {
                            if w is List {
                                assert(prefix(word(w->List_0.len() as u32, e), x) == false);
                            }
                        }
                    }
                    return Err(DecodeError::UnexpectedEof);
                },
            };
            proof {
                lemma_word_at(bytes@, pos as int, lim as int, n, e);
                lemma_word_value(n, e);
                lemma_scope_rest(bytes@, pos as int, pos + 4, lim as int);
            }
            let r = decode_items(el, n as usize, reg, bytes, pos + 4, lim, e);
            proof {
                lemma_word_bytes(x.subrange(0, 4), e);
                assert(x.subrange(0, 4) == word(n, e));
                assert(word_value(x.subrange(0, 4), e) == n);
                assert(skip(x, 4) == scope(bytes@, pos + 4, lim as int));
                assert forall|c: Seq<u8>| #[trigger] tag_fault(*s, x, tbl, e, c) implies unsupported(r, c) by {
                    let (k, vs) = choose|k: int, vs: Seq<Val>|
                        0 <= k < word_value(x.subrange(0, 4), e) && #[trigger] reads_all(
                            repeat(**el, k as nat),
                            vs,
                            skip(x, 4),
                            tbl,
                            e,
                        ) && tag_fault(**el, skip(skip(x, 4), enc_all(vs, e).len() as int), tbl, e, c);
                    let fs = repeat(**el, (n as usize) as nat);
                    assert(fs.subrange(0, k) =~= repeat(**el, k as nat));
                    assert(fs[k] == **el);
                    assert(fields_fault(fs, scope(bytes@, pos + 4, lim as int), tbl, e, c));
                }
            }
            match r {
                Ok((vs, end)) => {
                    proof {
                        lemma_values_view(vs@);
                        let vv = values_view(vs@);
                        assert(repeat(**el, n as nat) =~= repeat(**el, vv.len()));
                    }
                    let v = Value::List(vs);
                    proof {
                        assert(reads(*s, v@, x, tbl, e));
                    }
                    Ok((v, end))
                },
                Err(err) => {
                    proof {
                        assert forall|w: Val| !#[trigger] reads(*s, w, x, tbl, e) by {
                            if reads(*s, w, x, tbl, e) {
                                let ws = w->List_0;
                                assert(prefix(word(ws.len() as u32, e), x));
                                assert(ws.len() as u32 == n);
                                assert(ws.len() == (n as usize) as nat);
                                assert(!reads_all(
                                    repeat(**el, (n as usize) as nat),
                                    ws,
                                    scope(bytes@, pos + 4, lim as int),
                                    tbl,
                                    e,
                                ));
                            }
                        }
                    }
                    Err(err)
                },
            }
        },
        _ => Err(DecodeError::UnexpectedEof),
    }
}

#[verifier::rlimit(60)]
fn decode_opt(s: &Schema, reg: &Registry, bytes: &[u8], pos: usize, lim: usize, e: Endian) -> (r: Result<
    (Value, usize),
    DecodeError,
>)
    requires
        pos <= lim <= bytes@.len(),
        reg.wf(),
        s is Opt,
    ensures
        decode_post(*s, bytes@, pos as int, lim as int, reg.table(), e, r),
    decreases lim - pos, s, 1int,
{
    let ghost x = scope(bytes@, pos as int, lim as int);
    let ghost tbl = reg.table();
    match s {
        Schema::Opt(inner) => {
            let d = match read_word(bytes, pos, lim, e) {
                Some(d) => d,
                None => {
                    proof {
                        lemma_word_short(bytes@, pos as int, lim as int, e);
                        assert forall|w: Val| !#[trigger] reads(*s, w, x, tbl, e) by {
                            assert(!prefix(word(0, e), x));
                            assert(!prefix(word(1, e), x));
                        }
                        assert forall|c: Seq<u8>| !#[trigger] tag_fault(*s, x, tbl, e, c) by {
                            assert(!prefix(word(1, e), x));
                        }
                    }
                    return Err(DecodeError::UnexpectedEof);
                },
            };
            proof {
                lemma_word_at(bytes@, pos as int, lim as int, d, e);
                lemma_word_value(0, e);
                lemma_word_value(1, e);
                lemma_scope_rest(bytes@, pos as int, pos + 4, lim as int);
                assert(skip(x, 4) == scope(bytes@, pos + 4, lim as int));
                if d != 1 {
                    assert forall|c: Seq<u8>| !#[trigger] tag_fault(*s, x, tbl, e, c) by {
                        if tag_fault(*s, x, tbl, e, c) {
                            assert(prefix(word(1, e), x));
                        }
                    }
                }
            }
            if d == 0 {
                Ok((Value::Opt(None), pos + 4))
            } else if d == 1 {
                let r = decode(inner, reg, bytes, pos + 4, lim, e);
                proof {
                    assert forall|c: Seq<u8>| #[trigger] tag_fault(*s, x, tbl, e, c) implies unsupported(r, c) by {
                        assert(tag_fault(**inner, scope(bytes@, pos + 4, lim as int), tbl, e, c));
                    }
                }
                match r {
                    Ok((w, end)) => {
                        let v = Value::Opt(Some(Box::new(w)));
                        proof {
                            assert(reads(*s, v@, x, tbl, e));
                        }
                        Ok((v, end))
                    },
                    Err(err) => {
                        proof {
                            assert forall|w: Val| !#[trigger] reads(*s, w, x, tbl, e) by {
                                if let Val::Opt(Some(b)) = w {
                                    assert(!reads(**inner, *b, scope(bytes@, pos + 4, lim as int), tbl, e));
                                } else {
                                    assert(!prefix(word(0, e), x));
                                }
                            }
                        }
                        Err(err)
                    },
                }
            } else {
                proof {
                    assert forall|w: Val| !#[trigger] reads(*s, w, x, tbl, e) by {
                        assert(!prefix(word(0, e), x));
                        assert(!prefix(word(1, e), x));
                    }
                }
                Err(DecodeError::InvalidVariant)
            }
        },
        _ => Err(DecodeError::UnexpectedEof),
    }
}

#[verifier::rlimit(60)]
fn decode_trailing(s: &Schema, reg: &Registry, bytes: &[u8], pos: usize, lim: usize, e: Endian) -> (r: Result<
    (Value, usize),
    DecodeError,
>)
    requires
        pos <= lim <= bytes@.len(),
        reg.wf(),
        s is Trailing,
    ensures
        decode_post(*s, bytes@, pos as int, lim as int, reg.table(), e, r),
    decreases lim - pos, s, 1int,
{
    let ghost x = scope(bytes@, pos as int, lim as int);
    let ghost tbl = reg.table();
    match s {
        Schema::Trailing(inner) => {
            if pos == lim {
                let v = Value::Trailing(None);
                proof {
                    assert(reads(*s, v@, x, tbl, e));
                }
                return Ok((v, pos));
            }
            let r = decode(inner, reg, bytes, pos, lim, e);
            proof {
                assert forall|c: Seq<u8>| #[trigger] tag_fault(*s, x, tbl, e, c) implies unsupported(r, c) by {
                    assert(tag_fault(**inner, scope(bytes@, pos as int, lim as int), tbl, e, c));
                }
            }
            match r {
                Ok((w, end)) => {
                    if end == pos {
                        proof {
                            assert forall|w2: Val| !#[trigger] reads(*s, w2, x, tbl, e) by {
                                if let Val::Trailing(Some(b)) = w2 {
                                    if reads(*s, w2, x, tbl, e) {
                                        lemma_reads_unique(**inner, *b, w@, x, tbl, e);
                                    }
                                }
                            }
                        }
                        Err(DecodeError::InvalidVariant)
                    } else {
                        let v = Value::Trailing(Some(Box::new(w)));
                        proof {
                            assert(reads(*s, v@, x, tbl, e));
                        }
                        Ok((v, end))
                    }
                },
                Err(err) => {
                    proof {
                        assert forall|w: Val| !#[trigger] reads(*s, w, x, tbl, e) by {
                            if let Val::Trailing(Some(b)) = w {
                                assert(!reads(**inner, *b, x, tbl, e));
                            }
                        }
                    }
                    Err(err)
                },
            }
        },
        _ => Err(DecodeError::UnexpectedEof),
    }
}

#[verifier::rlimit(60)]
fn decode_object(s: &Schema, reg: &Registry, bytes: &[u8], pos: usize, lim: usize, e: Endian) -> (r: Result<
    (Value, usize),
    DecodeError,
>)
    requires
        pos <= lim <= bytes@.len(),
        reg.wf(),
        s is Object,
    ensures
        decode_post(*s, bytes@, pos as int, lim as int, reg.table(), e, r),
    decreases lim - pos, s, 1int,
{
    let ghost x = scope(bytes@, pos as int, lim as int);
    let ghost tbl = reg.table();
    match s {
        Schema::Object => {
            let (c, o, k, hend) = match decode_header(bytes, pos, lim, e) {
                Ok(h) => h,
                Err(err) => {
                    proof {
                        assert forall|w: Val| !#[trigger] reads(*s, w, x, tbl, e) by {
                            if let Val::Object { class, owner, owner_class, payload } = w {
                                assert(!prefix(enc_header(class, owner, owner_class, e), x) || !header_fits(class, owner, owner_class));
                            }
                        }
                        assert forall|c2: Seq<u8>| !#[trigger] tag_fault(*s, x, tbl, e, c2) by {
                            if tag_fault(*s, x, tbl, e, c2) {
                                let (c0, o2, k2) = choose|c0: Seq<u8>, o2: Seq<u8>, k2: Option<Seq<u8>>|
                                    header_fits(c0, o2, k2) && #[trigger] prefix(enc_header(c0, o2, k2, e), x) && if known_tag(tbl, c0) {
                                        exists|i: int|
                                            0 <= i < tbl.len() && tbl[i].tag@ == c0 && tag_fault(
                                                tbl[i].shape,
                                                skip(x, enc_header(c0, o2, k2, e).len() as int),
                                                tbl,
                                                e,
                                                c2,
                                            )
                                    } else {
                                        c0 == c2
                                    };
                                assert(!prefix(enc_header(c0, o2, k2, e), x));
                            }
                        }
                    }
                    return Err(err);
                },
            };
            let ghost kv = opt_bytes_view(k);
            proof {
                lemma_word_value(c@.len() as u32, e);
                lemma_word_value(o@.len() as u32, e);
                lemma_scope_rest(bytes@, pos as int, hend as int, lim as int);
            }
            match reg.lookup(c.as_slice()) {
                None => {
                    proof {
                        assert forall|w: Val| !#[trigger] reads(*s, w, x, tbl, e) by {
                            if let Val::Object { class, owner, owner_class, payload } = w {
                                if reads(*s, w, x, tbl, e) {
                                    lemma_header_unique(class, owner, owner_class, c@, o@, kv, x, e);
                                }
                            }
                        }
                        assert forall|c2: Seq<u8>| #[trigger] tag_fault(*s, x, tbl, e, c2) implies c2 == c@ by {
                            let (c0, o2, k2) = choose|c0: Seq<u8>, o2: Seq<u8>, k2: Option<Seq<u8>>|
                                header_fits(c0, o2, k2) && #[trigger] prefix(enc_header(c0, o2, k2, e), x) && if known_tag(tbl, c0) {
                                    exists|i: int|
                                        0 <= i < tbl.len() && tbl[i].tag@ == c0 && tag_fault(
                                            tbl[i].shape,
                                            skip(x, enc_header(c0, o2, k2, e).len() as int),
                                            tbl,
                                            e,
                                            c2,
                                        )
                                } else {
                                    c0 == c2
                                };
                            lemma_header_unique(c0, o2, k2, c@, o@, kv, x, e);
                        }
                        assert forall|c2: Seq<u8>|
                            #[trigger] unknown_tag_at(*s, x, tbl, e, c2) implies c2 == c@ by {
                            let (o2, k2) = choose|o2: Seq<u8>, k2: Option<Seq<u8>>|
                                header_fits(c2, o2, k2) && prefix(enc_header(c2, o2, k2, e), x);
                            lemma_header_unique(c2, o2, k2, c@, o@, kv, x, e);
                        }
                    }
                    Err(DecodeError::UnsupportedTag(c))
                },
                Some(i) => {
                    proof {
                        assert forall|c2: Seq<u8>| !#[trigger] unknown_tag_at(*s, x, tbl, e, c2) by {
                            if unknown_tag_at(*s, x, tbl, e, c2) {
                                let (o2, k2) = choose|o2: Seq<u8>, k2: Option<Seq<u8>>|
                                    header_fits(c2, o2, k2) && prefix(enc_header(c2, o2, k2, e), x);
                                lemma_header_unique(c2, o2, k2, c@, o@, kv, x, e);
                            }
                        }
                    }
                    let r = decode(&reg.entries[i].shape, reg, bytes, hend, lim, e);
                    proof {
                        assert(skip(x, (hend - pos) as int) == scope(bytes@, hend as int, lim as int));
                        assert forall|c2: Seq<u8>| #[trigger] tag_fault(*s, x, tbl, e, c2) implies unsupported(r, c2) by {
                            let (c0, o2, k2) = choose|c0: Seq<u8>, o2: Seq<u8>, k2: Option<Seq<u8>>|
                                header_fits(c0, o2, k2) && #[trigger] prefix(enc_header(c0, o2, k2, e), x) && if known_tag(tbl, c0) {
                                    exists|i: int|
                                        0 <= i < tbl.len() && tbl[i].tag@ == c0 && tag_fault(
                                            tbl[i].shape,
                                            skip(x, enc_header(c0, o2, k2, e).len() as int),
                                            tbl,
                                            e,
                                            c2,
                                        )
                                } else {
                                    c0 == c2
                                };
                            lemma_header_unique(c0, o2, k2, c@, o@, kv, x, e);
                            assert(known_tag(tbl, c0));
                            let j = choose|j: int|
                                0 <= j < tbl.len() && tbl[j].tag@ == c0 && tag_fault(
                                    tbl[j].shape,
                                    skip(x, enc_header(c0, o2, k2, e).len() as int),
                                    tbl,
                                    e,
                                    c2,
                                );
                            assert(j == i);
                            assert(tag_fault(tbl[i as int].shape, scope(bytes@, hend as int, lim as int), tbl, e, c2));
                        }
                    }
                    match r {
                        Ok((p, end)) => {
                            let v = Value::Object { class: c, owner: o, owner_class: k, payload: Box::new(p) };
                            proof {
                                lemma_reads_prefix(tbl[i as int].shape, p@, rest(x, (hend - pos) as int), tbl, e);
                                assert(reads(*s, v@, x, tbl, e));
                            }
                            Ok((v, end))
                        },
                        Err(err) => {
                            proof {
                                assert forall|w: Val| !#[trigger] reads(*s, w, x, tbl, e) by {
                                    if let Val::Object { class, owner, owner_class, payload } = w {
                                        if reads(*s, w, x, tbl, e) {
                                            lemma_header_unique(class, owner, owner_class, c@, o@, kv, x, e);
                                            let j = choose|j: int|
                                                0 <= j < tbl.len() && tbl[j].tag@ == class && reads(
                                                    tbl[j].shape,
                                                    *payload,
                                                    rest(x, enc_header(class, owner, owner_class, e).len() as int),
                                                    tbl,
                                                    e,
                                                );
                                            assert(j == i);
                                        }
                                    }
                                }
                            }
                            Err(err)
                        },
                    }
                },
            }
        },
        _ => Err(DecodeError::UnexpectedEof),
    }
}

/// A read of `k` leading fields, set against a read of the first `i <= k`:
/// they agree on the first `i`, and the `i`-th field is read right after them.
proof fn lemma_fields_agree(
    fs: Seq<Schema>,
    x: Seq<u8>,
    tbl: Seq<TagEntry>,
    e: Endian,
    vv: Seq<Val>,
    i: int,
    vs: Seq<Val>,
    k: int,
)
    requires
        tags_distinct(tbl),
        0 <= i <= k < fs.len(),
        reads_all(fs.subrange(0, i), vv, x, tbl, e),
        reads_all(fs.subrange(0, k), vs, x, tbl, e),
    ensures
        k == i ==> vs == vv,
        k > i ==> reads(fs[i], vs[i], rest(x, enc_all(vv, e).len() as int), tbl, e),
{
    if k == i {
        lemma_reads_all_unique(fs.subrange(0, i), vs, vv, x, tbl, e);
    } else {
        lemma_reads_all_take(fs.subrange(0, k), vs, x, tbl, e, i);
        assert(fs.subrange(0, k).subrange(0, i) =~= fs.subrange(0, i));
        lemma_reads_all_unique(fs.subrange(0, i), vs.subrange(0, i), vv, x, tbl, e);
    }
}

/// Reads the fields `fs` one after the other from `bytes[pos..lim]`.
pub fn decode_fields(fs: &Vec<Schema>, reg: &Registry, bytes: &[u8], pos: usize, lim: usize, e: Endian) -> (r: Result<
    (Vec<Value>, usize),
    DecodeError,
>)
    requires
        pos <= lim <= bytes@.len(),
        reg.wf(),
    ensures
        match r {
            Ok((vs, end)) => reads_all(fs@, values_view(vs@), scope(bytes@, pos as int, lim as int), reg.table(), e)
                && end == pos + enc_all(values_view(vs@), e).len(),
            Err(err) => forall|ws: Seq<Val>|
                !#[trigger] reads_all(fs@, ws, scope(bytes@, pos as int, lim as int), reg.table(), e),
        },
        r matches Err(DecodeError::UnsupportedTag(t)) ==> !known_tag(reg.table(), t@),
        forall|c: Seq<u8>|
            #[trigger] fields_fault(fs@, scope(bytes@, pos as int, lim as int), reg.table(), e, c) ==> unsupported(r, c),
    decreases lim - pos, fs, 3int,
{
    let ghost x = scope(bytes@, pos as int, lim as int);
    let ghost tbl = reg.table();
    let mut vals: Vec<Value> = Vec::new();
    let mut cur = pos;
    let mut i: usize = 0;
    proof {
        assert(fs@.subrange(0, 0) =~= Seq::<Schema>::empty());
    }
    while i < fs.len()
        invariant
            pos <= cur <= lim <= bytes@.len(),
            reg.wf(),
            tbl == reg.table(),
            x == scope(bytes@, pos as int, lim as int),
            i <= fs@.len(),
            vals@.len() == i,
            reads_all(fs@.subrange(0, i as int), values_view(vals@), x, tbl, e),
            cur == pos + enc_all(values_view(vals@), e).len(),
            forall|k: int, vs: Seq<Val>, c: Seq<u8>|
                #![trigger reads_all(fs@.subrange(0, k), vs, x, tbl, e), tag_fault(fs@[k], skip(x, enc_all(vs, e).len() as int), tbl, e, c)]
                0 <= k < i && reads_all(fs@.subrange(0, k), vs, x, tbl, e) ==> !tag_fault(
                    fs@[k],
                    skip(x, enc_all(vs, e).len() as int),
                    tbl,
                    e,
                    c,
                ),
        decreases fs@.len() - i,
    {
        proof {
            lemma_scope_rest(bytes@, pos as int, cur as int, lim as int);
            assert(skip(x, cur - pos) == scope(bytes@, cur as int, lim as int));
        }
        let r0 = decode(&fs[i], reg, bytes, cur, lim, e);
        match r0 {
            Ok((v, end)) => {
                proof {
                    lemma_reads_all_push(fs@.subrange(0, i as int), values_view(vals@), fs@[i as int], v@, x, tbl, e);
                    assert(fs@.subrange(0, i as int).push(fs@[i as int]) =~= fs@.subrange(0, i + 1));
                    lemma_values_view_push(vals@, v);
                    lemma_enc_all_push(values_view(vals@), v@, e);
                    lemma_reads_prefix(fs@[i as int], v@, scope(bytes@, cur as int, lim as int), tbl, e);
                }
                proof {
                    assert forall|k: int, vs: Seq<Val>, c: Seq<u8>|
                        0 <= k < i + 1 && #[trigger] reads_all(fs@.subrange(0, k), vs, x, tbl, e) implies !#[trigger] tag_fault(
                            fs@[k],
                            skip(x, enc_all(vs, e).len() as int),
                            tbl,
                            e,
                            c,
                        ) by {
                        if k == i {
                            lemma_fields_agree(fs@, x, tbl, e, values_view(vals@), i as int, vs, k);
                        }
                    }
                }
                vals.push(v);
                cur = end;
            },
            Err(err) => {
                proof {
                    assert forall|ws: Seq<Val>| !#[trigger] reads_all(fs@, ws, x, tbl, e) by {
                        if reads_all(fs@, ws, x, tbl, e) {
                            lemma_reads_all_take(fs@, ws, x, tbl, e, i as int);
                            lemma_reads_all_unique(
                                fs@.subrange(0, i as int),
                                ws.subrange(0, i as int),
                                values_view(vals@),
                                x,
                                tbl,
                                e,
                            );
                        }
                    }
                }
                proof {
                    assert forall|c: Seq<u8>| #[trigger] fields_fault(fs@, x, tbl, e, c) implies unsupported(r0, c) by {
                        let (k, vs) = choose|k: int, vs: Seq<Val>|
                            0 <= k < fs@.len() && #[trigger] reads_all(fs@.subrange(0, k), vs, x, tbl, e) && tag_fault(
                                fs@[k],
                                skip(x, enc_all(vs, e).len() as int),
                                tbl,
                                e,
                                c,
                            );
                        if k >= i {
                            lemma_fields_agree(fs@, x, tbl, e, values_view(vals@), i as int, vs, k);
                        }
                    }
                }
                return Err(err);
            },
        }
        i += 1;
    }
    proof {
        assert(fs@.subrange(0, fs@.len() as int) =~= fs@);
    }
    proof {
        assert forall|c: Seq<u8>| !#[trigger] fields_fault(fs@, x, tbl, e, c) by {
            if fields_fault(fs@, x, tbl, e, c) {
                let (k, vs) = choose|k: int, vs: Seq<Val>|
                    0 <= k < fs@.len() && #[trigger] reads_all(fs@.subrange(0, k), vs, x, tbl, e) && tag_fault(
                        fs@[k],
                        skip(x, enc_all(vs, e).len() as int),
                        tbl,
                        e,
                        c,
                    );
            }
        }
    }
    Ok((vals, cur))
}

/// Reads `n` values of schema `el` one after the other from `bytes[pos..lim]`.
pub fn decode_items(el: &Schema, n: usize, reg: &Registry, bytes: &[u8], pos: usize, lim: usize, e: Endian) -> (r: Result<
    (Vec<Value>, usize),
    DecodeError,
>)
    requires
        pos <= lim <= bytes@.len(),
        reg.wf(),
    ensures
        match r {
            Ok((vs, end)) => reads_all(repeat(*el, n as nat), values_view(vs@), scope(bytes@, pos as int, lim as int), reg.table(), e)
                && end == pos + enc_all(values_view(vs@), e).len(),
            Err(err) => forall|ws: Seq<Val>|
                !#[trigger] reads_all(repeat(*el, n as nat), ws, scope(bytes@, pos as int, lim as int), reg.table(), e),
        },
        r matches Err(DecodeError::UnsupportedTag(t)) ==> !known_tag(reg.table(), t@),
        forall|c: Seq<u8>|
            #[trigger] fields_fault(repeat(*el, n as nat), scope(bytes@, pos as int, lim as int), reg.table(), e, c)
                ==> unsupported(r, c),
    decreases lim - pos, el, 3int,
{
    let ghost x = scope(bytes@, pos as int, lim as int);
    let ghost tbl = reg.table();
    let ghost fs = repeat(*el, n as nat);
    let mut vals: Vec<Value> = Vec::new();
    let mut cur = pos;
    let mut i: usize = 0;
    proof {
        assert(fs.subrange(0, 0) =~= Seq::<Schema>::empty());
    }
    while i < n
        invariant
            pos <= cur <= lim <= bytes@.len(),
            reg.wf(),
            tbl == reg.table(),
            x == scope(bytes@, pos as int, lim as int),
            fs == repeat(*el, n as nat),
            i <= n,
            vals@.len() == i,
            reads_all(fs.subrange(0, i as int), values_view(vals@), x, tbl, e),
            cur == pos + enc_all(values_view(vals@), e).len(),
            forall|k: int, vs: Seq<Val>, c: Seq<u8>|
                #![trigger reads_all(fs.subrange(0, k), vs, x, tbl, e), tag_fault(fs[k], skip(x, enc_all(vs, e).len() as int), tbl, e, c)]
                0 <= k < i && reads_all(fs.subrange(0, k), vs, x, tbl, e) ==> !tag_fault(
                    fs[k],
                    skip(x, enc_all(vs, e).len() as int),
                    tbl,
                    e,
                    c,
                ),
        decreases n - i,
    {
        proof {
            lemma_scope_rest(bytes@, pos as int, cur as int, lim as int);
            assert(skip(x, cur - pos) == scope(bytes@, cur as int, lim as int));
        }
        let r0 = decode(el, reg, bytes, cur, lim, e);
        match r0 {
            Ok((v, end)) => {
                proof {
                    lemma_reads_all_push(fs.subrange(0, i as int), values_view(vals@), *el, v@, x, tbl, e);
                    assert(fs.subrange(0, i as int).push(*el) =~= fs.subrange(0, i + 1));
                    lemma_values_view_push(vals@, v);
                    lemma_enc_all_push(values_view(vals@), v@, e);
                    lemma_reads_prefix(*el, v@, scope(bytes@, cur as int, lim as int), tbl, e);
                }
                proof {
                    assert forall|k: int, vs: Seq<Val>, c: Seq<u8>|
                        0 <= k < i + 1 && #[trigger] reads_all(fs.subrange(0, k), vs, x, tbl, e) implies !#[trigger] tag_fault(
                            fs[k],
                            skip(x, enc_all(vs, e).len() as int),
                            tbl,
                            e,
                            c,
                        ) by {
                        if k == i {
                            lemma_fields_agree(fs, x, tbl, e, values_view(vals@), i as int, vs, k);
                        }
                    }
                }
                vals.push(v);
                cur = end;
            },
            Err(err) => {
                proof {
                    assert forall|ws: Seq<Val>| !#[trigger] reads_all(fs, ws, x, tbl, e) by {
                        if reads_all(fs, ws, x, tbl, e) {
                            lemma_reads_all_take(fs, ws, x, tbl, e, i as int);
                            lemma_reads_all_unique(
                                fs.subrange(0, i as int),
                                ws.subrange(0, i as int),
                                values_view(vals@),
                                x,
                                tbl,
                                e,
                            );
                        }
                    }
                }
                proof {
                    assert forall|c: Seq<u8>| #[trigger] fields_fault(fs, x, tbl, e, c) implies unsupported(r0, c) by {
                        let (k, vs) = choose|k: int, vs: Seq<Val>|
                            0 <= k < fs.len() && #[trigger] reads_all(fs.subrange(0, k), vs, x, tbl, e) && tag_fault(
                                fs[k],
                                skip(x, enc_all(vs, e).len() as int),
                                tbl,
                                e,
                                c,
                            );
                        if k >= i {
                            lemma_fields_agree(fs, x, tbl, e, values_view(vals@), i as int, vs, k);
                        }
                    }
                }
                return Err(err);
            },
        }
        i += 1;
    }
    proof {
        assert(fs.subrange(0, n as int) =~= fs);
    }
    proof {
        assert forall|c: Seq<u8>| !#[trigger] fields_fault(fs, x, tbl, e, c) by {
            if fields_fault(fs, x, tbl, e, c) {
                let (k, vs) = choose|k: int, vs: Seq<Val>|
                    0 <= k < fs.len() && #[trigger] reads_all(fs.subrange(0, k), vs, x, tbl, e) && tag_fault(
                        fs[k],
                        skip(x, enc_all(vs, e).len() as int),
                        tbl,
                        e,
                        c,
                    );
            }
        }
    }
    Ok((vals, cur))
}

/// Appends `b` to `out`.
fn write_bytes(out: &mut Vec<u8>, b: &[u8])
    ensures
        final(out)@ == old(out)@ + b@,
{
    out.extend_from_slice(b);
}

/// Appends a length-prefixed string.
fn encode_str(t: &Vec<u8>, e: Endian, out: &mut Vec<u8>)
    requires
        str_fits(t@),
    ensures
        final(out)@ == old(out)@ + enc_str(t@, e),
{
    write_word(out, t.len() as u32, e);
    write_bytes(out, t.as_slice());
    assert(final(out)@ =~= old(out)@ + enc_str(t@, e));
}

/// Appends the encoding of `v` to `out`.
#[verifier::rlimit(60)]
pub fn encode(v: &Value, e: Endian, out: &mut Vec<u8>)
    requires
        encodable(v@),
    ensures
        final(out)@ == old(out)@ + enc(v@, e),
    decreases v, 0int,
{
    let ghost start = out@;
    match v {
        Value::U8(b) => {
            out.push(*b);
            assert(out@ =~= start + enc(v@, e));
        },
        Value::Bool(b) => {
            write_word(out, if *b { 1u32 } else { 0u32 }, e);
        },
        Value::I32(n) => {
            write_word(out, *n as u32, e);
        },
        Value::U32(n) => {
            write_word(out, *n, e);
        },
        Value::F32(n) => {
            write_word(out, *n, e);
        },
        Value::U16(n) => {
            crate::word::write_half(out, *n, e);
        },
        Value::Str(t) => {
            encode_str(t, e, out);
        },
        Value::Pad(t) => {
            write_bytes(out, t.as_slice());
        },
        Value::Record(vs) => {
            encode_all(vs, e, out);
        },
        Value::List(vs) => {
            proof {
                lemma_values_view(vs@);
            }
            write_word(out, vs.len() as u32, e);
            encode_all(vs, e, out);
            assert(out@ =~= start + enc(v@, e));
        },
        Value::Opt(o) => {
            match o {
                None => {
                    write_word(out, 0, e);
                },
                Some(w) => {
                    write_word(out, 1, e);
                    encode(w, e, out);
                    assert(out@ =~= start + enc(v@, e));
                },
            }
        },
        Value::Trailing(o) => {
            match o {
                None => {
                    assert(out@ =~= start + enc(v@, e));
                },
                Some(w) => {
                    encode(w, e, out);
                },
            }
        },
        Value::Object { class, owner, owner_class, payload } => {
            encode_str(class, e, out);
            encode_str(owner, e, out);
            match owner_class {
                None => {
                    write_word(out, 0, e);
                },
                Some(t) => {
                    write_word(out, 1, e);
                    encode_str(t, e, out);
                },
            }
            encode(payload, e, out);
            assert(out@ =~= start + enc(v@, e));
        },
    }
}

/// Appends the encodings of `vs`, one after the other.
pub fn encode_all(vs: &Vec<Value>, e: Endian, out: &mut Vec<u8>)
    requires
        crate::model::all_encodable(values_view(vs@)),
    ensures
        final(out)@ == old(out)@ + enc_all(values_view(vs@), e),
    decreases vs, 1int,
{
    let ghost start = out@;
    proof {
        lemma_values_view(vs@);
        lemma_all_encodable(values_view(vs@));
        assert(vs@.subrange(0, 0) =~= Seq::<Value>::empty());
        assert(out@ =~= start + enc_all(values_view(vs@.subrange(0, 0)), e));
    }
    let mut i: usize = 0;
    while i < vs.len()
        invariant
            i <= vs@.len(),
            values_view(vs@).len() == vs@.len(),
            forall|j: int| 0 <= j < vs@.len() ==> #[trigger] values_view(vs@)[j] == value_view(vs@[j]),
            forall|j: int| 0 <= j < vs@.len() ==> encodable(#[trigger] values_view(vs@)[j]),
            out@ == start + enc_all(values_view(vs@.subrange(0, i as int)), e),
        decreases vs@.len() - i,
    {
        assert(encodable(values_view(vs@)[i as int]));
        encode(&vs[i], e, out);
        proof {
            assert(vs@.subrange(0, i + 1) =~= vs@.subrange(0, i as int).push(vs@[i as int]));
            lemma_values_view(vs@.subrange(0, i as int));
            lemma_values_view_push(vs@.subrange(0, i as int), vs@[i as int]);
            lemma_enc_all_push(values_view(vs@.subrange(0, i as int)), value_view(vs@[i as int]), e);
        }
        i += 1;
    }
    proof {
        assert(vs@.subrange(0, vs@.len() as int) =~= vs@);
    }
}

/// Whether every length in `v` fits its 32-bit prefix.
pub fn is_encodable(v: &Value) -> (r: bool)
    ensures
        r == encodable(v@),
    decreases v, 0int,
{
    match v {
        Value::Str(t) => t.len() <= u32::MAX as usize,
        Value::Record(vs) => all_are_encodable(vs),
        Value::List(vs) => {
            if vs.len() <= u32::MAX as usize {
                proof {
                    lemma_values_view(vs@);
                }
                all_are_encodable(vs)
            } else {
                proof {
                    lemma_values_view(vs@);
                }
                false
            }
        },
        Value::Opt(o) => match o {
            Some(w) => is_encodable(w),
            None => true,
        },
        Value::Trailing(o) => match o {
            Some(w) => is_encodable(w),
            None => true,
        },
        Value::Object { class, owner, owner_class, payload } => {
            let fits = class.len() <= u32::MAX as usize && owner.len() <= u32::MAX as usize && match owner_class {
                Some(c) => c.len() <= u32::MAX as usize,
                None => true,
            };
            proof {
                assert(fits == header_fits(class@, owner@, opt_bytes_view(*owner_class)));
            }
            if fits {
                is_encodable(payload)
            } else {
                false
            }
        },
        _ => true,
    }
}

fn all_are_encodable(vs: &Vec<Value>) -> (r: bool)
    ensures
        r == crate::model::all_encodable(values_view(vs@)),
    decreases vs, 1int,
{
    let mut i: usize = 0;
    proof {
        lemma_values_view(vs@);
        assert(vs@.subrange(0, 0) =~= Seq::<Value>::empty());
    }
    while i < vs.len()
        invariant
            i <= vs@.len(),
            values_view(vs@).len() == vs@.len(),
            forall|j: int| 0 <= j < vs@.len() ==> #[trigger] values_view(vs@)[j] == value_view(vs@[j]),
            crate::model::all_encodable(values_view(vs@.subrange(0, i as int))),
        decreases vs@.len() - i,
    {
        let ok = is_encodable(&vs[i]);
        proof {
            assert(vs@.subrange(0, i + 1) =~= vs@.subrange(0, i as int).push(vs@[i as int]));
            lemma_values_view(vs@.subrange(0, i as int));
            lemma_values_view_push(vs@.subrange(0, i as int), vs@[i as int]);
            assert(values_view(vs@.subrange(0, i as int)).push(value_view(vs@[i as int])).subrange(0, i as int)
                =~= values_view(vs@.subrange(0, i as int)));
        }
        if !ok {
            proof {
                if crate::model::all_encodable(values_view(vs@)) {
                    lemma_all_encodable(values_view(vs@));
                    assert(encodable(values_view(vs@)[i as int]));
                }
            }
            return false;
        }
        i += 1;
    }
    proof {
        assert(vs@.subrange(0, vs@.len() as int) =~= vs@);
    }
    true
}

} // verus!
