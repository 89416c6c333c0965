//! Facts about the encoding: what a match covers, and that a scope admits at
//! most one matching value.

use vstd::prelude::*;
use crate::word::{Endian, word, lemma_word_injective, lemma_word_value};
use crate::model::{
    Schema, TagEntry, Val, all_encodable, enc, enc_all, enc_header, enc_opt_str, enc_str,
    encodable, header_fits, reads, reads_all, prefix, repeat, rest, str_fits, tags_distinct,
};

verus! {

pub proof fn lemma_prefix_concat(a: Seq<u8>, b: Seq<u8>, x: Seq<u8>)
    requires
        prefix(a, x),
        prefix(b, rest(x, a.len() as int)),
    ensures
        prefix(a + b, x),
{
    assert(x.subrange(0, (a + b).len() as int) =~= a + b) by {
        assert forall|i: int| 0 <= i < (a + b).len() implies x.subrange(0, (a + b).len() as int)[i]
            == (a + b)[i] by {
            if i < a.len() {
                assert(x.subrange(0, a.len() as int)[i] == a[i]);
            } else {
                assert(rest(x, a.len() as int).subrange(0, b.len() as int)[i - a.len()] == b[i
                    - a.len()]);
            }
        }
    }
}

pub proof fn lemma_prefix_split(a: Seq<u8>, b: Seq<u8>, x: Seq<u8>)
    requires
        prefix(a + b, x),
    ensures
        prefix(a, x),
        prefix(b, rest(x, a.len() as int)),
{
    assert(x.subrange(0, a.len() as int) =~= a) by {
        assert forall|i: int| 0 <= i < a.len() implies x.subrange(0, a.len() as int)[i] == a[i] by {
            assert(x.subrange(0, (a + b).len() as int)[i] == (a + b)[i]);
        }
    }
    assert(rest(x, a.len() as int).subrange(0, b.len() as int) =~= b) by {
        assert forall|i: int| 0 <= i < b.len() implies rest(x, a.len() as int).subrange(
            0,
            b.len() as int,
        )[i] == b[i] by {
            assert(x.subrange(0, (a + b).len() as int)[i + a.len()] == (a + b)[i + a.len()]);
        }
    }
}

/// Two prefixes of one sequence of the same length are equal.
pub proof fn lemma_prefix_same_len(a: Seq<u8>, b: Seq<u8>, x: Seq<u8>)
    requires
        prefix(a, x),
        prefix(b, x),
        a.len() == b.len(),
    ensures
        a == b,
{
}

/// A string is read back from the front of its encoding.
pub proof fn lemma_str_unique(a: Seq<u8>, b: Seq<u8>, x: Seq<u8>, e: Endian)
    requires
        str_fits(a),
        str_fits(b),
        prefix(enc_str(a, e), x),
        prefix(enc_str(b, e), x),
    ensures
        a == b,
{
    lemma_prefix_split(word(a.len() as u32, e), a, x);
    lemma_prefix_split(word(b.len() as u32, e), b, x);
    lemma_word_value(a.len() as u32, e);
    lemma_word_value(b.len() as u32, e);
    lemma_prefix_same_len(word(a.len() as u32, e), word(b.len() as u32, e), x);
    lemma_word_injective(a.len() as u32, b.len() as u32, e);
    lemma_prefix_same_len(a, b, rest(x, 4));
}

/// A record header is read back from the front of its encoding.
pub proof fn lemma_header_unique(
    c1: Seq<u8>,
    o1: Seq<u8>,
    k1: Option<Seq<u8>>,
    c2: Seq<u8>,
    o2: Seq<u8>,
    k2: Option<Seq<u8>>,
    x: Seq<u8>,
    e: Endian,
)
    requires
        header_fits(c1, o1, k1),
        header_fits(c2, o2, k2),
        prefix(enc_header(c1, o1, k1, e), x),
        prefix(enc_header(c2, o2, k2, e), x),
    ensures
        c1 == c2,
        o1 == o2,
        k1 == k2,
{
    lemma_word_value(c1.len() as u32, e);
    lemma_word_value(o1.len() as u32, e);
    lemma_prefix_split(enc_str(c1, e) + enc_str(o1, e), enc_opt_str(k1, e), x);
    lemma_prefix_split(enc_str(c1, e), enc_str(o1, e), x);
    lemma_prefix_split(enc_str(c2, e) + enc_str(o2, e), enc_opt_str(k2, e), x);
    lemma_prefix_split(enc_str(c2, e), enc_str(o2, e), x);
    lemma_str_unique(c1, c2, x, e);
    let x1 = rest(x, enc_str(c1, e).len() as int);
    lemma_str_unique(o1, o2, x1, e);
    let n = (enc_str(c1, e) + enc_str(o1, e)).len() as int;
    let x2 = rest(x, n);
    lemma_word_value(0, e);
    lemma_word_value(1, e);
    match (k1, k2) {
        (Some(s1), Some(s2)) => {
            lemma_prefix_split(word(1, e), enc_str(s1, e), x2);
            lemma_prefix_split(word(1, e), enc_str(s2, e), x2);
            lemma_str_unique(s1, s2, rest(x2, 4), e);
        },
        (Some(s1), None) => {
            lemma_prefix_split(word(1, e), enc_str(s1, e), x2);
            lemma_prefix_same_len(word(1, e), word(0, e), x2);
            lemma_word_injective(1, 0, e);
        },
        (None, Some(s2)) => {
            lemma_prefix_split(word(1, e), enc_str(s2, e), x2);
            lemma_prefix_same_len(word(1, e), word(0, e), x2);
            lemma_word_injective(1, 0, e);
        },
        (None, None) => {},
    }
}

/// What a match reads is the value's encoding, and every length in it fits.
pub proof fn lemma_reads_prefix(s: Schema, v: Val, x: Seq<u8>, tbl: Seq<TagEntry>, e: Endian)
    requires
        reads(s, v, x, tbl, e),
    ensures
        prefix(enc(v, e), x),
        encodable(v),
    decreases v,
{
    match s {
        Schema::Record(fs) => {
            let vs = v->Record_0;
            lemma_reads_all_prefix(fs@, vs, x, tbl, e);
        },
        Schema::List(el) => {
            let vs = v->List_0;
            lemma_reads_all_prefix(repeat(*el, vs.len()), vs, rest(x, 4), tbl, e);
            lemma_prefix_concat(word(vs.len() as u32, e), enc_all(vs, e), x);
        },
        Schema::Opt(inner) => {
            lemma_word_value(0, e);
            if let Val::Opt(Some(w)) = v {
                lemma_reads_prefix(*inner, *w, rest(x, 4), tbl, e);
                lemma_word_value(1, e);
                lemma_prefix_concat(word(1, e), enc(*w, e), x);
            }
        },
        Schema::Trailing(inner) => {
            if let Val::Trailing(Some(w)) = v {
                lemma_reads_prefix(*inner, *w, x, tbl, e);
            } else {
                assert(x.subrange(0, 0) =~= Seq::<u8>::empty());
            }
        },
        Schema::Object => {
            if let Val::Object { class, owner, owner_class, payload } = v {
                let h = enc_header(class, owner, owner_class, e);
                let i = choose|i: int|
                    0 <= i < tbl.len() && tbl[i].tag@ == class && reads(
                        tbl[i].shape,
                        *payload,
                        rest(x, h.len() as int),
                        tbl,
                        e,
                    );
                lemma_reads_prefix(tbl[i].shape, *payload, rest(x, h.len() as int), tbl, e);
                lemma_prefix_concat(h, enc(*payload, e), x);
            }
        },
        Schema::Rest => {
            assert(x.subrange(0, x.len() as int) =~= x);
        },
        _ => {},
    }
}

pub proof fn lemma_reads_all_prefix(
    fs: Seq<Schema>,
    vs: Seq<Val>,
    x: Seq<u8>,
    tbl: Seq<TagEntry>,
    e: Endian,
)
    requires
        reads_all(fs, vs, x, tbl, e),
    ensures
        prefix(enc_all(vs, e), x),
        all_encodable(vs),
    decreases vs,
{
    if vs.len() == 0 {
        assert(x.subrange(0, 0) =~= Seq::<u8>::empty());
    } else {
        let init = vs.subrange(0, vs.len() - 1);
        let fi = fs.subrange(0, fs.len() - 1);
        lemma_reads_all_prefix(fi, init, x, tbl, e);
        let k = enc_all(init, e).len() as int;
        lemma_reads_prefix(fs[fs.len() - 1], vs[vs.len() - 1], rest(x, k), tbl, e);
        lemma_prefix_concat(enc_all(init, e), enc(vs[vs.len() - 1], e), x);
    }
}

/// A scope holds at most one value that a schema reads from it.
pub proof fn lemma_reads_unique(s: Schema, v1: Val, v2: Val, x: Seq<u8>, tbl: Seq<TagEntry>, e: Endian)
    requires
        tags_distinct(tbl),
        reads(s, v1, x, tbl, e),
        reads(s, v2, x, tbl, e),
    ensures
        v1 == v2,
    decreases v1,
{
    lemma_word_value(0, e);
    lemma_word_value(1, e);
    match s {
        Schema::U8 => {
            lemma_prefix_same_len(enc(v1, e), enc(v2, e), x);
            assert(enc(v1, e)[0] == enc(v2, e)[0]);
        },
        Schema::Bool => {
            lemma_prefix_same_len(enc(v1, e), enc(v2, e), x);
            lemma_word_injective(
                if v1->Bool_0 { 1u32 } else { 0u32 },
                if v2->Bool_0 { 1u32 } else { 0u32 },
                e,
            );
        },
        Schema::I32 => {
            lemma_word_value(v1->I32_0 as u32, e);
            lemma_word_value(v2->I32_0 as u32, e);
            lemma_prefix_same_len(enc(v1, e), enc(v2, e), x);
            lemma_word_injective(v1->I32_0 as u32, v2->I32_0 as u32, e);
            crate::word::lemma_signed_bits(v1->I32_0, 0);
            crate::word::lemma_signed_bits(v2->I32_0, 0);
        },
        Schema::U16 => {
            crate::word::lemma_half(v1->U16_0, enc(v2, e), e);
            crate::word::lemma_half(v2->U16_0, enc(v2, e), e);
            lemma_prefix_same_len(enc(v1, e), enc(v2, e), x);
        },
        Schema::Rest => {},
        Schema::U32 => {
            lemma_word_value(v1->U32_0, e);
            lemma_word_value(v2->U32_0, e);
            lemma_prefix_same_len(enc(v1, e), enc(v2, e), x);
            lemma_word_injective(v1->U32_0, v2->U32_0, e);
        },
        Schema::F32 => {
            lemma_word_value(v1->F32_0, e);
            lemma_word_value(v2->F32_0, e);
            lemma_prefix_same_len(enc(v1, e), enc(v2, e), x);
            lemma_word_injective(v1->F32_0, v2->F32_0, e);
        },
        Schema::Str => {
            lemma_str_unique(v1->Str_0, v2->Str_0, x, e);
        },
        Schema::Pad(n) => {
            lemma_prefix_same_len(enc(v1, e), enc(v2, e), x);
        },
        Schema::Choice { count, wide } => {
            if wide {
                lemma_word_value(v1->U32_0, e);
                lemma_word_value(v2->U32_0, e);
                lemma_prefix_same_len(enc(v1, e), enc(v2, e), x);
                lemma_word_injective(v1->U32_0, v2->U32_0, e);
            } else {
                lemma_prefix_same_len(enc(v1, e), enc(v2, e), x);
                assert(enc(v1, e)[0] == enc(v2, e)[0]);
            }
        },
        Schema::Record(fs) => {
            lemma_reads_all_unique(fs@, v1->Record_0, v2->Record_0, x, tbl, e);
        },
        Schema::List(el) => {
            let n1 = v1->List_0.len();
            let n2 = v2->List_0.len();
            lemma_word_value(n1 as u32, e);
            lemma_word_value(n2 as u32, e);
            lemma_prefix_same_len(word(n1 as u32, e), word(n2 as u32, e), x);
            lemma_word_injective(n1 as u32, n2 as u32, e);
            lemma_reads_all_unique(
                repeat(*el, n1),
                v1->List_0,
                v2->List_0,
                rest(x, 4),
                tbl,
                e,
            );
        },
        Schema::Opt(inner) => {
            match (v1, v2) {
                (Val::Opt(Some(w1)), Val::Opt(Some(w2))) => {
                    lemma_reads_unique(*inner, *w1, *w2, rest(x, 4), tbl, e);
                },
                (Val::Opt(None), Val::Opt(None)) => {},
                _ => {
                    lemma_prefix_same_len(word(1, e), word(0, e), x);
                    lemma_word_injective(1, 0, e);
                },
            }
        },
        Schema::Trailing(inner) => {
            if let (Val::Trailing(Some(w1)), Val::Trailing(Some(w2))) = (v1, v2) {
                lemma_reads_unique(*inner, *w1, *w2, x, tbl, e);
            }
        },
        Schema::Object => {
            if let (
                Val::Object { class: c1, owner: o1, owner_class: k1, payload: p1 },
                Val::Object { class: c2, owner: o2, owner_class: k2, payload: p2 },
            ) = (v1, v2) {
                lemma_header_unique(c1, o1, k1, c2, o2, k2, x, e);
                let h = enc_header(c1, o1, k1, e);
                let i1 = choose|i: int|
                    0 <= i < tbl.len() && tbl[i].tag@ == c1 && reads(
                        tbl[i].shape,
                        *p1,
                        rest(x, h.len() as int),
                        tbl,
                        e,
                    );
                let i2 = choose|i: int|
                    0 <= i < tbl.len() && tbl[i].tag@ == c2 && reads(
                        tbl[i].shape,
                        *p2,
                        rest(x, h.len() as int),
                        tbl,
                        e,
                    );
                assert(i1 == i2);
                lemma_reads_unique(tbl[i1].shape, *p1, *p2, rest(x, h.len() as int), tbl, e);
            }
        },
    }
}

pub proof fn lemma_reads_all_unique(
    fs: Seq<Schema>,
    vs1: Seq<Val>,
    vs2: Seq<Val>,
    x: Seq<u8>,
    tbl: Seq<TagEntry>,
    e: Endian,
)
    requires
        tags_distinct(tbl),
        reads_all(fs, vs1, x, tbl, e),
        reads_all(fs, vs2, x, tbl, e),
    ensures
        vs1 == vs2,
    decreases vs1,
{
    if vs1.len() == 0 {
        assert(vs1 =~= vs2);
    } else {
        let n = vs1.len() - 1;
        let fi = fs.subrange(0, fs.len() - 1);
        lemma_reads_all_unique(fi, vs1.subrange(0, n), vs2.subrange(0, n), x, tbl, e);
        let k = enc_all(vs1.subrange(0, n), e).len() as int;
        lemma_reads_unique(fs[fs.len() - 1], vs1[n], vs2[n], rest(x, k), tbl, e);
        assert(vs1 =~= vs2) by {
            assert forall|i: int| 0 <= i < vs1.len() implies vs1[i] == vs2[i] by {
                if i < n {
                    assert(vs1.subrange(0, n)[i] == vs2.subrange(0, n)[i]);
                }
            }
        }
    }
}

/// A value read from one scope is read from any other that begins with its
/// encoding, provided the other scope ends with that encoding wherever the first
/// one does (so each trailing optional sees the same end).
pub proof fn lemma_reads_transfer(
    s: Schema,
    v: Val,
    x: Seq<u8>,
    y: Seq<u8>,
    tbl: Seq<TagEntry>,
    e: Endian,
)
    requires
        reads(s, v, x, tbl, e),
        prefix(enc(v, e), y),
        y.len() > enc(v, e).len() ==> x.len() > enc(v, e).len(),
    ensures
        reads(s, v, y, tbl, e),
    decreases v,
{
    lemma_reads_prefix(s, v, x, tbl, e);
    lemma_word_value(0, e);
    lemma_word_value(1, e);
    match s {
        Schema::Record(fs) => {
            lemma_reads_all_transfer(fs@, v->Record_0, x, y, tbl, e);
        },
        Schema::List(el) => {
            let vs = v->List_0;
            let fs = repeat(*el, vs.len());
            lemma_word_value(vs.len() as u32, e);
            lemma_prefix_split(word(vs.len() as u32, e), enc_all(vs, e), y);
            lemma_reads_all_transfer(fs, vs, rest(x, 4), rest(y, 4), tbl, e);
        },
        Schema::Opt(inner) => {
            if let Val::Opt(Some(w)) = v {
                lemma_prefix_split(word(1, e), enc(*w, e), y);
                lemma_reads_transfer(*inner, *w, rest(x, 4), rest(y, 4), tbl, e);
            }
        },
        Schema::Trailing(inner) => {
            if let Val::Trailing(Some(w)) = v {
                lemma_reads_transfer(*inner, *w, x, y, tbl, e);
            }
        },
        Schema::Object => {
            if let Val::Object { class, owner, owner_class, payload } = v {
                let h = enc_header(class, owner, owner_class, e);
                lemma_prefix_split(h, enc(*payload, e), y);
                let i = choose|i: int|
                    0 <= i < tbl.len() && tbl[i].tag@ == class && reads(
                        tbl[i].shape,
                        *payload,
                        rest(x, h.len() as int),
                        tbl,
                        e,
                    );
                lemma_reads_transfer(tbl[i].shape, *payload, rest(x, h.len() as int), rest(y, h.len() as int), tbl, e);
            }
        },
        Schema::Rest => {
            assert(y =~= x);
        },
        _ => {},
    }
}

pub proof fn lemma_reads_all_transfer(
    fs: Seq<Schema>,
    vs: Seq<Val>,
    x: Seq<u8>,
    y: Seq<u8>,
    tbl: Seq<TagEntry>,
    e: Endian,
)
    requires
        reads_all(fs, vs, x, tbl, e),
        prefix(enc_all(vs, e), y),
        y.len() > enc_all(vs, e).len() ==> x.len() > enc_all(vs, e).len(),
    ensures
        reads_all(fs, vs, y, tbl, e),
    decreases vs,
{
    if vs.len() > 0 {
        let n = vs.len() - 1;
        let init = vs.subrange(0, n);
        let fi = fs.subrange(0, fs.len() - 1);
        let k = enc_all(init, e).len() as int;
        lemma_reads_all_prefix(fs, vs, x, tbl, e);
        lemma_prefix_split(enc_all(init, e), enc(vs[n], e), y);
        lemma_reads_all_transfer(fi, init, x, y, tbl, e);
        lemma_reads_transfer(fs[fs.len() - 1], vs[n], rest(x, k), rest(y, k), tbl, e);
    }
}

/// A value read from a scope is read back from its own encoding.
pub proof fn lemma_reads_own_encoding(s: Schema, v: Val, x: Seq<u8>, tbl: Seq<TagEntry>, e: Endian)
    requires
        reads(s, v, x, tbl, e),
    ensures
        reads(s, v, enc(v, e), tbl, e),
{
    assert(enc(v, e).subrange(0, enc(v, e).len() as int) =~= enc(v, e));
    lemma_reads_transfer(s, v, x, enc(v, e), tbl, e);
}

} // verus!
