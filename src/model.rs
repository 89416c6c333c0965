//! Schemas, decoded values, their mathematical model, and the byte encoding
//! that a schema gives a value.

use vstd::prelude::*;
use crate::word::{Endian, half, word, word_value};

verus! {

/// The layout of one field. The encoding carries no type tags: the schema alone
/// says how the bytes are read.
#[derive(Debug, PartialEq, Eq)]
pub enum Schema {
    /// One byte.
    U8,
    /// A 32-bit word that must be 0 or 1.
    Bool,
    /// A signed 32-bit word.
    I32,
    /// An unsigned 16-bit word.
    U16,
    /// An unsigned 32-bit word.
    U32,
    /// The bits of a 32-bit float, kept uninterpreted.
    F32,
    /// A 32-bit byte count, then that many bytes.
    Str,
    /// A fixed number of opaque bytes, kept verbatim.
    Pad(usize),
    /// Every byte left in the current scope, with no count in front; valid only
    /// as the last field of its scope. Read as opaque bytes.
    Rest,
    /// An enumeration's discriminant below `count`, one byte or a 32-bit word.
    Choice { count: u32, wide: bool },
    /// Fields one after the other.
    Record(Vec<Schema>),
    /// A 32-bit element count, then the elements.
    List(Box<Schema>),
    /// A 32-bit discriminant (0 or 1), then the payload when it is 1.
    Opt(Box<Schema>),
    /// Absent exactly when no byte remains in the current scope; valid only as
    /// the last field of its scope.
    Trailing(Box<Schema>),
    /// A polymorphic record: class name, owner name, optional owner class, then
    /// the payload whose shape the registry gives for the class name.
    Object,
}

/// One entry of the table of polymorphic record shapes.
#[derive(Debug, PartialEq, Eq)]
pub struct TagEntry {
    pub tag: Vec<u8>,
    pub shape: Schema,
}

/// A decoded value.
#[derive(Debug, PartialEq, Eq)]
pub enum Value {
    U8(u8),
    Bool(bool),
    I32(i32),
    U16(u16),
    U32(u32),
    F32(u32),
    Str(Vec<u8>),
    Pad(Vec<u8>),
    Record(Vec<Value>),
    List(Vec<Value>),
    Opt(Option<Box<Value>>),
    Trailing(Option<Box<Value>>),
    Object { class: Vec<u8>, owner: Vec<u8>, owner_class: Option<Vec<u8>>, payload: Box<Value> },
}

/// The mathematical model of a `Value`.
pub enum Val {
    U8(u8),
    Bool(bool),
    I32(i32),
    U16(u16),
    U32(u32),
    F32(u32),
    Str(Seq<u8>),
    Pad(Seq<u8>),
    Record(Seq<Val>),
    List(Seq<Val>),
    Opt(Option<Box<Val>>),
    Trailing(Option<Box<Val>>),
    Object { class: Seq<u8>, owner: Seq<u8>, owner_class: Option<Seq<u8>>, payload: Box<Val> },
}

pub open spec fn opt_bytes_view(o: Option<Vec<u8>>) -> Option<Seq<u8>> {
    match o {
        Some(b) => Some(b@),
        None => None,
    }
}

pub open spec fn value_view(v: Value) -> Val
    decreases v,
{
    match v {
        Value::U8(b) => Val::U8(b),
        Value::Bool(b) => Val::Bool(b),
        Value::I32(n) => Val::I32(n),
        Value::U16(n) => Val::U16(n),
        Value::U32(n) => Val::U32(n),
        Value::F32(n) => Val::F32(n),
        Value::Str(s) => Val::Str(s@),
        Value::Pad(b) => Val::Pad(b@),
        Value::Record(vs) => Val::Record(values_view(vs@)),
        Value::List(vs) => Val::List(values_view(vs@)),
        Value::Opt(o) => Val::Opt(
            match o {
                Some(w) => Some(Box::new(value_view(*w))),
                None => None,
            },
        ),
        Value::Trailing(o) => Val::Trailing(
            match o {
                Some(w) => Some(Box::new(value_view(*w))),
                None => None,
            },
        ),
        Value::Object { class, owner, owner_class, payload } => Val::Object {
            class: class@,
            owner: owner@,
            owner_class: opt_bytes_view(owner_class),
            payload: Box::new(value_view(*payload)),
        },
    }
}

pub open spec fn values_view(vs: Seq<Value>) -> Seq<Val>
    decreases vs,
{
    if vs.len() == 0 {
        Seq::empty()
    } else {
        values_view(vs.subrange(0, vs.len() - 1)).push(value_view(vs[vs.len() - 1]))
    }
}

impl View for Value {
    type V = Val;

    open spec fn view(&self) -> Val {
        value_view(*self)
    }
}

/// `n` copies of the schema `el`.
pub open spec fn repeat(el: Schema, n: nat) -> Seq<Schema> {
    Seq::new(n, |i: int| el)
}

/// `a` is a prefix of `x`.
pub open spec fn prefix(a: Seq<u8>, x: Seq<u8>) -> bool {
    a.len() <= x.len() && x.subrange(0, a.len() as int) == a
}

/// The bytes of `x` from `k` on.
pub open spec fn rest(x: Seq<u8>, k: int) -> Seq<u8> {
    x.subrange(k, x.len() as int)
}

pub open spec fn enc_str(s: Seq<u8>, e: Endian) -> Seq<u8> {
    word(s.len() as u32, e) + s
}

pub open spec fn enc_opt_str(o: Option<Seq<u8>>, e: Endian) -> Seq<u8> {
    match o {
        None => word(0, e),
        Some(s) => word(1, e) + enc_str(s, e),
    }
}

/// The bytes in front of a polymorphic record's payload.
pub open spec fn enc_header(class: Seq<u8>, owner: Seq<u8>, owner_class: Option<Seq<u8>>, e: Endian) -> Seq<u8> {
    enc_str(class, e) + enc_str(owner, e) + enc_opt_str(owner_class, e)
}

pub open spec fn str_fits(s: Seq<u8>) -> bool {
    s.len() <= u32::MAX
}

pub open spec fn header_fits(class: Seq<u8>, owner: Seq<u8>, owner_class: Option<Seq<u8>>) -> bool {
    &&& str_fits(class)
    &&& str_fits(owner)
    &&& match owner_class {
        Some(c) => str_fits(c),
        None => true,
    }
}

/// The encoding of a value in byte order `e`.
pub open spec fn enc(v: Val, e: Endian) -> Seq<u8>
    decreases v,
{
    match v {
        Val::U8(b) => seq![b],
        Val::Bool(b) => word(if b { 1u32 } else { 0u32 }, e),
        Val::I32(n) => word(n as u32, e),
        Val::U16(n) => half(n, e),
        Val::U32(n) => word(n, e),
        Val::F32(n) => word(n, e),
        Val::Str(s) => enc_str(s, e),
        Val::Pad(b) => b,
        Val::Record(vs) => enc_all(vs, e),
        Val::List(vs) => word(vs.len() as u32, e) + enc_all(vs, e),
        Val::Opt(o) => match o {
            None => word(0, e),
            Some(w) => word(1, e) + enc(*w, e),
        },
        Val::Trailing(o) => match o {
            None => Seq::empty(),
            Some(w) => enc(*w, e),
        },
        Val::Object { class, owner, owner_class, payload } => enc_header(class, owner, owner_class, e)
            + enc(*payload, e),
    }
}

/// The encodings of `vs`, one after the other.
pub open spec fn enc_all(vs: Seq<Val>, e: Endian) -> Seq<u8>
    decreases vs,
{
    if vs.len() == 0 {
        Seq::empty()
    } else {
        enc_all(vs.subrange(0, vs.len() - 1), e) + enc(vs[vs.len() - 1], e)
    }
}

/// Every length in `v` fits its 32-bit prefix, so that `enc` is faithful.
pub open spec fn encodable(v: Val) -> bool
    decreases v,
{
    match v {
        Val::Str(s) => str_fits(s),
        Val::Record(vs) => all_encodable(vs),
        Val::List(vs) => vs.len() <= u32::MAX && all_encodable(vs),
        Val::Opt(o) => match o {
            None => true,
            Some(w) => encodable(*w),
        },
        Val::Trailing(o) => match o {
            None => true,
            Some(w) => encodable(*w),
        },
        Val::Object { class, owner, owner_class, payload } => header_fits(class, owner, owner_class)
            && encodable(*payload),
        _ => true,
    }
}

pub open spec fn all_encodable(vs: Seq<Val>) -> bool
    decreases vs,
{
    vs.len() == 0 || (all_encodable(vs.subrange(0, vs.len() - 1)) && encodable(vs[vs.len() - 1]))
}

/// The class name is in the table.
pub open spec fn known_tag(tbl: Seq<TagEntry>, tag: Seq<u8>) -> bool {
    exists|i: int| 0 <= i < tbl.len() && tbl[i].tag@ == tag
}

/// No two entries of the table share a class name.
pub open spec fn tags_distinct(tbl: Seq<TagEntry>) -> bool {
    forall|i: int, j: int|
        0 <= i < tbl.len() && 0 <= j < tbl.len() && tbl[i].tag@ == tbl[j].tag@ ==> i == j
}

/// `v` is what schema `s` reads from the scope `x`: its encoding starts `x`, and
/// each trailing optional is absent exactly where its scope is exhausted.
pub open spec fn reads(s: Schema, v: Val, x: Seq<u8>, tbl: Seq<TagEntry>, e: Endian) -> bool
    decreases v,
{
    match s {
        Schema::U8 => v is U8 && prefix(enc(v, e), x),
        Schema::Bool => v is Bool && prefix(enc(v, e), x),
        Schema::I32 => v is I32 && prefix(enc(v, e), x),
        Schema::U16 => v is U16 && prefix(enc(v, e), x),
        Schema::U32 => v is U32 && prefix(enc(v, e), x),
        Schema::Rest => match v {
            Val::Pad(t) => t == x,
            _ => false,
        },
        Schema::F32 => v is F32 && prefix(enc(v, e), x),
        Schema::Str => match v {
            Val::Str(t) => str_fits(t) && prefix(enc(v, e), x),
            _ => false,
        },
        Schema::Pad(n) => match v {
            Val::Pad(t) => t.len() == n && prefix(enc(v, e), x),
            _ => false,
        },
        Schema::Choice { count, wide } => prefix(enc(v, e), x) && if wide {
            match v {
                Val::U32(d) => d < count,
                _ => false,
            }
        } else {
            match v {
                Val::U8(d) => (d as u32) < count,
                _ => false,
            }
        },
        Schema::Record(fs) => match v {
            Val::Record(vs) => reads_all(fs@, vs, x, tbl, e),
            _ => false,
        },
        Schema::List(el) => match v {
            Val::List(vs) => vs.len() <= u32::MAX && prefix(word(vs.len() as u32, e), x)
                && reads_all(repeat(*el, vs.len()), vs, rest(x, 4), tbl, e),
            _ => false,
        },
        Schema::Opt(inner) => match v {
            Val::Opt(None) => prefix(word(0, e), x),
            Val::Opt(Some(w)) => prefix(word(1, e), x) && reads(*inner, *w, rest(x, 4), tbl, e),
            _ => false,
        },
        Schema::Trailing(inner) => match v {
            Val::Trailing(None) => x.len() == 0,
            Val::Trailing(Some(w)) => x.len() > 0 && enc(*w, e).len() > 0 && reads(
                *inner,
                *w,
                x,
                tbl,
                e,
            ),
            _ => false,
        },
        Schema::Object => match v {
            Val::Object { class, owner, owner_class, payload } => {
                &&& header_fits(class, owner, owner_class)
                &&& prefix(enc_header(class, owner, owner_class, e), x)
                &&& exists|i: int|
                    0 <= i < tbl.len() && tbl[i].tag@ == class && reads(
                        tbl[i].shape,
                        *payload,
                        rest(x, enc_header(class, owner, owner_class, e).len() as int),
                        tbl,
                        e,
                    )
            },
            _ => false,
        },
    }
}

/// The values `vs` are what the schemas `fs` read one after the other from `x`.
pub open spec fn reads_all(fs: Seq<Schema>, vs: Seq<Val>, x: Seq<u8>, tbl: Seq<TagEntry>, e: Endian) -> bool
    decreases vs,
{
    fs.len() == vs.len() && (vs.len() == 0 || (reads_all(
        fs.subrange(0, fs.len() - 1),
        vs.subrange(0, vs.len() - 1),
        x,
        tbl,
        e,
    ) && reads(
        fs[fs.len() - 1],
        vs[vs.len() - 1],
        rest(x, enc_all(vs.subrange(0, vs.len() - 1), e).len() as int),
        tbl,
        e,
    )))
}

/// The bytes of `x` from `n` on; nothing if `x` is shorter.
pub open spec fn skip(x: Seq<u8>, n: int) -> Seq<u8> {
    if 0 <= n <= x.len() {
        x.subrange(n, x.len() as int)
    } else {
        Seq::empty()
    }
}

/// Reading `s` from `x` meets a polymorphic record whose class name `c` is
/// outside the table, after everything in front of it was read.
pub open spec fn tag_fault(s: Schema, x: Seq<u8>, tbl: Seq<TagEntry>, e: Endian, c: Seq<u8>) -> bool
    decreases x.len(), s,
{
    match s {
        Schema::Record(fs) => exists|k: int, vs: Seq<Val>|
            0 <= k < fs@.len() && #[trigger] reads_all(fs@.subrange(0, k), vs, x, tbl, e) && tag_fault(
                fs@[k],
                skip(x, enc_all(vs, e).len() as int),
                tbl,
                e,
                c,
            ),
        Schema::List(el) => x.len() >= 4 && exists|k: int, vs: Seq<Val>|
            0 <= k < word_value(x.subrange(0, 4), e) && #[trigger] reads_all(repeat(*el, k as nat), vs, skip(x, 4), tbl, e)
                && tag_fault(*el, skip(skip(x, 4), enc_all(vs, e).len() as int), tbl, e, c),
        Schema::Opt(inner) => prefix(word(1, e), x) && tag_fault(*inner, skip(x, 4), tbl, e, c),
        Schema::Trailing(inner) => x.len() > 0 && tag_fault(*inner, x, tbl, e, c),
        Schema::Object => exists|c0: Seq<u8>, o: Seq<u8>, k: Option<Seq<u8>>|
            header_fits(c0, o, k) && #[trigger] prefix(enc_header(c0, o, k, e), x) && if known_tag(tbl, c0) {
                exists|i: int|
                    0 <= i < tbl.len() && tbl[i].tag@ == c0 && tag_fault(
                        tbl[i].shape,
                        skip(x, enc_header(c0, o, k, e).len() as int),
                        tbl,
                        e,
                        c,
                    )
            } else {
                c0 == c
            },
        _ => false,
    }
}

} // verus!
