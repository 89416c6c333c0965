//! The head morph: where it sits in each layout's payload, how it is read from
//! a binary head-morph file, and how it is taken out of a save or put into one.

use vstd::prelude::*;
use crate::word::Endian;
use crate::model::{Schema, Val, Value, all_encodable, encodable, reads, value_view, values_view};
use crate::codec::{decode, scope, DecodeError};
use crate::seqs::{lemma_values_view, lemma_all_encodable};
use crate::chunked::Me1LeSaveGame;
use crate::save_game::{Formats, SaveKind};

verus! {

/// The value found by following the record field indices `path` from `v`.
pub open spec fn get_at(v: Val, path: Seq<usize>) -> Option<Val>
    decreases path.len(),
{
    if path.len() == 0 {
        Some(v)
    } else {
        match v {
            Val::Record(vs) => if path[0] < vs.len() {
                get_at(vs[path[0] as int], path.drop_first())
            } else {
                None
            },
            _ => None,
        }
    }
}

/// `v` with the value at `path` replaced by `w`; `v` itself where `path` leads
/// nowhere.
pub open spec fn put_at(v: Val, path: Seq<usize>, w: Val) -> Val
    decreases path.len(),
{
    if path.len() == 0 {
        w
    } else {
        match v {
            Val::Record(vs) => if path[0] < vs.len() {
                Val::Record(vs.update(path[0] as int, put_at(vs[path[0] as int], path.drop_first(), w)))
            } else {
                v
            },
            _ => v,
        }
    }
}

/// Why a head morph could not be taken out or put in.
#[derive(Debug, Clone, PartialEq, Eq)]
pub enum HeadMorphError {
    /// The save uses the default face: its head-morph slot is empty.
    NoHeadMorph,
    /// The layout's head-morph path does not lead to an optional field.
    BadPath,
}

pub proof fn lemma_all_encodable_from(vs: Seq<Val>)
    requires
        forall|i: int| 0 <= i < vs.len() ==> encodable(#[trigger] vs[i]),
    ensures
        all_encodable(vs),
    decreases vs.len(),
{
    if vs.len() > 0 {
        let init = vs.subrange(0, vs.len() - 1);
        assert forall|i: int| 0 <= i < init.len() implies encodable(#[trigger] init[i]) by {
            assert(init[i] == vs[i]);
        }
        lemma_all_encodable_from(init);
    }
}

/// Replacing an encodable part of an encodable value keeps it encodable.
pub proof fn lemma_put_encodable(v: Val, path: Seq<usize>, w: Val)
    requires
        encodable(v),
        encodable(w),
    ensures
        encodable(put_at(v, path, w)),
    decreases path.len(),
{
    if path.len() > 0 {
        if let Val::Record(vs) = v {
            if path[0] < vs.len() {
                let k = path[0] as int;
                lemma_all_encodable(vs);
                lemma_put_encodable(vs[k], path.drop_first(), w);
                let us = vs.update(k, put_at(vs[k], path.drop_first(), w));
                assert forall|i: int| 0 <= i < us.len() implies encodable(#[trigger] us[i]) by {
                    if i != k {
                        assert(us[i] == vs[i]);
                    }
                }
                lemma_all_encodable_from(us);
            }
        }
    }
}

/// The value at `path` inside `v`.
pub fn get_path<'a>(v: &'a Value, path: &[usize]) -> (r: Option<&'a Value>)
    ensures
        match r {
            Some(w) => get_at(v@, path@) == Some(w@),
            None => get_at(v@, path@) is None,
        },
{
    let mut cur: &Value = v;
    let mut i: usize = 0;
    proof {
        assert(path@.subrange(0, path@.len() as int) =~= path@);
    }
    while i < path.len()
        invariant
            i <= path@.len(),
            get_at(v@, path@) == get_at(cur@, path@.subrange(i as int, path@.len() as int)),
        decreases path@.len() - i,
    {
        let ghost tail = path@.subrange(i as int, path@.len() as int);
        proof {
            assert(tail.drop_first() =~= path@.subrange(i + 1, path@.len() as int));
        }
        match cur {
            Value::Record(vs) => {
                proof {
                    lemma_values_view(vs@);
                }
                if path[i] >= vs.len() {
                    return None;
                }
                cur = &vs[path[i]];
            },
            _ => {
                return None;
            },
        }
        i += 1;
    }
    proof {
        assert(path@.subrange(i as int, path@.len() as int) =~= Seq::<usize>::empty());
    }
    Some(cur)
}

/// `v` with the value at `path@[i..]` replaced by `w`; `v` back unchanged where
/// the path leads nowhere.
pub fn put_path(v: Value, path: &[usize], i: usize, w: Value) -> (r: Result<Value, Value>)
    requires
        i <= path@.len(),
    ensures
        match r {
            Ok(n) => get_at(v@, path@.subrange(i as int, path@.len() as int)) is Some
                && n@ == put_at(v@, path@.subrange(i as int, path@.len() as int), w@),
            Err(back) => get_at(v@, path@.subrange(i as int, path@.len() as int)) is None && back@ == v@,
        },
    decreases path@.len() - i,
{
    let ghost tail = path@.subrange(i as int, path@.len() as int);
    if i == path.len() {
        proof {
            assert(tail =~= Seq::<usize>::empty());
        }
        return Ok(w);
    }
    proof {
        assert(tail.drop_first() =~= path@.subrange(i + 1, path@.len() as int));
    }
    match v {
        Value::Record(mut vs) => {
            let ghost old_vs = vs@;
            proof {
                lemma_values_view(vs@);
            }
            let k = path[i];
            if k >= vs.len() {
                return Err(Value::Record(vs));
            }
            let child = vs.remove(k);
            match put_path(child, path, i + 1, w) {
                Ok(nc) => {
                    vs.insert(k, nc);
                    proof {
                        lemma_values_view(vs@);
                        assert(vs@ =~= old_vs.update(k as int, nc));
                        assert(values_view(vs@) =~= values_view(old_vs).update(
                            k as int,
                            put_at(value_view(child), tail.drop_first(), w@),
                        ));
                    }
                    Ok(Value::Record(vs))
                },
                Err(c) => {
                    vs.insert(k, c);
                    proof {
                        lemma_values_view(vs@);
                        assert(values_view(vs@) =~= values_view(old_vs));
                    }
                    Err(Value::Record(vs))
                },
            }
        },
        other => Err(other),
    }
}

/// The 26 bytes that open a binary head-morph file of the second (`d` is the
/// digit 2) or third (`d` is 3) game: `GIBBEDMASSEFFECT`, the digit, `HEADMORPH`.
pub open spec fn gibbed_magic(d: u8) -> Seq<u8> {
    seq![
        71u8, 73u8, 66u8, 66u8, 69u8, 68u8, 77u8, 65u8, 83u8, 83u8, 69u8, 70u8, 70u8, 69u8, 67u8, 84u8,
        d, 72u8, 69u8, 65u8, 68u8, 77u8, 79u8, 82u8, 80u8, 72u8,
    ]
}

/// The number of bytes in front of the record in a binary head-morph file.
pub const GIBBED_PREFIX_LEN: usize = 31;

/// `x` opens with the magic of a binary head-morph file.
pub open spec fn is_gibbed(x: Seq<u8>) -> bool {
    x.len() >= 26 && (x.subrange(0, 26) == gibbed_magic(50u8) || x.subrange(0, 26) == gibbed_magic(51u8))
}

/// Whether `a` starts with `p`.
pub fn starts_with(a: &[u8], p: &[u8]) -> (r: bool)
    ensures
        r == (p@.len() <= a@.len() && a@.subrange(0, p@.len() as int) == p@),
{
    if p.len() > a.len() {
        return false;
    }
    let mut i: usize = 0;
    while i < p.len()
        invariant
            p@.len() <= a@.len(),
            i <= p@.len(),
            forall|j: int| 0 <= j < i ==> a@[j] == p@[j],
        decreases p@.len() - i,
    {
        if a[i] != p[i] {
            proof {
                assert(a@.subrange(0, p@.len() as int)[i as int] == a@[i as int]);
            }
            return false;
        }
        i += 1;
    }
    assert(a@.subrange(0, p@.len() as int) =~= p@);
    true
}

/// Whether `file` opens with the magic of a binary head-morph file.
pub fn is_gibbed_head_morph(file: &[u8]) -> (r: bool)
    ensures
        r == is_gibbed(file@),
{
    let me2: [u8; 26] = [
        71u8, 73u8, 66u8, 66u8, 69u8, 68u8, 77u8, 65u8, 83u8, 83u8, 69u8, 70u8, 70u8, 69u8, 67u8, 84u8,
        50u8, 72u8, 69u8, 65u8, 68u8, 77u8, 79u8, 82u8, 80u8, 72u8,
    ];
    let me3: [u8; 26] = [
        71u8, 73u8, 66u8, 66u8, 69u8, 68u8, 77u8, 65u8, 83u8, 83u8, 69u8, 70u8, 70u8, 69u8, 67u8, 84u8,
        51u8, 72u8, 69u8, 65u8, 68u8, 77u8, 79u8, 82u8, 80u8, 72u8,
    ];
    proof {
        assert(me2@ =~= gibbed_magic(50u8));
        assert(me3@ =~= gibbed_magic(51u8));
    }
    starts_with(file, me2.as_slice()) || starts_with(file, me3.as_slice())
}

/// Why a binary head-morph file could not be read.
#[derive(Debug, Clone, PartialEq, Eq)]
pub enum HeadMorphFileError {
    /// The file does not open with the magic of a binary head-morph file.
    NotGibbed,
    /// The record after the magic does not decode.
    Corrupt(DecodeError),
}

/// Reads the head-morph record that follows the 31-byte prefix of a binary
/// head-morph file.
pub fn deserialize_gibbed_head_morph(file: &[u8], f: &Formats) -> (r: Result<Value, HeadMorphFileError>)
    requires
        f.wf(),
    ensures
        (r matches Err(HeadMorphFileError::NotGibbed)) <==> !is_gibbed(file@),
        is_gibbed(file@) && file@.len() < GIBBED_PREFIX_LEN ==> r matches Err(
            HeadMorphFileError::Corrupt(DecodeError::UnexpectedEof),
        ),
        r matches Ok(v) ==> reads(
            f.head_morph,
            v@,
            file@.subrange(GIBBED_PREFIX_LEN as int, file@.len() as int),
            f.registry.table(),
            Endian::Little,
        ),
        r matches Err(HeadMorphFileError::Corrupt(_)) ==> file@.len() < GIBBED_PREFIX_LEN || forall|v: Val|
            !#[trigger] reads(
                f.head_morph,
                v,
                file@.subrange(GIBBED_PREFIX_LEN as int, file@.len() as int),
                f.registry.table(),
                Endian::Little,
            ),
{
    if !is_gibbed_head_morph(file) {
        return Err(HeadMorphFileError::NotGibbed);
    }
    if file.len() < GIBBED_PREFIX_LEN {
        return Err(HeadMorphFileError::Corrupt(DecodeError::UnexpectedEof));
    }
    match decode(&f.head_morph, &f.registry, file, GIBBED_PREFIX_LEN, file.len(), Endian::Little) {
        Ok((v, _)) => Ok(v),
        Err(err) => {
            proof {
                assert forall|v: Val|
                    !#[trigger] reads(
                        f.head_morph,
                        v,
                        file@.subrange(GIBBED_PREFIX_LEN as int, file@.len() as int),
                        f.registry.table(),
                        Endian::Little,
                    ) by {
                    assert(!reads(
                        f.head_morph,
                        v,
                        scope(file@, GIBBED_PREFIX_LEN as int, file@.len() as int),
                        f.registry.table(),
                        Endian::Little,
                    ));
                }
            }
            Err(HeadMorphFileError::Corrupt(err))
        },
    }
}

/// Where the payload of `k` holds its head morph.
pub open spec fn head_morph_path(f: Formats, k: SaveKind) -> Seq<usize> {
    match k {
        SaveKind::MassEffect1Le(_) => f.me1_le_head_morph@,
        SaveKind::MassEffect1LePs4(_) => f.me1_le_head_morph@,
        SaveKind::MassEffect2(_) => f.me2_head_morph@,
        SaveKind::MassEffect2Le(_) => f.me2_le_head_morph@,
        SaveKind::MassEffect3(_) => f.me3_head_morph@,
    }
}

/// The slot holds an optional value.
pub open spec fn is_slot(v: Option<Val>) -> bool {
    v matches Some(Val::Opt(_))
}

/// `a` and `b` are saves of the same layout whose payloads are `pa` and `pb`,
/// and agree on everything else.
pub open spec fn same_but_payload(a: SaveKind, b: SaveKind, pb: Val) -> bool {
    match (a, b) {
        (SaveKind::MassEffect1Le(g), SaveKind::MassEffect1Le(h)) => {
            &&& h.magic_number == g.magic_number
            &&& h.block_size == g.block_size
            &&& h.checksum == g.checksum
            &&& h.compression_flag == g.compression_flag
            &&& h.save_data@ == pb
        },
        (SaveKind::MassEffect1LePs4(_), SaveKind::MassEffect1LePs4(v)) => v@ == pb,
        (SaveKind::MassEffect2(_), SaveKind::MassEffect2(v)) => v@ == pb,
        (SaveKind::MassEffect2Le(_), SaveKind::MassEffect2Le(v)) => v@ == pb,
        (SaveKind::MassEffect3(_), SaveKind::MassEffect3(v)) => v@ == pb,
        _ => false,
    }
}

fn path_for<'a>(f: &'a Formats, k: &SaveKind) -> (r: &'a Vec<usize>)
    ensures
        r@ == head_morph_path(*f, *k),
{
    match k {
        SaveKind::MassEffect1Le(_) => &f.me1_le_head_morph,
        SaveKind::MassEffect1LePs4(_) => &f.me1_le_head_morph,
        SaveKind::MassEffect2(_) => &f.me2_head_morph,
        SaveKind::MassEffect2Le(_) => &f.me2_le_head_morph,
        SaveKind::MassEffect3(_) => &f.me3_head_morph,
    }
}

fn payload_of(k: &SaveKind) -> (r: &Value)
    ensures
        r@ == k.plain_payload(),
{
    match k {
        SaveKind::MassEffect1Le(g) => &g.save_data,
        SaveKind::MassEffect1LePs4(v) => v,
        SaveKind::MassEffect2(v) => v,
        SaveKind::MassEffect2Le(v) => v,
        SaveKind::MassEffect3(v) => v,
    }
}

impl SaveKind {
    /// The head morph of the save.
    pub fn head_morph<'a>(&'a self, f: &Formats) -> (r: Result<&'a Value, HeadMorphError>)
        ensures
            match get_at(self.plain_payload(), head_morph_path(*f, *self)) {
                Some(Val::Opt(Some(h))) => r matches Ok(v) && v@ == *h,
                Some(Val::Opt(None)) => r matches Err(HeadMorphError::NoHeadMorph),
                _ => r matches Err(HeadMorphError::BadPath),
            },
    {
        let path = path_for(f, self);
        match get_path(payload_of(self), path.as_slice()) {
            Some(Value::Opt(Some(h))) => Ok(h),
            Some(Value::Opt(None)) => Err(HeadMorphError::NoHeadMorph),
            _ => Err(HeadMorphError::BadPath),
        }
    }

    /// The save with `hm` as its head morph; the save unchanged, with an error,
    /// where its layout's path does not lead to the optional head-morph field.
    pub fn with_head_morph(self, f: &Formats, hm: Value) -> (r: Result<SaveKind, (SaveKind, HeadMorphError)>)
        requires
            self.wf(),
            encodable(hm@),
        ensures
            is_slot(get_at(self.plain_payload(), head_morph_path(*f, self))) ==> (r matches Ok(k) && k.wf()
                && same_but_payload(self, k, put_at(
                    self.plain_payload(),
                    head_morph_path(*f, self),
                    Val::Opt(Some(Box::new(hm@))),
                ))),
            !is_slot(get_at(self.plain_payload(), head_morph_path(*f, self))) ==> (r matches Err((k, e))
                && e is BadPath && same_but_payload(self, k, self.plain_payload())),
    {
        let path = path_for(f, &self);
        let slot = match get_path(payload_of(&self), path.as_slice()) {
            Some(Value::Opt(_)) => true,
            _ => false,
        };
        if !slot {
            return Err((self, HeadMorphError::BadPath));
        }
        let new = Value::Opt(Some(Box::new(hm)));
        proof {
            lemma_put_encodable(self.plain_payload(), path@, new@);
        }
        match self {
            SaveKind::MassEffect1Le(g) => {
                let Me1LeSaveGame { magic_number, block_size, save_data, checksum, compression_flag } = *g;
                match put_path(save_data, path.as_slice(), 0, new) {
                    Ok(n) => {
                        proof {
                            assert(path@.subrange(0, path@.len() as int) =~= path@);
                        }
                        Ok(SaveKind::MassEffect1Le(Box::new(Me1LeSaveGame { magic_number, block_size, save_data: n, checksum, compression_flag })))
                    },
                    Err(back) => {
                        proof {
                            assert(path@.subrange(0, path@.len() as int) =~= path@);
                        }
                        Err((SaveKind::MassEffect1Le(Box::new(Me1LeSaveGame { magic_number, block_size, save_data: back, checksum, compression_flag })), HeadMorphError::BadPath))
                    },
                }
            },
            SaveKind::MassEffect1LePs4(v) => match put_path(*v, path.as_slice(), 0, new) {
                Ok(n) => {
                    proof {
                        assert(path@.subrange(0, path@.len() as int) =~= path@);
                    }
                    Ok(SaveKind::MassEffect1LePs4(Box::new(n)))
                },
                Err(back) => {
                    proof {
                        assert(path@.subrange(0, path@.len() as int) =~= path@);
                    }
                    Err((SaveKind::MassEffect1LePs4(Box::new(back)), HeadMorphError::BadPath))
                },
            },
            SaveKind::MassEffect2(v) => match put_path(*v, path.as_slice(), 0, new) {
                Ok(n) => {
                    proof {
                        assert(path@.subrange(0, path@.len() as int) =~= path@);
                    }
                    Ok(SaveKind::MassEffect2(Box::new(n)))
                },
                Err(back) => {
                    proof {
                        assert(path@.subrange(0, path@.len() as int) =~= path@);
                    }
                    Err((SaveKind::MassEffect2(Box::new(back)), HeadMorphError::BadPath))
                },
            },
            SaveKind::MassEffect2Le(v) => match put_path(*v, path.as_slice(), 0, new) {
                Ok(n) => {
                    proof {
                        assert(path@.subrange(0, path@.len() as int) =~= path@);
                    }
                    Ok(SaveKind::MassEffect2Le(Box::new(n)))
                },
                Err(back) => {
                    proof {
                        assert(path@.subrange(0, path@.len() as int) =~= path@);
                    }
                    Err((SaveKind::MassEffect2Le(Box::new(back)), HeadMorphError::BadPath))
                },
            },
            SaveKind::MassEffect3(v) => match put_path(*v, path.as_slice(), 0, new) {
                Ok(n) => {
                    proof {
                        assert(path@.subrange(0, path@.len() as int) =~= path@);
                    }
                    Ok(SaveKind::MassEffect3(Box::new(n)))
                },
                Err(back) => {
                    proof {
                        assert(path@.subrange(0, path@.len() as int) =~= path@);
                    }
                    Err((SaveKind::MassEffect3(Box::new(back)), HeadMorphError::BadPath))
                },
            },
        }
    }
}

/// Three floats.
pub fn vector3d_schema() -> (r: Schema)
    ensures
        r matches Schema::Record(fs) && fs@.len() == 3,
{
    Schema::Record(vec![Schema::F32, Schema::F32, Schema::F32])
}

/// A map kept in insertion order: a count, then key and value pairs.
pub fn map_schema(value: Schema) -> (r: Schema)
    ensures
        r is List,
{
    Schema::List(Box::new(Schema::Record(vec![Schema::Str, value])))
}

/// The head-morph record: hair mesh, accessory meshes, morph features, offset
/// bones, four levels of detail of vertices, and the scalar, vector and
/// texture parameters.
pub fn head_morph_schema() -> (r: Schema)
    ensures
        r matches Schema::Record(fs) && fs@.len() == 11,
{
    let linear_color = Schema::Record(vec![Schema::F32, Schema::F32, Schema::F32, Schema::F32]);
    Schema::Record(
        vec![
            Schema::Str,
            Schema::List(Box::new(Schema::Str)),
            map_schema(Schema::F32),
            map_schema(vector3d_schema()),
            Schema::List(Box::new(vector3d_schema())),
            Schema::List(Box::new(vector3d_schema())),
            Schema::List(Box::new(vector3d_schema())),
            Schema::List(Box::new(vector3d_schema())),
            map_schema(Schema::F32),
            map_schema(linear_color),
            map_schema(Schema::Str),
        ],
    )
}

} // verus!
