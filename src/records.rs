//! Typed views of small records that many layouts share, with their schemas
//! and their conversions to and from decoded values.

use vstd::prelude::*;
use crate::model::{Schema, Val, Value, value_view, values_view};
use crate::codec::DecodeError;
use crate::seqs::{lemma_values_view, lemma_values_view_push};

verus! {

/// A record of signed words.
pub open spec fn int_record(xs: Seq<i32>) -> Val {
    Val::Record(xs.map_values(|n: i32| Val::I32(n)))
}

/// The value of a record of signed words.
pub fn int_record_value(xs: &Vec<i32>) -> (r: Value)
    ensures
        r@ == int_record(xs@),
{
    let mut vs: Vec<Value> = Vec::new();
    let mut i: usize = 0;
    while i < xs.len()
        invariant
            i <= xs@.len(),
            values_view(vs@) == xs@.subrange(0, i as int).map_values(|n: i32| Val::I32(n)),
        decreases xs@.len() - i,
    {
        proof {
            lemma_values_view_push(vs@, Value::I32(xs@[i as int]));
            assert(xs@.subrange(0, i + 1).map_values(|n: i32| Val::I32(n)) =~= xs@.subrange(0, i as int).map_values(
                |n: i32| Val::I32(n),
            ).push(Val::I32(xs@[i as int])));
        }
        vs.push(Value::I32(xs[i]));
        i += 1;
    }
    proof {
        assert(xs@.subrange(0, xs@.len() as int) =~= xs@);
    }
    Value::Record(vs)
}

/// The `n` signed words of a record of signed words.
pub fn int_record_of(v: &Value, n: usize) -> (r: Option<Vec<i32>>)
    ensures
        r matches Some(xs) ==> xs@.len() == n && int_record(xs@) == v@,
        r is None ==> forall|xs: Seq<i32>| xs.len() == n ==> int_record(xs) != v@,
{
    match v {
        Value::Record(vs) => {
            proof {
                lemma_values_view(vs@);
            }
            if vs.len() != n {
                return None;
            }
            let mut out: Vec<i32> = Vec::new();
            let mut i: usize = 0;
            while i < n
                invariant
                    v@ == Val::Record(values_view(vs@)),
                    n == vs@.len(),
                    i <= n,
                    values_view(vs@).len() == vs@.len(),
                    forall|j: int| 0 <= j < vs@.len() ==> #[trigger] values_view(vs@)[j] == value_view(vs@[j]),
                    out@.len() == i,
                    forall|j: int| 0 <= j < i ==> values_view(vs@)[j] == Val::I32(#[trigger] out@[j]),
                decreases n - i,
            {
                match &vs[i] {
                    Value::I32(x) => {
                        out.push(*x);
                    },
                    _ => {
                        proof {
                            assert forall|xs: Seq<i32>| xs.len() == n implies int_record(xs) != v@ by {
                                if int_record(xs) == v@ {
                                    assert(xs.map_values(|n: i32| Val::I32(n))[i as int] == Val::I32(xs[i as int]));
                                    assert(values_view(vs@)[i as int] == Val::I32(xs[i as int]));
                                }
                            }
                        }
                        return None;
                    },
                }
                i += 1;
            }
            proof {
                assert(out@.map_values(|n: i32| Val::I32(n)) =~= values_view(vs@));
            }
            Some(out)
        },
        _ => None,
    }
}

/// When a save was made.
#[derive(Debug, Clone, PartialEq, Eq)]
pub struct SaveTimeStamp {
    pub seconds_since_midnight: i32,
    pub day: i32,
    pub month: i32,
    pub year: i32,
}

impl SaveTimeStamp {
    pub open spec fn spec_value(&self) -> Val {
        int_record(seq![self.seconds_since_midnight, self.day, self.month, self.year])
    }

    pub fn schema() -> (r: Schema)
        ensures
            r matches Schema::Record(fs) && fs@.len() == 4,
    {
        Schema::Record(vec![Schema::I32, Schema::I32, Schema::I32, Schema::I32])
    }

    pub fn to_value(&self) -> (r: Value)
        ensures
            r@ == self.spec_value(),
    {
        let xs = vec![self.seconds_since_midnight, self.day, self.month, self.year];
        proof {
            assert(xs@ =~= seq![self.seconds_since_midnight, self.day, self.month, self.year]);
        }
        int_record_value(&xs)
    }

    pub fn from_value(v: &Value) -> (r: Option<SaveTimeStamp>)
        ensures
            r matches Some(t) ==> t.spec_value() == v@,
            r is None ==> forall|t: SaveTimeStamp| #[trigger] t.spec_value() != v@,
    {
        match int_record_of(v, 4) {
            Some(xs) => {
                let t = SaveTimeStamp { seconds_since_midnight: xs[0], day: xs[1], month: xs[2], year: xs[3] };
                proof {
                    assert(seq![xs@[0], xs@[1], xs@[2], xs@[3]] =~= xs@);
                }
                Some(t)
            },
            None => {
                proof {
                    assert forall|t: SaveTimeStamp| #[trigger] t.spec_value() != v@ by {
                        let s = seq![t.seconds_since_midnight, t.day, t.month, t.year];
                        assert(s.len() == 4);
                    }
                }
                None
            },
        }
    }
}

/// An orientation.
#[derive(Debug, Clone, PartialEq, Eq)]
pub struct Rotator {
    pub pitch: i32,
    pub yaw: i32,
    pub roll: i32,
}

impl Rotator {
    pub open spec fn spec_value(&self) -> Val {
        int_record(seq![self.pitch, self.yaw, self.roll])
    }

    pub fn schema() -> (r: Schema)
        ensures
            r matches Schema::Record(fs) && fs@.len() == 3,
    {
        Schema::Record(vec![Schema::I32, Schema::I32, Schema::I32])
    }

    pub fn to_value(&self) -> (r: Value)
        ensures
            r@ == self.spec_value(),
    {
        let xs = vec![self.pitch, self.yaw, self.roll];
        proof {
            assert(xs@ =~= seq![self.pitch, self.yaw, self.roll]);
        }
        int_record_value(&xs)
    }

    pub fn from_value(v: &Value) -> (r: Option<Rotator>)
        ensures
            r matches Some(t) ==> t.spec_value() == v@,
            r is None ==> forall|t: Rotator| #[trigger] t.spec_value() != v@,
    {
        match int_record_of(v, 3) {
            Some(xs) => {
                proof {
                    assert(seq![xs@[0], xs@[1], xs@[2]] =~= xs@);
                }
                Some(Rotator { pitch: xs[0], yaw: xs[1], roll: xs[2] })
            },
            None => {
                proof {
                    assert forall|t: Rotator| #[trigger] t.spec_value() != v@ by {
                        assert(seq![t.pitch, t.yaw, t.roll].len() == 3);
                    }
                }
                None
            },
        }
    }
}

/// An item that a plot event grants.
#[derive(Debug, Clone, PartialEq, Eq)]
pub struct PlotItem {
    pub localized_name: i32,
    pub localized_desc: i32,
    pub export_id: i32,
    pub base_price: i32,
    pub shop_gui_image_id: i32,
    pub plot_conditional_id: i32,
}

impl PlotItem {
    pub open spec fn fields(&self) -> Seq<i32> {
        seq![
            self.localized_name,
            self.localized_desc,
            self.export_id,
            self.base_price,
            self.shop_gui_image_id,
            self.plot_conditional_id,
        ]
    }

    pub open spec fn spec_value(&self) -> Val {
        int_record(self.fields())
    }

    pub fn schema() -> (r: Schema)
        ensures
            r matches Schema::Record(fs) && fs@.len() == 6,
    {
        Schema::Record(vec![Schema::I32, Schema::I32, Schema::I32, Schema::I32, Schema::I32, Schema::I32])
    }

    pub fn to_value(&self) -> (r: Value)
        ensures
            r@ == self.spec_value(),
    {
        let xs = vec![
            self.localized_name,
            self.localized_desc,
            self.export_id,
            self.base_price,
            self.shop_gui_image_id,
            self.plot_conditional_id,
        ];
        proof {
            assert(xs@ =~= self.fields());
        }
        int_record_value(&xs)
    }

    pub fn from_value(v: &Value) -> (r: Option<PlotItem>)
        ensures
            r matches Some(t) ==> t.spec_value() == v@,
            r is None ==> forall|t: PlotItem| #[trigger] t.spec_value() != v@,
    {
        match int_record_of(v, 6) {
            Some(xs) => {
                let t = PlotItem {
                    localized_name: xs[0],
                    localized_desc: xs[1],
                    export_id: xs[2],
                    base_price: xs[3],
                    shop_gui_image_id: xs[4],
                    plot_conditional_id: xs[5],
                };
                proof {
                    assert(t.fields() =~= xs@);
                }
                Some(t)
            },
            None => {
                proof {
                    assert forall|t: PlotItem| #[trigger] t.spec_value() != v@ by {
                        assert(t.fields().len() == 6);
                    }
                }
                None
            },
        }
    }
}

/// How the third game ended for the player.
#[derive(Clone, Copy, Debug, PartialEq, Eq, Structural)]
pub enum EndGameState {
    NotFinished,
    OutInABlazeOfGlory,
    LivedToFightAgain,
}

impl EndGameState {
    pub open spec fn spec_index(&self) -> u32 {
        match self {
            EndGameState::NotFinished => 0,
            EndGameState::OutInABlazeOfGlory => 1,
            EndGameState::LivedToFightAgain => 2,
        }
    }

    /// Stored as a 32-bit discriminant.
    pub fn schema() -> (r: Schema)
        ensures
            r == (Schema::Choice { count: 3, wide: true }),
    {
        Schema::Choice { count: 3, wide: true }
    }

    /// The state with discriminant `n`; discriminants from 3 on are invalid.
    pub fn deserialize(n: u32) -> (r: Result<EndGameState, DecodeError>)
        ensures
            r matches Ok(s) ==> s.spec_index() == n,
            r is Err <==> n >= 3,
            r matches Err(e) ==> e is InvalidVariant,
    {
        match n {
            0 => Ok(EndGameState::NotFinished),
            1 => Ok(EndGameState::OutInABlazeOfGlory),
            2 => Ok(EndGameState::LivedToFightAgain),
            _ => Err(DecodeError::InvalidVariant),
        }
    }

    pub fn serialize(&self) -> (r: u32)
        ensures
            r == self.spec_index(),
    {
        match self {
            EndGameState::NotFinished => 0,
            EndGameState::OutInABlazeOfGlory => 1,
            EndGameState::LivedToFightAgain => 2,
        }
    }
}

/// The player's origin.
#[derive(Clone, Copy, Debug, PartialEq, Eq, Structural)]
pub enum Origin {
    Unset,
    Spacer,
    Colonist,
    Earthborn,
}

impl Origin {
    pub open spec fn spec_index(&self) -> u8 {
        match self {
            Origin::Unset => 0,
            Origin::Spacer => 1,
            Origin::Colonist => 2,
            Origin::Earthborn => 3,
        }
    }

    /// Stored as a one-byte discriminant.
    pub fn schema() -> (r: Schema)
        ensures
            r == (Schema::Choice { count: 4, wide: false }),
    {
        Schema::Choice { count: 4, wide: false }
    }

    pub fn deserialize(n: u8) -> (r: Result<Origin, DecodeError>)
        ensures
            r matches Ok(s) ==> s.spec_index() == n,
            r is Err <==> n >= 4,
            r matches Err(e) ==> e is InvalidVariant,
    {
        match n {
            0 => Ok(Origin::Unset),
            1 => Ok(Origin::Spacer),
            2 => Ok(Origin::Colonist),
            3 => Ok(Origin::Earthborn),
            _ => Err(DecodeError::InvalidVariant),
        }
    }

    pub fn serialize(&self) -> (r: u8)
        ensures
            r == self.spec_index(),
    {
        match self {
            Origin::Unset => 0,
            Origin::Spacer => 1,
            Origin::Colonist => 2,
            Origin::Earthborn => 3,
        }
    }
}

/// The player's reputation.
#[derive(Clone, Copy, Debug, PartialEq, Eq, Structural)]
pub enum Notoriety {
    Unset,
    Survivor,
    Warhero,
    Ruthless,
}

impl Notoriety {
    pub open spec fn spec_index(&self) -> u8 {
        match self {
            Notoriety::Unset => 0,
            Notoriety::Survivor => 1,
            Notoriety::Warhero => 2,
            Notoriety::Ruthless => 3,
        }
    }

    /// Stored as a one-byte discriminant.
    pub fn schema() -> (r: Schema)
        ensures
            r == (Schema::Choice { count: 4, wide: false }),
    {
        Schema::Choice { count: 4, wide: false }
    }

    pub fn deserialize(n: u8) -> (r: Result<Notoriety, DecodeError>)
        ensures
            r matches Ok(s) ==> s.spec_index() == n,
            r is Err <==> n >= 4,
            r matches Err(e) ==> e is InvalidVariant,
    {
        match n {
            0 => Ok(Notoriety::Unset),
            1 => Ok(Notoriety::Survivor),
            2 => Ok(Notoriety::Warhero),
            3 => Ok(Notoriety::Ruthless),
            _ => Err(DecodeError::InvalidVariant),
        }
    }

    pub fn serialize(&self) -> (r: u8)
        ensures
            r == self.spec_index(),
    {
        match self {
            Notoriety::Unset => 0,
            Notoriety::Survivor => 1,
            Notoriety::Warhero => 2,
            Notoriety::Ruthless => 3,
        }
    }
}

/// Opaque padding of a fixed length, kept verbatim.
#[derive(Debug, Clone, PartialEq, Eq)]
pub struct Dummy<const BYTE_LEN: usize> {
    pub bytes: Vec<u8>,
}

impl<const BYTE_LEN: usize> Dummy<BYTE_LEN> {
    pub open spec fn wf(&self) -> bool {
        self.bytes@.len() == BYTE_LEN
    }

    pub fn schema() -> (r: Schema)
        ensures
            r == Schema::Pad(BYTE_LEN),
    {
        Schema::Pad(BYTE_LEN)
    }

    pub fn to_value(&self) -> (r: Value)
        ensures
            r@ == Val::Pad(self.bytes@),
    {
        let mut out: Vec<u8> = Vec::new();
        out.extend_from_slice(self.bytes.as_slice());
        assert(out@ =~= self.bytes@);
        Value::Pad(out)
    }
}

impl<const BYTE_LEN: usize> Default for Dummy<BYTE_LEN> {
    /// Zeroes.
    fn default() -> (r: Self)
        ensures
            r.wf(),
            forall|i: int| 0 <= i < BYTE_LEN ==> r.bytes@[i] == 0,
    {
        let mut bytes: Vec<u8> = Vec::new();
        let mut i: usize = 0;
        while i < BYTE_LEN
            invariant
                i <= BYTE_LEN,
                bytes@.len() == i,
                forall|j: int| 0 <= j < i ==> bytes@[j] == 0,
            decreases BYTE_LEN - i,
        {
            bytes.push(0);
            i += 1;
        }
        Dummy { bytes }
    }
}

/// The paths of a head-morph import: the save, the head-morph file, and the
/// new save.
#[derive(Debug, Clone, PartialEq, Eq)]
pub struct ImportHeadMorph {
    pub save: String,
    pub input: String,
    pub output: String,
}

/// The paths of a head-morph export: the save and the head-morph file.
#[derive(Debug, Clone, PartialEq, Eq)]
pub struct ExportHeadMorph {
    pub save: String,
    pub output: String,
}

/// Copies a byte string.
fn copy_bytes(b: &Vec<u8>) -> (r: Vec<u8>)
    ensures
        r@ == b@,
{
    let mut out: Vec<u8> = Vec::new();
    out.extend_from_slice(b.as_slice());
    assert(out@ =~= b@);
    out
}

/// Whether a level streams in.
#[derive(Debug, Clone, PartialEq, Eq)]
pub struct StreamingState {
    pub name: Vec<u8>,
    pub is_active: bool,
}

impl StreamingState {
    pub open spec fn spec_value(&self) -> Val {
        Val::Record(seq![Val::Str(self.name@), Val::Bool(self.is_active)])
    }

    pub fn schema() -> (r: Schema)
        ensures
            r matches Schema::Record(fs) && fs@.len() == 2,
    {
        Schema::Record(vec![Schema::Str, Schema::Bool])
    }

    pub fn to_value(&self) -> (r: Value)
        ensures
            r@ == self.spec_value(),
    {
        let vs = vec![Value::Str(copy_bytes(&self.name)), Value::Bool(self.is_active)];
        proof {
            lemma_values_view(vs@);
            assert(values_view(vs@) =~= seq![Val::Str(self.name@), Val::Bool(self.is_active)]);
        }
        Value::Record(vs)
    }

    pub fn from_value(v: &Value) -> (r: Option<StreamingState>)
        ensures
            r matches Some(t) ==> t.spec_value() == v@,
            r is None ==> forall|t: StreamingState| #[trigger] t.spec_value() != v@,
    {
        if let Value::Record(vs) = v {
            proof {
                lemma_values_view(vs@);
            }
            if vs.len() == 2 {
                if let (Value::Str(name), Value::Bool(is_active)) = (&vs[0], &vs[1]) {
                    let t = StreamingState { name: copy_bytes(name), is_active: *is_active };
                    proof {
                        assert(values_view(vs@) =~= seq![Val::Str(name@), Val::Bool(*is_active)]);
                    }
                    return Some(t);
                }
            }
            proof {
                assert forall|t: StreamingState| #[trigger] t.spec_value() != v@ by {
                    if t.spec_value() == v@ {
                        assert(values_view(vs@)[0] == Val::Str(t.name@));
                        assert(values_view(vs@)[1] == Val::Bool(t.is_active));
                    }
                }
            }
        }
        None
    }
}

/// A power bound to a hotkey for a squad member.
#[derive(Debug, Clone, PartialEq, Eq)]
pub struct Hotkey {
    pub pawn_name: Vec<u8>,
    pub power_id: i32,
}

impl Hotkey {
    pub open spec fn spec_value(&self) -> Val {
        Val::Record(seq![Val::Str(self.pawn_name@), Val::I32(self.power_id)])
    }

    pub fn schema() -> (r: Schema)
        ensures
            r matches Schema::Record(fs) && fs@.len() == 2,
    {
        Schema::Record(vec![Schema::Str, Schema::I32])
    }

    pub fn to_value(&self) -> (r: Value)
        ensures
            r@ == self.spec_value(),
    {
        let vs = vec![Value::Str(copy_bytes(&self.pawn_name)), Value::I32(self.power_id)];
        proof {
            lemma_values_view(vs@);
            assert(values_view(vs@) =~= seq![Val::Str(self.pawn_name@), Val::I32(self.power_id)]);
        }
        Value::Record(vs)
    }

    pub fn from_value(v: &Value) -> (r: Option<Hotkey>)
        ensures
            r matches Some(t) ==> t.spec_value() == v@,
            r is None ==> forall|t: Hotkey| #[trigger] t.spec_value() != v@,
    {
        if let Value::Record(vs) = v {
            proof {
                lemma_values_view(vs@);
            }
            if vs.len() == 2 {
                if let (Value::Str(name), Value::I32(id)) = (&vs[0], &vs[1]) {
                    let t = Hotkey { pawn_name: copy_bytes(name), power_id: *id };
                    proof {
                        assert(values_view(vs@) =~= seq![Val::Str(name@), Val::I32(*id)]);
                    }
                    return Some(t);
                }
            }
            proof {
                assert forall|t: Hotkey| #[trigger] t.spec_value() != v@ by {
                    if t.spec_value() == v@ {
                        assert(values_view(vs@)[0] == Val::Str(t.pawn_name@));
                        assert(values_view(vs@)[1] == Val::I32(t.power_id));
                    }
                }
            }
        }
        None
    }
}

/// A GUID: a 32-bit word, two 16-bit words, then eight bytes, each word in the
/// byte order of the pass.
pub fn guid_schema() -> (r: Schema)
    ensures
        r matches Schema::Record(fs) && fs@.len() == 4,
{
    Schema::Record(vec![Schema::U32, Schema::U16, Schema::U16, Schema::Pad(8)])
}

} // verus!
