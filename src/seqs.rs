//! Facts about sequences of values that the codec's loops rely on.

use vstd::prelude::*;
use crate::word::Endian;
use crate::model::{
    Schema, TagEntry, Val, Value, all_encodable, enc, enc_all, encodable, reads, reads_all,
    rest, value_view, values_view,
};

verus! {

/// The model of a sequence of values is the model of each.
pub proof fn lemma_values_view(vs: Seq<Value>)
    ensures
        values_view(vs).len() == vs.len(),
        forall|i: int| 0 <= i < vs.len() ==> #[trigger] values_view(vs)[i] == value_view(vs[i]),
    decreases vs.len(),
{
    if vs.len() > 0 {
        lemma_values_view(vs.subrange(0, vs.len() - 1));
    }
}

/// Appending a value appends its model.
pub proof fn lemma_values_view_push(vs: Seq<Value>, v: Value)
    ensures
        values_view(vs.push(v)) == values_view(vs).push(value_view(v)),
{
    assert(vs.push(v).subrange(0, vs.len() as int) =~= vs);
}

/// The encoding of one more value is the old encoding followed by the value's.
pub proof fn lemma_enc_all_push(vs: Seq<Val>, v: Val, e: Endian)
    ensures
        enc_all(vs.push(v), e) == enc_all(vs, e) + enc(v, e),
{
    assert(vs.push(v).subrange(0, vs.len() as int) =~= vs);
}

pub proof fn lemma_all_encodable(vs: Seq<Val>)
    requires
        all_encodable(vs),
    ensures
        forall|i: int| 0 <= i < vs.len() ==> encodable(#[trigger] vs[i]),
    decreases vs.len(),
{
    if vs.len() > 0 {
        lemma_all_encodable(vs.subrange(0, vs.len() - 1));
        assert forall|i: int| 0 <= i < vs.len() implies encodable(#[trigger] vs[i]) by {
            if i < vs.len() - 1 {
                assert(vs.subrange(0, vs.len() - 1)[i] == vs[i]);
            }
        }
    }
}

/// A read of several fields reads each of its leading parts, and the next field
/// right after them.
pub proof fn lemma_reads_all_take(
    fs: Seq<Schema>,
    vs: Seq<Val>,
    x: Seq<u8>,
    tbl: Seq<TagEntry>,
    e: Endian,
    k: int,
)
    requires
        reads_all(fs, vs, x, tbl, e),
        0 <= k < vs.len(),
    ensures
        reads_all(fs.subrange(0, k), vs.subrange(0, k), x, tbl, e),
        reads(fs[k], vs[k], rest(x, enc_all(vs.subrange(0, k), e).len() as int), tbl, e),
    decreases vs.len(),
{
    let n = vs.len() - 1;
    if k < n {
        lemma_reads_all_take(fs.subrange(0, n), vs.subrange(0, n), x, tbl, e, k);
        assert(fs.subrange(0, n).subrange(0, k) =~= fs.subrange(0, k));
        assert(vs.subrange(0, n).subrange(0, k) =~= vs.subrange(0, k));
    }
}

/// One more field read right after the others extends the read.
pub proof fn lemma_reads_all_push(
    fs: Seq<Schema>,
    vs: Seq<Val>,
    f: Schema,
    v: Val,
    x: Seq<u8>,
    tbl: Seq<TagEntry>,
    e: Endian,
)
    requires
        reads_all(fs, vs, x, tbl, e),
        reads(f, v, rest(x, enc_all(vs, e).len() as int), tbl, e),
    ensures
        reads_all(fs.push(f), vs.push(v), x, tbl, e),
{
    assert(fs.push(f).subrange(0, fs.len() as int) =~= fs);
    assert(vs.push(v).subrange(0, vs.len() as int) =~= vs);
}

} // verus!
