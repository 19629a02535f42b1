//! Encoding values into bytes.

use crate::codec::{
    enc, enc_bytes, enc_seq, head_of, head_total, heads, lemma_all_conform, lemma_all_values_valid,
    lemma_heads_len, lemma_rank_le, max_rank, pad_len, tail_of, tails,
};
use crate::conformance::{conform_each, lemma_conform_each};
use crate::errors::AbiError;
use crate::types::{type_views, Type};
use crate::values::{
    all_values_valid, lemma_all_values_valid_mono, lemma_types_of, types_of, views, Value,
    ValueView,
};
use crate::word::{lemma_word_of_own_value, zeros, Word};
use vstd::prelude::*;

verus! {

/// The models of the values that `items` refer to, in order.
pub open spec fn ref_views(items: Seq<&Value>) -> Seq<ValueView> {
    Seq::new(items.len(), |i: int| items[i]@)
}

/// Appends the bytes `src` to `out`.
pub fn append_bytes(out: &mut Vec<u8>, src: &[u8])
    ensures
        final(out)@ == old(out)@ + src@,
{
    let mut i: usize = 0;
    while i < src.len()
        invariant
            i <= src.len(),
            out@ == old(out)@ + src@.subrange(0, i as int),
        decreases src.len() - i,
    {
        out.push(src[i]);
        i += 1;
        assert(out@ =~= old(out)@ + src@.subrange(0, i as int));
    }
    assert(src@.subrange(0, src.len() as int) =~= src@);
}

/// Appends `n` zero bytes to `out`.
pub fn append_zeros(out: &mut Vec<u8>, n: usize)
    ensures
        final(out)@ == old(out)@ + zeros(n as nat),
{
    let mut i: usize = 0;
    while i < n
        invariant
            i <= n,
            out@ == old(out)@ + zeros(i as nat),
        decreases n - i,
    {
        out.push(0);
        i += 1;
        assert(out@ =~= old(out)@ + zeros(i as nat));
    }
}

/// Appends a byte string as the tail holds it: its length as a word, the
/// bytes, and zeros up to a multiple of 32.
fn append_padded(out: &mut Vec<u8>, bytes: &[u8])
    ensures
        final(out)@ == old(out)@ + enc_bytes(bytes@),
{
    let w = Word::from_usize(bytes.len());
    append_bytes(out, &w.bytes);
    append_bytes(out, bytes);
    let r: usize = bytes.len() % 32;
    let pad: usize = if r == 0 {
        0
    } else {
        32 - r
    };
    assert(pad == pad_len(bytes@.len()));
    append_zeros(out, pad);
    assert(final(out)@ =~= old(out)@ + enc_bytes(bytes@));
}

/// References to the values `vs`, in order.
fn child_refs(vs: &Vec<Value>) -> (items: Vec<&Value>)
    ensures
        items.len() == vs.len(),
        ref_views(items@) == views(vs@),
{
    let mut items: Vec<&Value> = Vec::new();
    let mut i: usize = 0;
    while i < vs.len()
        invariant
            i <= vs.len(),
            items.len() == i,
            forall|j: int| 0 <= j < i ==> (#[trigger] items[j])@ == vs[j]@,
        decreases vs.len() - i,
    {
        items.push(&vs[i]);
        i += 1;
    }
    assert(ref_views(items@) =~= views(vs@));
    items
}

/// References to the values of the fields `fields`, in order.
fn field_refs(fields: &Vec<(String, Value)>) -> (items: Vec<&Value>)
    ensures
        items.len() == fields.len(),
        forall|j: int| 0 <= j < fields.len() ==> (#[trigger] items[j])@ == fields[j].1@,
{
    let mut items: Vec<&Value> = Vec::new();
    let mut i: usize = 0;
    while i < fields.len()
        invariant
            i <= fields.len(),
            items.len() == i,
            forall|j: int| 0 <= j < i ==> (#[trigger] items[j])@ == fields[j].1@,
        decreases fields.len() - i,
    {
        items.push(&fields[i].1);
        i += 1;
    }
    items
}

/// Encodes one valid value: in place where its type is static, else the
/// body that goes to the tail.
pub(crate) fn encode_value(v: &Value) -> (out: Vec<u8>)
    requires
        v@.valid(),
    ensures
        out@ == enc(v@),
    decreases v@.rank(), 1nat,
{
    let mut out: Vec<u8> = Vec::new();
    match v {
        Value::Uint(w, _) => {
            proof {
                vstd::array::array_len_matches_n(&w.bytes);
                lemma_word_of_own_value(w@);
            }
            append_bytes(&mut out, &w.bytes);
        },
        Value::Int(w, _) => {
            proof {
                vstd::array::array_len_matches_n(&w.bytes);
                lemma_word_of_own_value(w@);
            }
            append_bytes(&mut out, &w.bytes);
        },
        Value::Address(a) => {
            append_zeros(&mut out, 12);
            append_bytes(&mut out, &a.bytes);
        },
        Value::Bool(b) => {
            let w = if *b {
                Word::from_u64(1)
            } else {
                Word::from_u64(0)
            };
            append_bytes(&mut out, &w.bytes);
        },
        Value::FixedBytes(b) => {
            append_bytes(&mut out, b.as_slice());
            append_zeros(&mut out, 32 - b.len());
        },
        Value::Bytes(b) => {
            append_padded(&mut out, b.as_slice());
        },
        Value::String(s) => {
            append_padded(&mut out, s.as_str().as_bytes());
        },
        Value::Array(vs, t) => {
            let items = child_refs(vs);
            proof {
                assert(views(vs@) =~= v@->Array_0);
                lemma_all_conform(v@->Array_0, t@, vs.len() as nat);
            }
            let w = Word::from_usize(vs.len());
            append_bytes(&mut out, &w.bytes);
            let body = encode_block(&items);
            append_bytes(&mut out, body.as_slice());
        },
        Value::FixedArray(vs, t) => {
            let items = child_refs(vs);
            proof {
                assert(views(vs@) =~= v@->FixedArray_0);
                lemma_all_conform(v@->FixedArray_0, t@, vs.len() as nat);
            }
            let body = encode_block(&items);
            append_bytes(&mut out, body.as_slice());
        },
        Value::Tuple(fields) => {
            let items = field_refs(fields);
            proof {
                assert(ref_views(items@) =~= v@->Tuple_1);
            }
            let body = encode_block(&items);
            append_bytes(&mut out, body.as_slice());
        },
    }
    out
}

/// Encodes a block of valid values: the heads, then the tails.
pub(crate) fn encode_block(items: &Vec<&Value>) -> (out: Vec<u8>)
    requires
        all_values_valid(ref_views(items@), items.len() as nat),
    ensures
        out@ == enc_seq(ref_views(items@)),
    decreases max_rank(ref_views(items@), items.len() as nat), 2nat,
{
    let ghost vs = ref_views(items@);
    let ghost ts = types_of(vs, vs.len());
    let n: usize = items.len();
    proof {
        lemma_all_values_valid(vs, n as nat);
        lemma_types_of(vs, n as nat);
    }
    // the encoding of each value, the tail built from the dynamic ones, and
    // where in the tail each value's body starts
    let mut parts: Vec<Vec<u8>> = Vec::new();
    let mut dynamic: Vec<bool> = Vec::new();
    let mut starts: Vec<usize> = Vec::new();
    let mut tail: Vec<u8> = Vec::new();
    let mut head_len: u128 = 0;
    let mut i: usize = 0;
    while i < n
        invariant
            i <= n,
            n == items.len(),
            vs == ref_views(items@),
            ts == types_of(vs, vs.len()),
            all_values_valid(vs, n as nat),
            forall|j: int| 0 <= j < n ==> (#[trigger] vs[j]).valid(),
            parts.len() == i,
            dynamic.len() == i,
            starts.len() == i,
            forall|j: int| 0 <= j < i ==> (#[trigger] parts[j])@ == enc(vs[j]),
            forall|j: int| 0 <= j < i ==> (#[trigger] dynamic[j]) == vs[j].is_dynamic(),
            forall|j: int| 0 <= j < i ==> (#[trigger] starts[j]) == tails(vs, j as nat).len(),
            tail@ == tails(vs, i as nat),
            head_len == heads(vs, i as nat, 0).len(),
            head_len <= i * usize::MAX,
        decreases n - i,
    {
        let item: &Value = items[i];
        proof {
            lemma_rank_le(vs, i as int, n as nat);
            assert(vs[i as int] == item@);
            assert(vs[i as int].valid());
        }
        let d = item.is_dynamic();
        let part = encode_value(item);
        starts.push(tail.len());
        proof {
            assert(heads(vs, (i + 1) as nat, 0) == heads(vs, i as nat, 0) + head_of(
                vs,
                i as int,
                0,
            ));
            assert(tails(vs, (i + 1) as nat) == tails(vs, i as nat) + tail_of(vs, i as int));
            assert(i * usize::MAX + usize::MAX == (i + 1) * usize::MAX) by (nonlinear_arith);
            assert((i + 1) * usize::MAX <= usize::MAX * usize::MAX) by (nonlinear_arith)
                requires
                    i + 1 <= usize::MAX,
            ;
            assert(usize::MAX * usize::MAX <= 0xffff_ffff_ffff_ffff * 0xffff_ffff_ffff_ffff)
                by (nonlinear_arith)
                requires
                    usize::MAX <= 0xffff_ffff_ffff_ffff,
            ;
        }
        if d {
            append_bytes(&mut tail, part.as_slice());
            proof {
                crate::word::lemma_word_len(tails(vs, i as nat).len(), 0);
            }
            head_len = head_len + 32;
        } else {
            assert(tail@ + Seq::<u8>::empty() =~= tail@);
            head_len = head_len + part.len() as u128;
        }
        parts.push(part);
        dynamic.push(d);
        i += 1;
    }
    proof {
        lemma_heads_len(vs, n as nat, 0);
        assert(head_len == head_total(vs));
        assert(n * usize::MAX + usize::MAX == (n + 1) * usize::MAX) by (nonlinear_arith);
        assert((n + 1) * usize::MAX <= 0x1_0000_0000_0000_0000 * 0xffff_ffff_ffff_ffff)
            by (nonlinear_arith)
            requires
                n + 1 <= 0x1_0000_0000_0000_0000,
                usize::MAX <= 0xffff_ffff_ffff_ffff,
        ;
    }
    // the heads
    let mut out: Vec<u8> = Vec::new();
    let mut k: usize = 0;
    while k < n
        invariant
            k <= n,
            n == items.len(),
            vs == ref_views(items@),
            parts.len() == n,
            dynamic.len() == n,
            starts.len() == n,
            forall|j: int| 0 <= j < n ==> (#[trigger] parts[j])@ == enc(vs[j]),
            forall|j: int| 0 <= j < n ==> (#[trigger] dynamic[j]) == vs[j].is_dynamic(),
            forall|j: int| 0 <= j < n ==> (#[trigger] starts[j]) == tails(vs, j as nat).len(),
            head_len == head_total(vs),
            head_len + usize::MAX <= u128::MAX,
            out@ == heads(vs, k as nat, head_total(vs)),
        decreases n - k,
    {
        proof {
            assert(heads(vs, (k + 1) as nat, head_total(vs)) == heads(
                vs,
                k as nat,
                head_total(vs),
            ) + head_of(vs, k as int, head_total(vs)));
        }
        if dynamic[k] {
            let w = Word::from_u128(head_len + starts[k] as u128);
            append_bytes(&mut out, &w.bytes);
        } else {
            append_bytes(&mut out, parts[k].as_slice());
        }
        k += 1;
    }
    append_bytes(&mut out, tail.as_slice());
    out
}

impl Value {
    /// Encodes the values as one block: the heads, then the tails, with no
    /// selector before them. Fails where one of the values is not a valid
    /// value of its own type.
    pub fn encode(values: &[Value]) -> (r: Result<Vec<u8>, AbiError>)
        ensures
            match r {
                Ok(bytes) => all_values_valid(views(values@), values.len() as nat) && bytes@
                    == enc_seq(views(values@)),
                Err(e) => e == AbiError::InvalidValue && !all_values_valid(
                    views(values@),
                    values.len() as nat,
                ),
            },
    {
        let ghost vs = views(values@);
        let mut items: Vec<&Value> = Vec::new();
        let mut i: usize = 0;
        while i < values.len()
            invariant
                i <= values.len(),
                items.len() == i,
                vs == views(values@),
                all_values_valid(vs, i as nat),
                forall|j: int| 0 <= j < i ==> (#[trigger] items[j])@ == values[j]@,
            decreases values.len() - i,
        {
            if !values[i].is_valid() {
                proof {
                    lemma_all_values_valid_mono(vs, (i + 1) as nat, vs.len());
                }
                return Err(AbiError::InvalidValue);
            }
            items.push(&values[i]);
            i += 1;
        }
        assert(ref_views(items@) =~= vs);
        Ok(encode_block(&items))
    }

    /// Encodes the values as one block of the types `types`. Fails where
    /// there is not one value for each type, or a value is not a valid
    /// value of the type at its place: an integer outside the range of its
    /// width, a fixed byte string or a fixed array of another length, an
    /// element of another type.
    pub fn encode_as(values: &[Value], types: &[Type]) -> (r: Result<Vec<u8>, AbiError>)
        ensures
            match r {
                Ok(bytes) => conform_each(views(values@), type_views(types@)) && bytes@
                    == enc_seq(views(values@)),
                Err(e) => e == AbiError::InvalidValue && !conform_each(
                    views(values@),
                    type_views(types@),
                ),
            },
    {
        let ghost vs = views(values@);
        let ghost ts = type_views(types@);
        if values.len() != types.len() {
            return Err(AbiError::InvalidValue);
        }
        let mut i: usize = 0;
        while i < values.len()
            invariant
                i <= values.len(),
                values.len() == types.len(),
                vs == views(values@),
                ts == type_views(types@),
                forall|j: int| 0 <= j < i ==> (#[trigger] vs[j]).conforms(ts[j]),
            decreases values.len() - i,
        {
            assert(vs[i as int] == values[i as int]@);
            assert(ts[i as int] == types[i as int]@);
            if !values[i].conforms_to(&types[i]) {
                return Err(AbiError::InvalidValue);
            }
            i += 1;
        }
        proof {
            lemma_conform_each(vs, ts, vs.len());
        }
        Value::encode(values)
    }
}

} // verus!
