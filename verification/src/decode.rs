//! Decoding bytes into values.

use crate::codec::{dec, dec_block, dec_list, dec_word, decoded, repeat, utf8_lossy, word_at};
use crate::errors::{AbiError, Limits};
use crate::types::{
    all_valid, copy_type, heads_len, lemma_all_valid_mono, lemma_heads_len_mono, type_views,
    Type, TypeView,
};
use crate::values::{views, Value, ValueView};
use crate::word::{be_nat, Address, Word};
use vstd::prelude::*;
use vstd::slice::{slice_subrange, slice_to_vec};
use vstd::utf8::{decode_utf8, valid_utf8};

verus! {

/// The models of the types that `types` refer to, in order.
pub open spec fn ref_type_views(types: Seq<&Type>) -> Seq<TypeView> {
    Seq::new(types.len(), |i: int| types[i]@)
}

/// The model of a decoded value, or the error.
pub open spec fn value_result(r: Result<Value, AbiError>) -> Result<ValueView, AbiError> {
    match r {
        Ok(v) => Ok(v@),
        Err(e) => Err(e),
    }
}

/// The models of decoded values, or the error.
pub open spec fn values_result(r: Result<Vec<Value>, AbiError>) -> Result<
    Seq<ValueView>,
    AbiError,
> {
    match r {
        Ok(vs) => Ok(views(vs@)),
        Err(e) => Err(e),
    }
}

/// `String::from_utf8_lossy`, made an owned `String`: the text that a lossy
/// reading of `bytes` gives, which is the text that `bytes` encode where
/// they are valid UTF-8.
#[verifier::external_body]
fn text_from_utf8_lossy(bytes: &[u8]) -> (s: String)
    ensures
        s@ == utf8_lossy(bytes@),
        valid_utf8(bytes@) ==> s@ == decode_utf8(bytes@),
{
    String::from_utf8_lossy(bytes).into_owned()
}

/// The heads of `i` values of one type take `i` times the head size of that
/// type.
pub proof fn lemma_heads_len_repeat(t: TypeView, n: nat, i: nat)
    requires
        i <= n,
    ensures
        heads_len(repeat(t, n), i) == i * t.head_size(),
    decreases i,
{
    if i == 0 {
        assert(0 * t.head_size() == 0) by (nonlinear_arith);
    } else {
        lemma_heads_len_repeat(t, n, (i - 1) as nat);
        assert((i - 1) * t.head_size() + t.head_size() == i * t.head_size())
            by (nonlinear_arith);
    }
}

/// The first `n` types are well formed if and only if each of them is.
pub proof fn lemma_all_valid_index(types: Seq<TypeView>, n: nat)
    requires
        n <= types.len(),
    ensures
        all_valid(types, n) <==> forall|i: int| 0 <= i < n ==> (#[trigger] types[i]).valid(),
    decreases n,
{
    if n > 0 {
        lemma_all_valid_index(types, (n - 1) as nat);
    }
}

/// An error met among the first `i` values of a block is the error of the
/// whole block's values.
pub proof fn lemma_dec_list_err(
    bs: Seq<u8>,
    types: Seq<TypeView>,
    base: nat,
    i: nat,
    n: nat,
    max_len: nat,
    depth: nat,
)
    requires
        i <= n <= types.len(),
        dec_list(bs, types, base, i, max_len, depth) is Err,
    ensures
        dec_list(bs, types, base, n, max_len, depth) == dec_list(
            bs,
            types,
            base,
            i,
            max_len,
            depth,
        ),
    decreases n,
{
    if i < n {
        lemma_dec_list_err(bs, types, base, i, (n - 1) as nat, max_len, depth);
    }
}

/// A head that would stand past the end of `bs` decodes to nothing.
pub proof fn lemma_dec_past_end(
    bs: Seq<u8>,
    t: TypeView,
    base: nat,
    at: nat,
    max_len: nat,
    depth: nat,
)
    requires
        base + at > bs.len(),
        depth > 0 || !(t is FixedArray || t is Array || t is Tuple),
    ensures
        dec(bs, t, base, at, max_len, depth) == Err::<ValueView, AbiError>(AbiError::ShortInput),
{
}

/// The word that stands at `pos` in `bs`, where 32 bytes stand there.
fn word_in(bs: &[u8], pos: usize) -> (r: Option<Word>)
    ensures
        match r {
            Some(w) => pos + 32 <= bs.len() && w@ == word_at(bs@, pos as int),
            None => pos + 32 > bs.len(),
        },
{
    if pos > bs.len() || bs.len() - pos < 32 {
        None
    } else {
        Some(Word::from_slice(bs, pos))
    }
}

/// The place `base + n`, where `n` is the number that the word at `pos`
/// spells; `None` where the word does not lie in `bs` or the place is past
/// every place of `bs`.
fn body_start(bs: &[u8], base: usize, pos: usize) -> (r: Option<usize>)
    ensures
        match r {
            Some(b) => pos + 32 <= bs.len() && b == base + be_nat(word_at(bs@, pos as int)),
            None => pos + 32 > bs.len() || base + be_nat(word_at(bs@, pos as int))
                > usize::MAX,
        },
{
    match word_in(bs, pos) {
        None => None,
        Some(w) => match w.to_usize() {
            None => None,
            Some(off) => base.checked_add(off),
        },
    }
}

/// `n` references to the type `elem`.
fn repeat_refs(elem: &Type, n: usize) -> (types: Vec<&Type>)
    ensures
        ref_type_views(types@) == repeat(elem@, n as nat),
        types.len() == n,
{
    let mut types: Vec<&Type> = Vec::new();
    let mut i: usize = 0;
    while i < n
        invariant
            i <= n,
            types.len() == i,
            forall|j: int| 0 <= j < i ==> (#[trigger] types[j])@ == elem@,
        decreases n - i,
    {
        types.push(elem);
        i += 1;
    }
    assert(ref_type_views(types@) =~= repeat(elem@, n as nat));
    types
}

/// References to the types of the fields `fields`, in order.
fn field_type_refs(fields: &Vec<(String, Type)>) -> (types: Vec<&Type>)
    ensures
        types.len() == fields.len(),
        forall|j: int| 0 <= j < fields.len() ==> (#[trigger] types[j])@ == fields[j].1@,
{
    let mut types: Vec<&Type> = Vec::new();
    let mut i: usize = 0;
    while i < fields.len()
        invariant
            i <= fields.len(),
            types.len() == i,
            forall|j: int| 0 <= j < i ==> (#[trigger] types[j])@ == fields[j].1@,
        decreases fields.len() - i,
    {
        types.push(&fields[i].1);
        i += 1;
    }
    types
}

/// Decodes the 32 bytes at `pos` as a value of the elementary static type
/// `ty`.
fn decode_word(bs: &[u8], ty: &Type, pos: usize) -> (v: Value)
    requires
        pos + 32 <= bs.len(),
        ty@.valid(),
        ty is Uint || ty is Int || ty is Address || ty is Bool || ty is FixedBytes,
    ensures
        v@ == dec_word(bs@, ty@, pos as int),
{
    let w = Word::from_slice(bs, pos);
    match ty {
        Type::Uint(bits) => Value::Uint(w.truncate_uint(*bits), *bits),
        Type::Int(bits) => Value::Int(w.sign_extend(*bits), *bits),
        Type::Address => {
            let mut bytes = [0u8; 20];
            let mut i: usize = 0;
            while i < 20
                invariant
                    i <= 20,
                    forall|j: int| 0 <= j < i ==> bytes@[j] == w@[12 + j],
                decreases 20 - i,
            {
                bytes[i] = w.bytes[12 + i];
                i += 1;
            }
            let a = Address { bytes };
            assert(a@ =~= w@.subrange(12, 32));
            Value::Address(a)
        },
        Type::FixedBytes(n) => {
            let content = slice_to_vec(slice_subrange(&w.bytes, 0, *n));
            Value::FixedBytes(content)
        },
        _ => Value::Bool(!w.is_zero()),
    }
}

/// Decodes the value of type `ty` whose head stands at `at` in the block
/// that starts at `base`.
pub(crate) fn decode_at(
    bs: &[u8],
    ty: &Type,
    base: usize,
    at: usize,
    limits: &Limits,
    depth: usize,
) -> (r: Result<Value, AbiError>)
    requires
        ty@.valid(),
    ensures
        value_result(r) == dec(
            bs@,
            ty@,
            base as nat,
            at as nat,
            limits.max_array_len as nat,
            depth as nat,
        ),
    decreases depth, 0nat,
{
    let size: usize = bs.len();
    assert(bs@.len() == size);
    let composite = match ty {
        Type::FixedArray(_, _) | Type::Array(_) | Type::Tuple(_) => true,
        _ => false,
    };
    if composite && depth == 0 {
        return Err(AbiError::LimitExceeded);
    }
    let pos: usize = match base.checked_add(at) {
        None => {
            proof {
                lemma_dec_past_end(
                    bs@,
                    ty@,
                    base as nat,
                    at as nat,
                    limits.max_array_len as nat,
                    depth as nat,
                );
            }
            return Err(AbiError::ShortInput);
        },
        Some(p) => p,
    };
    let dynamic = ty.is_dynamic();
    let start: usize = if dynamic {
        match body_start(bs, base, pos) {
            None => {
                return Err(AbiError::ShortInput);
            },
            Some(b) => b,
        }
    } else {
        pos
    };
    match ty {
        Type::FixedArray(elem, n) => {
            proof {
                lemma_heads_len_repeat(elem@, *n as nat, *n as nat);
            }
            // the heads must fit before the elements are listed
            let fits = match elem.head_size() {
                None => *n == 0,
                Some(h) => match n.checked_mul(h) {
                    None => false,
                    Some(total) => start <= bs.len() && total <= bs.len() - start,
                },
            };
            if !fits {
                proof {
                    if *n >= 1 {
                        assert(*n * elem@.head_size() >= elem@.head_size()) by (nonlinear_arith)
                            requires
                                *n >= 1,
                        ;
                    }
                }
                return Err(AbiError::ShortInput);
            }
            let types = repeat_refs(elem, *n);
            proof {
                lemma_all_valid_index(repeat(elem@, *n as nat), *n as nat);
            }
            match decode_block(bs, &types, start, limits, depth - 1) {
                Err(e) => Err(e),
                Ok(vs) => {
                    let v = Value::FixedArray(vs, copy_type(elem));
                    assert(v@->FixedArray_0 =~= views(vs@));
                    Ok(v)
                },
            }
        },
        Type::Tuple(fields) => {
            let types = field_type_refs(fields);
            proof {
                assert(ref_type_views(types@) =~= ty@->Tuple_1);
                lemma_all_valid_index(ty@->Tuple_1, fields.len() as nat);
            }
            match decode_block(bs, &types, start, limits, depth - 1) {
                Err(e) => Err(e),
                Ok(vs) => {
                    let named = name_fields(fields, vs);
                    let v = Value::Tuple(named);
                    assert(v@->Tuple_0 =~= ty@->Tuple_0);
                    assert(v@->Tuple_1 =~= views(vs@));
                    Ok(v)
                },
            }
        },
        Type::Array(elem) => {
            let count = match word_in(bs, start) {
                None => {
                    return Err(AbiError::ShortInput);
                },
                Some(w) => w.to_usize(),
            };
            let n: usize = match count {
                None => {
                    return Err(AbiError::LimitExceeded);
                },
                Some(n) => n,
            };
            if n > limits.max_array_len {
                return Err(AbiError::LimitExceeded);
            }
            proof {
                lemma_heads_len_repeat(elem@, n as nat, n as nat);
            }
            let fits = match elem.head_size() {
                None => n == 0,
                Some(h) => match n.checked_mul(h) {
                    None => false,
                    Some(total) => total <= bs.len() - (start + 32),
                },
            };
            if !fits {
                proof {
                    if n >= 1 {
                        assert(n * elem@.head_size() >= elem@.head_size()) by (nonlinear_arith)
                            requires
                                n >= 1,
                        ;
                    }
                }
                return Err(AbiError::ShortInput);
            }
            let types = repeat_refs(elem, n);
            proof {
                lemma_all_valid_index(repeat(elem@, n as nat), n as nat);
            }
            match decode_block(bs, &types, start + 32, limits, depth - 1) {
                Err(e) => Err(e),
                Ok(vs) => {
                    let v = Value::Array(vs, copy_type(elem));
                    assert(v@->Array_0 =~= views(vs@));
                    Ok(v)
                },
            }
        },
        Type::Bytes | Type::String => {
            let count = match word_in(bs, start) {
                None => {
                    return Err(AbiError::ShortInput);
                },
                Some(w) => w.to_usize(),
            };
            let n: usize = match count {
                None => {
                    return Err(AbiError::ShortInput);
                },
                Some(n) => n,
            };
            if n > bs.len() - (start + 32) {
                return Err(AbiError::ShortInput);
            }
            let content = slice_subrange(bs, start + 32, start + 32 + n);
            match ty {
                Type::Bytes => Ok(Value::Bytes(slice_to_vec(content))),
                _ => Ok(Value::String(text_from_utf8_lossy(content))),
            }
        },
        _ => {
            if pos > bs.len() || bs.len() - pos < 32 {
                return Err(AbiError::ShortInput);
            }
            Ok(decode_word(bs, ty, pos))
        },
    }
}

/// The values `vs`, each under the name of the field at its place.
fn name_fields(fields: &Vec<(String, Type)>, vs: Vec<Value>) -> (named: Vec<(String, Value)>)
    requires
        vs.len() == fields.len(),
    ensures
        named.len() == fields.len(),
        forall|j: int| 0 <= j < fields.len() ==> (#[trigger] named[j]).0@ == fields[j].0@,
        forall|j: int| 0 <= j < fields.len() ==> (#[trigger] named[j]).1@ == vs[j]@,
{
    let mut named: Vec<(String, Value)> = Vec::new();
    let mut i: usize = 0;
    while i < fields.len()
        invariant
            i <= fields.len(),
            vs.len() == fields.len(),
            named.len() == i,
            forall|j: int| 0 <= j < i ==> (#[trigger] named[j]).0@ == fields[j].0@,
            forall|j: int| 0 <= j < i ==> (#[trigger] named[j]).1@ == vs[j]@,
        decreases fields.len() - i,
    {
        named.push((fields[i].0.clone(), vs[i].clone()));
        i += 1;
    }
    named
}

/// Decodes the block of the types `types` that starts at `base`.
pub(crate) fn decode_block(
    bs: &[u8],
    types: &Vec<&Type>,
    base: usize,
    limits: &Limits,
    depth: usize,
) -> (r: Result<Vec<Value>, AbiError>)
    requires
        forall|i: int| 0 <= i < types.len() ==> (#[trigger] ref_type_views(types@)[i]).valid(),
    ensures
        values_result(r) == dec_block(
            bs@,
            ref_type_views(types@),
            base as nat,
            limits.max_array_len as nat,
            depth as nat,
        ),
        r matches Ok(vs) ==> vs.len() == types.len(),
    decreases depth, 1nat,
{
    let ghost ts = ref_type_views(types@);
    let ghost max_len = limits.max_array_len as nat;
    let n: usize = types.len();
    let size: usize = bs.len();
    assert(bs@.len() == size);
    // where each head starts, and where the heads end
    let mut offsets: Vec<usize> = Vec::new();
    let mut total: usize = 0;
    let mut i: usize = 0;
    while i < n
        invariant
            i <= n,
            n == types.len(),
            ts == ref_type_views(types@),
            offsets.len() == i,
            total == heads_len(ts, i as nat),
            bs@.len() <= usize::MAX,
            ts.len() == n,
            forall|j: int| 0 <= j < i ==> (#[trigger] offsets[j]) == heads_len(ts, j as nat),
        decreases n - i,
    {
        proof {
            lemma_heads_len_mono(ts, (i + 1) as nat, n as nat);
            assert(ts[i as int] == types[i as int]@);
            assert(heads_len(ts, (i + 1) as nat) == heads_len(ts, i as nat)
                + ts[i as int].head_size());
        }
        offsets.push(total);
        let next = match types[i].head_size() {
            None => None,
            Some(h) => total.checked_add(h),
        };
        match next {
            None => {
                return Err(AbiError::ShortInput);
            },
            Some(t) => {
                total = t;
            },
        }
        i += 1;
    }
    if base > bs.len() || total > bs.len() - base {
        return Err(AbiError::ShortInput);
    }
    let mut out: Vec<Value> = Vec::new();
    let mut k: usize = 0;
    assert(views(out@) =~= Seq::<ValueView>::empty());
    while k < n
        invariant
            k <= n,
            n == types.len(),
            ts == ref_type_views(types@),
            max_len == limits.max_array_len as nat,
            base + heads_len(ts, n as nat) <= bs.len(),
            offsets.len() == n,
            forall|j: int| 0 <= j < n ==> (#[trigger] offsets[j]) == heads_len(ts, j as nat),
            forall|j: int| 0 <= j < n ==> (#[trigger] ts[j]).valid(),
            out.len() == k,
            dec_list(bs@, ts, base as nat, k as nat, max_len, depth as nat) == Ok::<
                Seq<ValueView>,
                AbiError,
            >(views(out@)),
        decreases n - k,
    {
        proof {
            assert(ts[k as int] == types[k as int]@);
            assert(ts[k as int].valid());
        }
        let ghost before = views(out@);
        match decode_at(bs, types[k], base, offsets[k], limits, depth) {
            Err(e) => {
                proof {
                    assert(dec_list(bs@, ts, base as nat, (k + 1) as nat, max_len, depth as nat)
                        == Err::<Seq<ValueView>, AbiError>(e));
                    lemma_dec_list_err(
                        bs@,
                        ts,
                        base as nat,
                        (k + 1) as nat,
                        n as nat,
                        max_len,
                        depth as nat,
                    );
                }
                return Err(e);
            },
            Ok(v) => {
                out.push(v);
                assert(views(out@) =~= before.push(v@));
            },
        }
        k += 1;
    }
    Ok(out)
}

impl Value {
    /// Decodes the values of the types `tys` from `bs`, within the
    /// standard limits.
    pub fn decode_from_slice(bs: &[u8], tys: &[Type]) -> (r: Result<Vec<Value>, AbiError>)
        ensures
            values_result(r) == decoded(bs@, type_views(tys@), crate::errors::standard_limits()),
    {
        let limits = Limits::standard();
        Value::decode_from_slice_within(bs, tys, &limits)
    }

    /// Decodes the values of the types `tys` from `bs`, within `limits`.
    pub fn decode_from_slice_within(bs: &[u8], tys: &[Type], limits: &Limits) -> (r: Result<
        Vec<Value>,
        AbiError,
    >)
        ensures
            values_result(r) == decoded(bs@, type_views(tys@), *limits),
    {
        let mut types: Vec<&Type> = Vec::new();
        let mut i: usize = 0;
        while i < tys.len()
            invariant
                i <= tys.len(),
                types.len() == i,
                forall|j: int| 0 <= j < i ==> (#[trigger] types[j])@ == tys[j]@,
            decreases tys.len() - i,
        {
            types.push(&tys[i]);
            i += 1;
        }
        assert(ref_type_views(types@) =~= type_views(tys@));
        decode_types(bs, &types, limits)
    }
}

/// Decodes the values of the types that `types` refer to from `bs`, within
/// `limits`.
pub fn decode_types(bs: &[u8], types: &Vec<&Type>, limits: &Limits) -> (r: Result<
    Vec<Value>,
    AbiError,
>)
    ensures
        values_result(r) == decoded(bs@, ref_type_views(types@), *limits),
        r matches Ok(vs) ==> vs.len() == types.len(),
{
    let ghost ts = ref_type_views(types@);
    let mut i: usize = 0;
    while i < types.len()
        invariant
            i <= types.len(),
            ts == ref_type_views(types@),
            all_valid(ts, i as nat),
        decreases types.len() - i,
    {
        assert(ts[i as int] == types[i as int]@);
        if !types[i].is_valid() {
            proof {
                lemma_all_valid_mono(ts, (i + 1) as nat, ts.len());
            }
            return Err(AbiError::InvalidType);
        }
        i += 1;
    }
    proof {
        lemma_all_valid_index(ts, ts.len());
    }
    decode_block(bs, types, 0, limits, limits.max_depth)
}

} // verus!
