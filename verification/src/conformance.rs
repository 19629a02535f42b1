//! What is decoded is a valid value of the type it was decoded as.

use crate::codec::{dec, dec_block, dec_list, dec_word, decoded, repeat, word_at};
use crate::decode::lemma_all_valid_index;
use crate::errors::Limits;
use crate::types::{all_valid, heads_len, TypeView};
use crate::values::{all_conform, all_values_valid, lemma_types_of, types_of, ValueView};
use crate::word::{be_nat, lemma_pow256_pos};
use vstd::prelude::*;

verus! {

/// Whether value `i` of `vs` is a valid value of type `i` of `types`, for
/// every place of `vs`.
pub open spec fn conform_each(vs: Seq<ValueView>, types: Seq<TypeView>) -> bool {
    vs.len() == types.len() && forall|i: int|
        0 <= i < vs.len() ==> (#[trigger] vs[i]).conforms(types[i])
}

/// Values that conform place by place are valid, and their types are the
/// types they conform to.
pub proof fn lemma_conform_each(vs: Seq<ValueView>, types: Seq<TypeView>, n: nat)
    requires
        conform_each(vs, types),
        n <= vs.len(),
    ensures
        all_values_valid(vs, n),
        types_of(vs, vs.len()) == types,
    decreases n,
{
    lemma_types_of(vs, vs.len());
    assert(types_of(vs, vs.len()) =~= types);
    if n > 0 {
        lemma_conform_each(vs, types, (n - 1) as nat);
    }
}

/// Values that conform, place by place, to `n` times the type `t` all
/// conform to `t`.
proof fn lemma_conform_repeat(vs: Seq<ValueView>, t: TypeView, n: nat)
    requires
        conform_each(vs, repeat(t, vs.len())),
        n <= vs.len(),
    ensures
        all_conform(vs, t, n),
    decreases n,
{
    if n > 0 {
        lemma_conform_repeat(vs, t, (n - 1) as nat);
        assert(vs[n - 1].conforms(repeat(t, vs.len())[n - 1]));
    }
}

/// A word decodes to a valid value of the elementary static type it is
/// decoded as.
proof fn lemma_dec_word_conforms(bs: Seq<u8>, t: TypeView, pos: int)
    requires
        t.valid(),
        t is Uint || t is Int || t is Address || t is Bool || t is FixedBytes,
        0 <= pos,
        pos + 32 <= bs.len(),
    ensures
        dec_word(bs, t, pos).conforms(t),
{
    let w = word_at(bs, pos);
    match t {
        TypeView::Uint(bits) => {
            lemma_pow256_pos(bits / 8);
            vstd::arithmetic::div_mod::lemma_mod_bound(
                be_nat(w) as int,
                crate::word::pow256(bits / 8) as int,
            );
        },
        TypeView::Int(bits) => {
            lemma_pow256_pos(bits / 8);
            vstd::arithmetic::div_mod::lemma_mod_bound(
                be_nat(w) as int,
                crate::word::pow256(bits / 8) as int,
            );
        },
        _ => {},
    }
}

/// What decodes as a value of a well-formed type is a valid value of that
/// type.
pub proof fn lemma_dec_conforms(
    bs: Seq<u8>,
    t: TypeView,
    base: nat,
    at: nat,
    max_len: nat,
    depth: nat,
)
    requires
        t.valid(),
    ensures
        dec(bs, t, base, at, max_len, depth) matches Ok(v) ==> v.conforms(t),
    decreases depth, 0nat, 0nat,
{
    let pos = base + at;
    let r = dec(bs, t, base, at, max_len, depth);
    if r is Ok {
        let d = (depth - 1) as nat;
        match t {
            TypeView::FixedArray(elem, n) => {
                let start = if t.is_dynamic() {
                    base + be_nat(word_at(bs, pos as int))
                } else {
                    pos
                };
                let types = repeat(*elem, n);
                lemma_all_valid_index(types, n);
                lemma_dec_block_conforms(bs, types, start, max_len, d);
                let vs = dec_block(bs, types, start, max_len, d)->Ok_0;
                lemma_conform_repeat(vs, *elem, vs.len());
            },
            TypeView::Array(elem) => {
                let body = base + be_nat(word_at(bs, pos as int));
                let n = be_nat(word_at(bs, body as int));
                let types = repeat(*elem, n);
                lemma_all_valid_index(types, n);
                lemma_dec_block_conforms(bs, types, body + 32, max_len, d);
                let vs = dec_block(bs, types, body + 32, max_len, d)->Ok_0;
                lemma_conform_repeat(vs, *elem, vs.len());
            },
            TypeView::Tuple(names, types) => {
                let start = if t.is_dynamic() {
                    base + be_nat(word_at(bs, pos as int))
                } else {
                    pos
                };
                lemma_dec_block_conforms(bs, types, start, max_len, d);
                let vs = dec_block(bs, types, start, max_len, d)->Ok_0;
                lemma_conform_each(vs, types, vs.len());
            },
            TypeView::Bytes | TypeView::String => {},
            _ => {
                lemma_dec_word_conforms(bs, t, pos as int);
            },
        }
    }
}

/// What decodes as a block of well-formed types is, place by place, a
/// valid value of the type at that place.
pub proof fn lemma_dec_block_conforms(
    bs: Seq<u8>,
    types: Seq<TypeView>,
    base: nat,
    max_len: nat,
    depth: nat,
)
    requires
        all_valid(types, types.len()),
    ensures
        dec_block(bs, types, base, max_len, depth) matches Ok(vs) ==> conform_each(vs, types),
    decreases depth, 2nat, 0nat,
{
    lemma_dec_list_conforms(bs, types, base, types.len(), max_len, depth);
    if dec_block(bs, types, base, max_len, depth) is Ok {
        let vs = dec_block(bs, types, base, max_len, depth)->Ok_0;
        assert(types.take(types.len() as int) =~= types);
    }
}

/// The first `n` values that decode as a block of well-formed types are
/// valid values of the first `n` types.
pub proof fn lemma_dec_list_conforms(
    bs: Seq<u8>,
    types: Seq<TypeView>,
    base: nat,
    n: nat,
    max_len: nat,
    depth: nat,
)
    requires
        all_valid(types, types.len()),
        n <= types.len(),
    ensures
        dec_list(bs, types, base, n, max_len, depth) matches Ok(vs) ==> conform_each(
            vs,
            types.take(n as int),
        ),
    decreases depth, 1nat, n,
{
    if n > 0 {
        lemma_dec_list_conforms(bs, types, base, (n - 1) as nat, max_len, depth);
        lemma_all_valid_index(types, types.len());
        lemma_dec_conforms(
            bs,
            types[n - 1],
            base,
            heads_len(types, (n - 1) as nat),
            max_len,
            depth,
        );
    }
}

/// Decoded values conform to the types they were decoded as: each is a
/// valid value, and its type is the type at its place.
pub proof fn lemma_decoded_conforms(bs: Seq<u8>, types: Seq<TypeView>, limits: Limits)
    ensures
        decoded(bs, types, limits) matches Ok(vs) ==> {
            &&& conform_each(vs, types)
            &&& all_values_valid(vs, vs.len())
            &&& types_of(vs, vs.len()) == types
        },
{
    if decoded(bs, types, limits) is Ok {
        lemma_dec_block_conforms(
            bs,
            types,
            0,
            limits.max_array_len as nat,
            limits.max_depth as nat,
        );
        let vs = decoded(bs, types, limits)->Ok_0;
        lemma_conform_each(vs, types, vs.len());
    }
}

} // verus!
