//! Decoding gives back what was encoded.

use crate::codec::{
    dec, dec_block, dec_list, dec_word, decoded, enc, enc_bytes, enc_seq, head_of, head_total,
    heads, lemma_all_conform, lemma_all_values_valid, lemma_heads_len, repeat, tail_of, tails,
    text_of, word_at,
};
use crate::errors::{AbiError, Limits};
use crate::layout::{holds_at, lemma_all_valid_prefix, lemma_holds_at_concat, lemma_parts_hold};
use crate::types::{all_valid, heads_len, max_depth, TypeView};
use crate::values::{all_values_valid, lemma_types_of, types_of, ValueView};
use crate::word::{
    be_nat, lemma_pow256_mono, lemma_signed_of_mod, lemma_word_len, lemma_word_of_nat_value,
    pow256, word_of_nat, zeros,
};
use vstd::prelude::*;
use vstd::utf8::{encode_utf8, encode_utf8_decode_utf8, encode_utf8_valid_utf8};

verus! {

impl ValueView {
    /// Whether no dynamic array in the value has more than `max_len`
    /// elements.
    pub open spec fn within(self, max_len: nat) -> bool
        decreases self,
    {
        match self {
            ValueView::Array(vs, _) => vs.len() <= max_len && all_within(vs, max_len, vs.len()),
            ValueView::FixedArray(vs, _) => all_within(vs, max_len, vs.len()),
            ValueView::Tuple(_, vs) => all_within(vs, max_len, vs.len()),
            _ => true,
        }
    }
}

/// Whether no dynamic array in the first `n` values of `vs` has more than
/// `max_len` elements.
pub open spec fn all_within(vs: Seq<ValueView>, max_len: nat, n: nat) -> bool
    decreases vs, n,
{
    if n == 0 || n > vs.len() {
        true
    } else {
        all_within(vs, max_len, (n - 1) as nat) && vs[n - 1].within(max_len)
    }
}

/// Where the first `n` values are within the limit, each of them is.
pub proof fn lemma_all_within(vs: Seq<ValueView>, max_len: nat, n: nat)
    requires
        n <= vs.len(),
        all_within(vs, max_len, n),
    ensures
        forall|i: int| 0 <= i < n ==> (#[trigger] vs[i]).within(max_len),
    decreases n,
{
    if n > 0 {
        lemma_all_within(vs, max_len, (n - 1) as nat);
    }
}

/// No type among the first `n` is deeper than their greatest depth.
pub proof fn lemma_max_depth_index(types: Seq<TypeView>, n: nat)
    requires
        n <= types.len(),
    ensures
        forall|i: int| 0 <= i < n ==> (#[trigger] types[i]).depth() <= max_depth(types, n),
    decreases n,
{
    if n > 0 {
        lemma_max_depth_index(types, (n - 1) as nat);
    }
}

/// `i` times the type `t` are no deeper than `t`.
pub proof fn lemma_max_depth_repeat(t: TypeView, n: nat, i: nat)
    requires
        i <= n,
    ensures
        max_depth(repeat(t, n), i) <= t.depth(),
    decreases i,
{
    if i > 0 {
        lemma_max_depth_repeat(t, n, (i - 1) as nat);
    }
}

/// The type of a valid value is well formed.
pub proof fn lemma_valid_type(v: ValueView)
    requires
        v.valid(),
    ensures
        v.type_of().valid(),
    decreases v, 0nat,
{
    match v {
        ValueView::Tuple(names, vs) => {
            lemma_valid_types(vs, vs.len());
            lemma_types_of(vs, vs.len());
        },
        _ => {},
    }
}

/// The types of valid values are well formed.
pub proof fn lemma_valid_types(vs: Seq<ValueView>, n: nat)
    requires
        n <= vs.len(),
        all_values_valid(vs, n),
    ensures
        all_valid(types_of(vs, vs.len()), n),
    decreases vs, n,
{
    lemma_types_of(vs, vs.len());
    if n > 0 {
        lemma_valid_types(vs, (n - 1) as nat);
        lemma_valid_type(vs[n - 1]);
    }
}

/// A word that stands in `bs` is read back from there.
proof fn lemma_word_holds(bs: Seq<u8>, pos: int, w: Seq<u8>)
    requires
        holds_at(bs, pos, w),
        w.len() == 32,
    ensures
        pos + 32 <= bs.len(),
        word_at(bs, pos) == w,
{
}

/// A valid value of an elementary static type that stands encoded in `bs`
/// decodes from there to itself.
proof fn lemma_word_decodes(bs: Seq<u8>, v: ValueView, pos: int)
    requires
        v.valid(),
        v is Uint || v is Int || v is Address || v is Bool || v is FixedBytes,
        holds_at(bs, pos, enc(v)),
    ensures
        pos + 32 <= bs.len(),
        dec_word(bs, v.type_of(), pos) == v,
{
    let head = enc(v);
    match v {
        ValueView::Uint(x, bits) => {
            lemma_word_len(x, 0);
            lemma_word_holds(bs, pos, head);
            lemma_pow256_mono(bits / 8, 32);
            lemma_word_of_nat_value(x);
            vstd::arithmetic::div_mod::lemma_small_mod(x, pow256(bits / 8));
        },
        ValueView::Int(x, bits) => {
            lemma_word_len(0, x);
            lemma_word_holds(bs, pos, head);
            crate::word::lemma_be_nat_of_bytes((x % (pow256(32) as int)) as nat, 32);
            crate::word::lemma_pow256_pos(32);
            vstd::arithmetic::div_mod::lemma_mod_bound(x, pow256(32) as int);
            vstd::arithmetic::div_mod::lemma_small_mod(
                (x % (pow256(32) as int)) as nat,
                pow256(32),
            );
            lemma_signed_of_mod(x, bits / 8);
        },
        ValueView::Address(a) => {
            lemma_word_holds(bs, pos, head);
            assert(head.subrange(12, 32) =~= a);
        },
        ValueView::Bool(b) => {
            let x: nat = if b {
                1
            } else {
                0
            };
            lemma_word_len(x, 0);
            lemma_word_holds(bs, pos, head);
            crate::word::lemma_pow256_pos(32);
            crate::word::lemma_pow256_mono(1, 32);
            assert(pow256(1) == 256) by {
                crate::word::lemma_pow256_values();
            }
            lemma_word_of_nat_value(x);
        },
        ValueView::FixedBytes(b) => {
            lemma_word_holds(bs, pos, head);
            assert(head.subrange(0, b.len() as int) =~= b);
        },
        _ => {},
    }
}

/// A byte string or a text whose offset stands at `base + at` and whose
/// body stands where the offset says decodes from there to itself.
proof fn lemma_content_decodes(
    bs: Seq<u8>,
    v: ValueView,
    base: nat,
    at: nat,
    body: nat,
    max_len: nat,
    depth: nat,
)
    requires
        v is Bytes || v is String,
        body >= base,
        holds_at(bs, (base + at) as int, word_of_nat((body - base) as nat)),
        holds_at(bs, body as int, enc(v)),
        bs.len() < pow256(32),
    ensures
        dec(bs, v.type_of(), base, at, max_len, depth) == Ok::<ValueView, AbiError>(v),
{
    let pos = base + at;
    let offset = (body - base) as nat;
    lemma_word_len(offset, 0);
    lemma_word_holds(bs, pos as int, word_of_nat(offset));
    lemma_word_of_nat_value(offset);
    assert(base + be_nat(word_at(bs, pos as int)) == body);
    match v {
        ValueView::Bytes(b) => {
            lemma_content_holds(bs, body, b);
        },
        ValueView::String(s) => {
            let b = encode_utf8(s);
            lemma_content_holds(bs, body, b);
            encode_utf8_valid_utf8(s);
            encode_utf8_decode_utf8(s);
            assert(text_of(b) == s);
        },
        _ => {},
    }
}

/// An array or a tuple decodes to itself where its encoding stands at
/// `start` in `bs`: at its place in the heads where it is static, else
/// where the offset at its place in the heads says.
pub proof fn lemma_composite_decodes(
    bs: Seq<u8>,
    v: ValueView,
    base: nat,
    at: nat,
    start: nat,
    max_len: nat,
    depth: nat,
)
    requires
        v is Array || v is FixedArray || v is Tuple,
        v.valid(),
        v.within(max_len),
        v.type_of().depth() <= depth,
        start >= base,
        !v.is_dynamic() ==> start == base + at,
        v.is_dynamic() ==> holds_at(
            bs,
            (base + at) as int,
            word_of_nat((start - base) as nat),
        ),
        holds_at(bs, start as int, enc(v)),
        bs.len() < pow256(32),
        max_len < pow256(32),
    ensures
        dec(bs, v.type_of(), base, at, max_len, depth) == Ok::<ValueView, AbiError>(v),
    decreases v, 0nat, 0nat,
{
    let pos = base + at;
    let t = v.type_of();
    if v.is_dynamic() {
        let offset = (start - base) as nat;
        lemma_word_len(offset, 0);
        lemma_word_holds(bs, pos as int, word_of_nat(offset));
        lemma_word_of_nat_value(offset);
        assert(base + be_nat(word_at(bs, pos as int)) == start);
    }
    match v {
        ValueView::Array(cs, elem) => {
            let count = word_of_nat(cs.len());
            lemma_word_len(cs.len(), 0);
            lemma_holds_at_concat(bs, start as int, count, enc_seq(cs));
            lemma_word_holds(bs, start as int, count);
            lemma_word_of_nat_value(cs.len());
            lemma_all_conform(cs, elem, cs.len());
            lemma_types_of(cs, cs.len());
            assert(types_of(cs, cs.len()) =~= repeat(elem, cs.len()));
            lemma_max_depth_repeat(elem, cs.len(), cs.len());
            lemma_block_decodes(bs, start + 32, cs, max_len, (depth - 1) as nat);
        },
        ValueView::FixedArray(cs, elem) => {
            lemma_all_conform(cs, elem, cs.len());
            lemma_types_of(cs, cs.len());
            assert(types_of(cs, cs.len()) =~= repeat(elem, cs.len()));
            assert(t == TypeView::FixedArray(Box::new(elem), cs.len()));
            lemma_max_depth_repeat(elem, cs.len(), cs.len());
            lemma_block_decodes(bs, start, cs, max_len, (depth - 1) as nat);
        },
        ValueView::Tuple(names, cs) => {
            assert(t == TypeView::Tuple(names, types_of(cs, cs.len())));
            lemma_types_of(cs, cs.len());
            assert(t.depth() == 1 + max_depth(types_of(cs, cs.len()), cs.len()));
            lemma_block_decodes(bs, start, cs, max_len, (depth - 1) as nat);
        },
        _ => {},
    }
}

/// Value `i` of a block of valid values that stands at `base` in `bs`
/// decodes from its place in the block to itself.
pub proof fn lemma_value_decodes(
    bs: Seq<u8>,
    base: nat,
    vs: Seq<ValueView>,
    i: int,
    max_len: nat,
    depth: nat,
)
    requires
        0 <= i < vs.len(),
        all_values_valid(vs, vs.len()),
        all_within(vs, max_len, vs.len()),
        max_depth(types_of(vs, vs.len()), vs.len()) <= depth,
        holds_at(bs, base as int, enc_seq(vs)),
        bs.len() < pow256(32),
        max_len < pow256(32),
    ensures
        dec(
            bs,
            vs[i].type_of(),
            base,
            heads_len(types_of(vs, vs.len()), i as nat),
            max_len,
            depth,
        ) == Ok::<ValueView, AbiError>(vs[i]),
    decreases vs, i, 0nat,
{
    let n = vs.len();
    let types = types_of(vs, n);
    let h = head_total(vs);
    let v = vs[i];
    let at = heads_len(types, i as nat);
    let pos = base + at;
    lemma_types_of(vs, n);
    lemma_all_values_valid(vs, n);
    lemma_all_within(vs, max_len, n);
    lemma_max_depth_index(types, n);
    assert(types[i] == v.type_of());
    lemma_all_valid_prefix(vs, i as nat, n);
    lemma_heads_len(vs, i as nat, h);
    lemma_heads_len(vs, n, h);
    lemma_parts_hold(bs, base as int, vs, i);
    assert(holds_at(bs, pos as int, head_of(vs, i, h)));
    let body = base + h + tails(vs, i as nat).len();
    assert(holds_at(bs, body as int, tail_of(vs, i)));
    let composite = v is Array || v is FixedArray || v is Tuple;
    if composite {
        let start = if v.is_dynamic() {
            body
        } else {
            pos
        };
        lemma_composite_decodes(bs, v, base, at, start, max_len, depth);
    } else if v.is_dynamic() {
        lemma_content_decodes(bs, v, base, at, body, max_len, depth);
    } else {
        lemma_word_decodes(bs, v, pos as int);
    }
}

/// A byte string that stands encoded at `body` in `bs` is read back from
/// there.
proof fn lemma_content_holds(bs: Seq<u8>, body: nat, b: Seq<u8>)
    requires
        holds_at(bs, body as int, enc_bytes(b)),
        bs.len() < pow256(32),
    ensures
        body + 32 <= bs.len(),
        be_nat(word_at(bs, body as int)) == b.len(),
        body + 32 + b.len() <= bs.len(),
        bs.subrange((body + 32) as int, (body + 32 + b.len()) as int) == b,
{
    let count = word_of_nat(b.len());
    let padding = zeros(crate::codec::pad_len(b.len()));
    lemma_word_len(b.len(), 0);
    assert(enc_bytes(b) == (count + b) + padding);
    lemma_holds_at_concat(bs, body as int, count + b, padding);
    lemma_holds_at_concat(bs, body as int, count, b);
    lemma_word_of_nat_value(b.len());
}

/// The first `n` values of a block of valid values that stands at `base`
/// in `bs` decode to themselves.
pub proof fn lemma_list_decodes(
    bs: Seq<u8>,
    base: nat,
    vs: Seq<ValueView>,
    n: nat,
    max_len: nat,
    depth: nat,
)
    requires
        n <= vs.len(),
        all_values_valid(vs, vs.len()),
        all_within(vs, max_len, vs.len()),
        max_depth(types_of(vs, vs.len()), vs.len()) <= depth,
        holds_at(bs, base as int, enc_seq(vs)),
        bs.len() < pow256(32),
        max_len < pow256(32),
    ensures
        dec_list(bs, types_of(vs, vs.len()), base, n, max_len, depth) == Ok::<
            Seq<ValueView>,
            AbiError,
        >(vs.take(n as int)),
    decreases vs, n, 1nat,
{
    lemma_types_of(vs, vs.len());
    if n == 0 {
        assert(vs.take(0) =~= Seq::<ValueView>::empty());
    } else {
        lemma_list_decodes(bs, base, vs, (n - 1) as nat, max_len, depth);
        lemma_value_decodes(bs, base, vs, n - 1, max_len, depth);
        assert(vs.take(n as int) =~= vs.take(n - 1).push(vs[n - 1]));
    }
}

/// A block of valid values that stands at `base` in `bs` decodes to
/// itself.
pub proof fn lemma_block_decodes(
    bs: Seq<u8>,
    base: nat,
    vs: Seq<ValueView>,
    max_len: nat,
    depth: nat,
)
    requires
        all_values_valid(vs, vs.len()),
        all_within(vs, max_len, vs.len()),
        max_depth(types_of(vs, vs.len()), vs.len()) <= depth,
        holds_at(bs, base as int, enc_seq(vs)),
        bs.len() < pow256(32),
        max_len < pow256(32),
    ensures
        dec_block(bs, types_of(vs, vs.len()), base, max_len, depth) == Ok::<
            Seq<ValueView>,
            AbiError,
        >(vs),
    decreases vs, vs.len() + 1, 0nat,
{
    lemma_types_of(vs, vs.len());
    lemma_heads_len(vs, vs.len(), head_total(vs));
    lemma_list_decodes(bs, base, vs, vs.len(), max_len, depth);
    assert(vs.take(vs.len() as int) =~= vs);
}

/// Decoding gives back what was encoded.
///
/// For valid values whose types nest no deeper than the limits allow,
/// whose dynamic arrays have no more elements than the limits allow, and
/// whose encoding is shorter than `2^256` bytes, the encoding decodes, as
/// values of their types, to the values themselves.
pub proof fn lemma_round_trip(vs: Seq<ValueView>, limits: Limits)
    requires
        all_values_valid(vs, vs.len()),
        all_within(vs, limits.max_array_len as nat, vs.len()),
        max_depth(types_of(vs, vs.len()), vs.len()) <= limits.max_depth,
        enc_seq(vs).len() < pow256(32),
    ensures
        decoded(enc_seq(vs), types_of(vs, vs.len()), limits) == Ok::<Seq<ValueView>, AbiError>(
            vs,
        ),
{
    let bs = enc_seq(vs);
    lemma_types_of(vs, vs.len());
    lemma_valid_types(vs, vs.len());
    assert(limits.max_array_len < pow256(32)) by {
        crate::word::lemma_pow256_values();
        lemma_pow256_mono(8, 32);
    }
    assert(bs.subrange(0, bs.len() as int) =~= bs);
    lemma_block_decodes(bs, 0, vs, limits.max_array_len as nat, limits.max_depth as nat);
}

} // verus!
