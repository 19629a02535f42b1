//! The head/tail encoding as mathematics: what a value encodes to, and what
//! a byte string decodes to.

use crate::errors::{AbiError, Limits};
use crate::types::{all_valid, any_dynamic, heads_len, TypeView};
use crate::values::{all_conform, all_values_valid, lemma_types_of, types_of, ValueView};
use crate::word::{
    be_nat, lemma_word_len, pow256, signed_of, word_of_int, word_of_nat, zeros,
};
use vstd::prelude::*;
use vstd::utf8::{decode_utf8, encode_utf8, valid_utf8};

verus! {

/// The zero bytes that follow `n` bytes to reach a multiple of 32.
pub open spec fn pad_len(n: nat) -> nat {
    ((32 - n % 32) % 32) as nat
}

/// A byte string in the tail: its length as a word, the bytes, and zeros up
/// to a multiple of 32.
pub open spec fn enc_bytes(b: Seq<u8>) -> Seq<u8> {
    word_of_nat(b.len()) + b + zeros(pad_len(b.len()))
}

/// The sum of the head sizes of the types of `vs`.
pub open spec fn head_total(vs: Seq<ValueView>) -> nat {
    heads_len(types_of(vs, vs.len()), vs.len())
}

/// The encoding of one value: in place for a static type, the body that
/// goes to the tail for a dynamic one.
pub open spec fn enc(v: ValueView) -> Seq<u8>
    decreases v, 0nat, 0nat,
{
    match v {
        ValueView::Uint(x, _) => word_of_nat(x),
        ValueView::Int(i, _) => word_of_int(i),
        ValueView::Address(a) => zeros(12) + a,
        ValueView::Bool(b) => word_of_nat(
            if b {
                1
            } else {
                0
            },
        ),
        ValueView::FixedBytes(b) => b + zeros((32 - b.len()) as nat),
        ValueView::Bytes(b) => enc_bytes(b),
        ValueView::String(s) => enc_bytes(encode_utf8(s)),
        ValueView::Array(vs, _) => word_of_nat(vs.len()) + enc_seq(vs),
        ValueView::FixedArray(vs, _) => enc_seq(vs),
        ValueView::Tuple(_, vs) => enc_seq(vs),
    }
}

/// The encoding of a block of values: the heads, then the tails. Offsets
/// count from the start of the block.
pub open spec fn enc_seq(vs: Seq<ValueView>) -> Seq<u8>
    decreases vs, vs.len() + 1, 0nat,
{
    heads(vs, vs.len(), head_total(vs)) + tails(vs, vs.len())
}

/// The head of value `i` of a block whose heads take `base` bytes: the
/// value itself where it is static, else the offset of its body.
pub open spec fn head_of(vs: Seq<ValueView>, i: int, base: nat) -> Seq<u8>
    decreases vs, i, 2nat,
{
    if 0 <= i < vs.len() {
        if vs[i].is_dynamic() {
            word_of_nat(base + tails(vs, i as nat).len())
        } else {
            enc(vs[i])
        }
    } else {
        Seq::empty()
    }
}

/// What value `i` of a block adds to the tail: its body where it is
/// dynamic, else nothing.
pub open spec fn tail_of(vs: Seq<ValueView>, i: int) -> Seq<u8>
    decreases vs, i, 0nat,
{
    if 0 <= i < vs.len() && vs[i].is_dynamic() {
        enc(vs[i])
    } else {
        Seq::empty()
    }
}

/// The heads of the first `n` values of a block whose heads take `base`
/// bytes.
pub open spec fn heads(vs: Seq<ValueView>, n: nat, base: nat) -> Seq<u8>
    decreases vs, n, 3nat,
{
    if n == 0 || n > vs.len() {
        Seq::empty()
    } else {
        heads(vs, (n - 1) as nat, base) + head_of(vs, n - 1, base)
    }
}

/// The tails of the first `n` values of a block.
pub open spec fn tails(vs: Seq<ValueView>, n: nat) -> Seq<u8>
    decreases vs, n, 1nat,
{
    if n == 0 || n > vs.len() {
        Seq::empty()
    } else {
        tails(vs, (n - 1) as nat) + tail_of(vs, n - 1)
    }
}


impl ValueView {
    /// How deep arrays and tuples nest in the value.
    pub open spec fn rank(self) -> nat
        decreases self,
    {
        match self {
            ValueView::FixedArray(vs, _) => 1 + max_rank(vs, vs.len()),
            ValueView::Array(vs, _) => 1 + max_rank(vs, vs.len()),
            ValueView::Tuple(_, vs) => 1 + max_rank(vs, vs.len()),
            _ => 0,
        }
    }
}

/// The greatest rank among the first `n` values of `vs`.
pub open spec fn max_rank(vs: Seq<ValueView>, n: nat) -> nat
    decreases vs, n,
{
    if n == 0 || n > vs.len() {
        0
    } else {
        let rest = max_rank(vs, (n - 1) as nat);
        let r = vs[n - 1].rank();
        if r > rest {
            r
        } else {
            rest
        }
    }
}

/// No value among the first `n` has a rank above their greatest rank.
pub proof fn lemma_rank_le(vs: Seq<ValueView>, i: int, n: nat)
    requires
        0 <= i < n <= vs.len(),
    ensures
        vs[i].rank() <= max_rank(vs, n),
    decreases n,
{
    if i < n - 1 {
        lemma_rank_le(vs, i, (n - 1) as nat);
    }
}

/// Values that all conform to one type are valid, and their types are that
/// type.
pub proof fn lemma_all_conform(vs: Seq<ValueView>, t: TypeView, n: nat)
    requires
        n <= vs.len(),
        all_conform(vs, t, n),
    ensures
        all_values_valid(vs, n),
        forall|i: int| 0 <= i < n ==> (#[trigger] vs[i]).valid() && vs[i].type_of() == t,
        heads_len(types_of(vs, vs.len()), n) == n * t.head_size(),
        any_dynamic(types_of(vs, vs.len()), n) == (n > 0 && t.is_dynamic()),
    decreases n,
{
    lemma_types_of(vs, vs.len());
    if n == 0 {
        assert(0 * t.head_size() == 0) by (nonlinear_arith);
    } else {
        lemma_all_conform(vs, t, (n - 1) as nat);
        assert((n - 1) * t.head_size() + t.head_size() == n * t.head_size())
            by (nonlinear_arith);
    }
}

/// Where the first `n` values are valid, each of them is.
pub proof fn lemma_all_values_valid(vs: Seq<ValueView>, n: nat)
    requires
        n <= vs.len(),
        all_values_valid(vs, n),
    ensures
        forall|i: int| 0 <= i < n ==> (#[trigger] vs[i]).valid(),
    decreases n,
{
    if n > 0 {
        lemma_all_values_valid(vs, (n - 1) as nat);
    }
}

/// A block without a dynamic value has no tail.
pub proof fn lemma_static_tails(vs: Seq<ValueView>, n: nat)
    requires
        n <= vs.len(),
        !any_dynamic(types_of(vs, vs.len()), n),
    ensures
        tails(vs, n) == Seq::<u8>::empty(),
    decreases n,
{
    lemma_types_of(vs, vs.len());
    if n > 0 {
        let ts = types_of(vs, vs.len());
        assert(ts[n - 1] == vs[n - 1].type_of());
        assert(!any_dynamic(ts, (n - 1) as nat) && !ts[n - 1].is_dynamic());
        lemma_static_tails(vs, (n - 1) as nat);
        assert(tail_of(vs, n - 1) =~= Seq::<u8>::empty());
        assert(tails(vs, n) =~= Seq::<u8>::empty());
    }
}

/// A valid value of a static type encodes to as many bytes as its type
/// takes in a head.
pub proof fn lemma_static_enc_len(v: ValueView)
    requires
        v.valid(),
        !v.is_dynamic(),
    ensures
        enc(v).len() == v.type_of().head_size(),
    decreases v, 0nat,
{
    match v {
        ValueView::Uint(x, _) => {
            lemma_word_len(x, 0);
        },
        ValueView::Int(i, _) => {
            lemma_word_len(0, i);
        },
        ValueView::Bool(b) => {
            lemma_word_len(0, 0);
            lemma_word_len(1, 0);
        },
        ValueView::Address(a) => {},
        ValueView::FixedBytes(b) => {},
        ValueView::FixedArray(vs, t) => {
            lemma_all_conform(vs, t, vs.len());
            lemma_heads_len(vs, vs.len(), head_total(vs));
            assert(v.type_of() == TypeView::FixedArray(Box::new(t), vs.len()));
            assert(vs.len() == 0 || !t.is_dynamic());
            lemma_static_tails(vs, vs.len());
            assert(enc(v) == enc_seq(vs));
            assert(v.type_of().head_size() == vs.len() * t.head_size());
        },
        ValueView::Tuple(names, vs) => {
            let ts = types_of(vs, vs.len());
            lemma_types_of(vs, vs.len());
            assert(v.type_of() == TypeView::Tuple(names, ts));
            assert(!any_dynamic(ts, ts.len()));
            lemma_heads_len(vs, vs.len(), head_total(vs));
            lemma_static_tails(vs, vs.len());
            assert(enc(v) == enc_seq(vs));
            assert(v.type_of().head_size() == heads_len(ts, ts.len()));
        },
        _ => {},
    }
}

/// The heads of the first `n` values of a block of valid values take the
/// sum of the head sizes of their types.
pub proof fn lemma_heads_len(vs: Seq<ValueView>, n: nat, base: nat)
    requires
        n <= vs.len(),
        all_values_valid(vs, n),
    ensures
        heads(vs, n, base).len() == heads_len(types_of(vs, vs.len()), n),
    decreases vs, n,
{
    lemma_types_of(vs, vs.len());
    if n > 0 {
        let ts = types_of(vs, vs.len());
        lemma_heads_len(vs, (n - 1) as nat, base);
        let v = vs[n - 1];
        assert(ts[n - 1] == v.type_of());
        assert(heads(vs, n, base) == heads(vs, (n - 1) as nat, base) + head_of(vs, n - 1, base));
        assert(heads_len(ts, n) == heads_len(ts, (n - 1) as nat) + ts[n - 1].head_size());
        if v.is_dynamic() {
            lemma_word_len(base + tails(vs, (n - 1) as nat).len(), 0);
            assert(head_of(vs, n - 1, base).len() == 32);
            lemma_dynamic_head_size(v.type_of());
        } else {
            lemma_static_enc_len(v);
            assert(head_of(vs, n - 1, base) == enc(v));
        }
    }
}

/// A dynamic type takes 32 bytes in a head.
pub proof fn lemma_dynamic_head_size(t: TypeView)
    requires
        t.is_dynamic(),
    ensures
        t.head_size() == 32,
{
}


/// The text that a lossy reading of `bytes` as UTF-8 gives: the text that
/// `bytes` encode where they are valid UTF-8, and else a text in which
/// replacement characters stand for what is not.
pub uninterp spec fn utf8_lossy(bytes: Seq<u8>) -> Seq<char>;

/// The text that the bytes of a `string` are read as: the text they
/// encode where they are valid UTF-8, else what a lossy reading gives.
pub open spec fn text_of(bytes: Seq<u8>) -> Seq<char> {
    if valid_utf8(bytes) {
        decode_utf8(bytes)
    } else {
        utf8_lossy(bytes)
    }
}

/// The 32 bytes of `bs` from `pos` on.
pub open spec fn word_at(bs: Seq<u8>, pos: int) -> Seq<u8> {
    bs.subrange(pos, pos + 32)
}

/// `n` times the type `t`.
pub open spec fn repeat(t: TypeView, n: nat) -> Seq<TypeView> {
    Seq::new(n, |i: int| t)
}

/// What the 32 bytes of `bs` at `pos` decode to as a value of the
/// elementary static type `t`. An unsigned integer keeps its low `M` bits, a
/// signed one is read from its low `M` bits, an address is the low 20
/// bytes, any word but zero is `true`, and `bytes<M>` is the first `M`
/// bytes.
pub open spec fn dec_word(bs: Seq<u8>, t: TypeView, pos: int) -> ValueView {
    let w = word_at(bs, pos);
    match t {
        TypeView::Uint(bits) => ValueView::Uint(be_nat(w) % pow256(bits / 8), bits),
        TypeView::Int(bits) => ValueView::Int(signed_of(be_nat(w), bits / 8), bits),
        TypeView::Address => ValueView::Address(w.subrange(12, 32)),
        TypeView::FixedBytes(n) => ValueView::FixedBytes(w.subrange(0, n as int)),
        _ => ValueView::Bool(be_nat(w) != 0),
    }
}

/// What the bytes `bs` decode to as a value of type `t` whose head stands
/// at `at` in the block that starts at `base`. `depth` is how many more
/// levels of arrays and tuples may be entered, `max_len` how many elements
/// a dynamic array may declare.
pub open spec fn dec(
    bs: Seq<u8>,
    t: TypeView,
    base: nat,
    at: nat,
    max_len: nat,
    depth: nat,
) -> Result<ValueView, AbiError>
    decreases depth, 0nat, 0nat,
{
    let pos = base + at;
    match t {
        TypeView::FixedArray(elem, n) => {
            if depth == 0 {
                Err(AbiError::LimitExceeded)
            } else if !t.is_dynamic() {
                match dec_block(bs, repeat(*elem, n), pos, max_len, (depth - 1) as nat) {
                    Ok(vs) => Ok(ValueView::FixedArray(vs, *elem)),
                    Err(e) => Err(e),
                }
            } else if pos + 32 > bs.len() {
                Err(AbiError::ShortInput)
            } else {
                let body = base + be_nat(word_at(bs, pos as int));
                match dec_block(bs, repeat(*elem, n), body, max_len, (depth - 1) as nat) {
                    Ok(vs) => Ok(ValueView::FixedArray(vs, *elem)),
                    Err(e) => Err(e),
                }
            }
        },
        TypeView::Tuple(names, types) => {
            if depth == 0 {
                Err(AbiError::LimitExceeded)
            } else if !t.is_dynamic() {
                match dec_block(bs, types, pos, max_len, (depth - 1) as nat) {
                    Ok(vs) => Ok(ValueView::Tuple(names, vs)),
                    Err(e) => Err(e),
                }
            } else if pos + 32 > bs.len() {
                Err(AbiError::ShortInput)
            } else {
                let body = base + be_nat(word_at(bs, pos as int));
                match dec_block(bs, types, body, max_len, (depth - 1) as nat) {
                    Ok(vs) => Ok(ValueView::Tuple(names, vs)),
                    Err(e) => Err(e),
                }
            }
        },
        TypeView::Array(elem) => {
            if depth == 0 {
                Err(AbiError::LimitExceeded)
            } else if pos + 32 > bs.len() {
                Err(AbiError::ShortInput)
            } else {
                let body = base + be_nat(word_at(bs, pos as int));
                if body + 32 > bs.len() {
                    Err(AbiError::ShortInput)
                } else {
                    let n = be_nat(word_at(bs, body as int));
                    if n > max_len {
                        Err(AbiError::LimitExceeded)
                    } else {
                        match dec_block(
                            bs,
                            repeat(*elem, n),
                            body + 32,
                            max_len,
                            (depth - 1) as nat,
                        ) {
                            Ok(vs) => Ok(ValueView::Array(vs, *elem)),
                            Err(e) => Err(e),
                        }
                    }
                }
            }
        },
        TypeView::Bytes | TypeView::String => {
            if pos + 32 > bs.len() {
                Err(AbiError::ShortInput)
            } else {
                let body = base + be_nat(word_at(bs, pos as int));
                if body + 32 > bs.len() {
                    Err(AbiError::ShortInput)
                } else {
                    let n = be_nat(word_at(bs, body as int));
                    if body + 32 + n > bs.len() {
                        Err(AbiError::ShortInput)
                    } else {
                        let content = bs.subrange((body + 32) as int, (body + 32 + n) as int);
                        if t is Bytes {
                            Ok(ValueView::Bytes(content))
                        } else {
                            Ok(ValueView::String(text_of(content)))
                        }
                    }
                }
            }
        },
        _ => {
            if pos + 32 > bs.len() {
                Err(AbiError::ShortInput)
            } else {
                Ok(dec_word(bs, t, pos as int))
            }
        },
    }
}

/// What the bytes `bs` decode to as the block of the types `types` that
/// starts at `base`: an error where the heads do not fit in `bs`, else the
/// values one by one.
pub open spec fn dec_block(
    bs: Seq<u8>,
    types: Seq<TypeView>,
    base: nat,
    max_len: nat,
    depth: nat,
) -> Result<Seq<ValueView>, AbiError>
    decreases depth, 2nat, 0nat,
{
    if base + heads_len(types, types.len()) > bs.len() {
        Err(AbiError::ShortInput)
    } else {
        dec_list(bs, types, base, types.len(), max_len, depth)
    }
}

/// The first `n` values of the block of the types `types` that starts at
/// `base`, or the first error met from the left.
pub open spec fn dec_list(
    bs: Seq<u8>,
    types: Seq<TypeView>,
    base: nat,
    n: nat,
    max_len: nat,
    depth: nat,
) -> Result<Seq<ValueView>, AbiError>
    decreases depth, 1nat, n,
{
    if n == 0 || n > types.len() {
        Ok(Seq::empty())
    } else {
        match dec_list(bs, types, base, (n - 1) as nat, max_len, depth) {
            Err(e) => Err(e),
            Ok(vs) => match dec(
                bs,
                types[n - 1],
                base,
                heads_len(types, (n - 1) as nat),
                max_len,
                depth,
            ) {
                Err(e) => Err(e),
                Ok(v) => Ok(vs.push(v)),
            },
        }
    }
}

/// What the bytes `bs` decode to as values of the types `types`: an error
/// where a type is not well formed, else the block that starts at 0.
pub open spec fn decoded(bs: Seq<u8>, types: Seq<TypeView>, limits: Limits) -> Result<
    Seq<ValueView>,
    AbiError,
> {
    if !all_valid(types, types.len()) {
        Err(AbiError::InvalidType)
    } else {
        dec_block(bs, types, 0, limits.max_array_len as nat, limits.max_depth as nat)
    }
}

/// Whether `e` is an error that decoding a block can end in: short input
/// or a limit exceeded.
pub open spec fn is_decoding_error(e: AbiError) -> bool {
    e == AbiError::ShortInput || e == AbiError::LimitExceeded
}

/// Decoding one value fails with short input or a limit exceeded, and
/// with no other error.
pub proof fn lemma_dec_errors(
    bs: Seq<u8>,
    t: TypeView,
    base: nat,
    at: nat,
    max_len: nat,
    depth: nat,
)
    ensures
        dec(bs, t, base, at, max_len, depth) matches Err(e) ==> is_decoding_error(e),
    decreases depth, 0nat, 0nat,
{
    let pos = base + at;
    if depth > 0 {
        let d = (depth - 1) as nat;
        match t {
            TypeView::FixedArray(elem, n) => {
                lemma_dec_block_errors(bs, repeat(*elem, n), pos, max_len, d);
                lemma_dec_block_errors(
                    bs,
                    repeat(*elem, n),
                    base + be_nat(word_at(bs, pos as int)),
                    max_len,
                    d,
                );
            },
            TypeView::Tuple(_, types) => {
                lemma_dec_block_errors(bs, types, pos, max_len, d);
                lemma_dec_block_errors(
                    bs,
                    types,
                    base + be_nat(word_at(bs, pos as int)),
                    max_len,
                    d,
                );
            },
            TypeView::Array(elem) => {
                let body = base + be_nat(word_at(bs, pos as int));
                let n = be_nat(word_at(bs, body as int));
                lemma_dec_block_errors(bs, repeat(*elem, n), body + 32, max_len, d);
            },
            _ => {},
        }
    }
}

/// Decoding a block fails with short input or a limit exceeded, and with
/// no other error.
pub proof fn lemma_dec_block_errors(
    bs: Seq<u8>,
    types: Seq<TypeView>,
    base: nat,
    max_len: nat,
    depth: nat,
)
    ensures
        dec_block(bs, types, base, max_len, depth) matches Err(e) ==> is_decoding_error(e),
    decreases depth, 2nat, 0nat,
{
    lemma_dec_list_errors(bs, types, base, types.len(), max_len, depth);
}

/// Decoding the values of a block fails with short input or a limit
/// exceeded, and with no other error.
pub proof fn lemma_dec_list_errors(
    bs: Seq<u8>,
    types: Seq<TypeView>,
    base: nat,
    n: nat,
    max_len: nat,
    depth: nat,
)
    ensures
        dec_list(bs, types, base, n, max_len, depth) matches Err(e) ==> is_decoding_error(e),
    decreases depth, 1nat, n,
{
    if n > 0 && n <= types.len() {
        lemma_dec_list_errors(bs, types, base, (n - 1) as nat, max_len, depth);
        lemma_dec_errors(
            bs,
            types[n - 1],
            base,
            heads_len(types, (n - 1) as nat),
            max_len,
            depth,
        );
    }
}

} // verus!
