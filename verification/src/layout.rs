//! Where the heads and the tails of a block lie in its encoding.

use crate::codec::{
    enc, enc_seq, head_of, head_total, heads, lemma_heads_len, tail_of, tails,
};
use crate::types::{heads_len, lemma_heads_len_mono};
use crate::values::{all_values_valid, lemma_types_of, types_of, ValueView};
use crate::word::{be_nat, lemma_word_len, lemma_word_of_nat_value, pow256};
use vstd::prelude::*;

verus! {

/// Whether the bytes `chunk` stand in `bs` from `pos` on.
pub open spec fn holds_at(bs: Seq<u8>, pos: int, chunk: Seq<u8>) -> bool {
    0 <= pos && pos + chunk.len() <= bs.len() && bs.subrange(pos, pos + chunk.len()) == chunk
}

/// Where two chunks stand one after the other, each of them stands.
pub proof fn lemma_holds_at_concat(bs: Seq<u8>, pos: int, a: Seq<u8>, b: Seq<u8>)
    requires
        holds_at(bs, pos, a + b),
    ensures
        holds_at(bs, pos, a),
        holds_at(bs, pos + a.len(), b),
{
    let whole = bs.subrange(pos, pos + (a + b).len());
    assert(bs.subrange(pos, pos + a.len()) =~= whole.subrange(0, a.len() as int));
    assert(whole.subrange(0, a.len() as int) =~= a);
    assert(bs.subrange(pos + a.len(), pos + a.len() + b.len()) =~= whole.subrange(
        a.len() as int,
        (a + b).len() as int,
    ));
    assert(whole.subrange(a.len() as int, (a + b).len() as int) =~= b);
}

/// The tails of the first `i` values come first among the tails of the
/// first `n`.
pub proof fn lemma_tails_prefix(vs: Seq<ValueView>, i: nat, n: nat)
    requires
        i <= n <= vs.len(),
    ensures
        tails(vs, i).len() <= tails(vs, n).len(),
        tails(vs, n).subrange(0, tails(vs, i).len() as int) == tails(vs, i),
    decreases n,
{
    if i < n {
        lemma_tails_prefix(vs, i, (n - 1) as nat);
        let before = tails(vs, (n - 1) as nat);
        assert(tails(vs, n) == before + tail_of(vs, n - 1));
        assert(tails(vs, n).subrange(0, tails(vs, i).len() as int) =~= before.subrange(
            0,
            tails(vs, i).len() as int,
        ));
    } else {
        assert(tails(vs, n).subrange(0, tails(vs, n).len() as int) =~= tails(vs, n));
    }
}

/// The heads of the first `i` values come first among the heads of the
/// first `n`.
pub proof fn lemma_heads_prefix(vs: Seq<ValueView>, i: nat, n: nat, base: nat)
    requires
        i <= n <= vs.len(),
    ensures
        heads(vs, i, base).len() <= heads(vs, n, base).len(),
        heads(vs, n, base).subrange(0, heads(vs, i, base).len() as int) == heads(vs, i, base),
    decreases n,
{
    if i < n {
        lemma_heads_prefix(vs, i, (n - 1) as nat, base);
        let before = heads(vs, (n - 1) as nat, base);
        assert(heads(vs, n, base) == before + head_of(vs, n - 1, base));
        assert(heads(vs, n, base).subrange(0, heads(vs, i, base).len() as int)
            =~= before.subrange(0, heads(vs, i, base).len() as int));
    } else {
        assert(heads(vs, n, base).subrange(0, heads(vs, n, base).len() as int) =~= heads(
            vs,
            n,
            base,
        ));
    }
}

/// In a block that stands at `at` in `bs`, the head of value `i` stands
/// behind the heads before it, and its tail behind all heads and the tails
/// before it.
pub proof fn lemma_parts_hold(bs: Seq<u8>, at: int, vs: Seq<ValueView>, i: int)
    requires
        0 <= i < vs.len(),
        holds_at(bs, at, enc_seq(vs)),
    ensures
        holds_at(
            bs,
            at + heads(vs, i as nat, head_total(vs)).len(),
            head_of(vs, i, head_total(vs)),
        ),
        holds_at(
            bs,
            at + heads(vs, vs.len(), head_total(vs)).len() + tails(vs, i as nat).len(),
            tail_of(vs, i),
        ),
{
    let h = head_total(vs);
    let n = vs.len();
    let hs = heads(vs, n, h);
    let ts = tails(vs, n);
    lemma_holds_at_concat(bs, at, hs, ts);
    // the head
    let upto = heads(vs, (i + 1) as nat, h);
    lemma_heads_prefix(vs, (i + 1) as nat, n, h);
    assert(hs =~= upto + hs.subrange(upto.len() as int, hs.len() as int));
    lemma_holds_at_concat(bs, at, upto, hs.subrange(upto.len() as int, hs.len() as int));
    assert(upto == heads(vs, i as nat, h) + head_of(vs, i, h));
    lemma_holds_at_concat(bs, at, heads(vs, i as nat, h), head_of(vs, i, h));
    // the tail
    let tupto = tails(vs, (i + 1) as nat);
    lemma_tails_prefix(vs, (i + 1) as nat, n);
    assert(ts =~= tupto + ts.subrange(tupto.len() as int, ts.len() as int));
    lemma_holds_at_concat(
        bs,
        at + hs.len(),
        tupto,
        ts.subrange(tupto.len() as int, ts.len() as int),
    );
    assert(tupto == tails(vs, i as nat) + tail_of(vs, i));
    lemma_holds_at_concat(bs, at + hs.len(), tails(vs, i as nat), tail_of(vs, i));
}

/// The layout of a block of valid values.
///
/// The encoding is at least as long as the heads, which take the sum of
/// the head sizes of the types. For each dynamic value the 32 bytes at its
/// place in the heads spell an offset: that of its body, which lies at or
/// behind the end of the heads and within the encoding. The offsets are
/// spelled exactly where the encoding is shorter than `2^256` bytes.
pub proof fn lemma_head_tail_layout(vs: Seq<ValueView>, i: int)
    requires
        all_values_valid(vs, vs.len()),
        0 <= i < vs.len(),
        enc_seq(vs).len() < pow256(32),
    ensures
        enc_seq(vs).len() >= head_total(vs),
        enc_seq(vs).len() == head_total(vs) + tails(vs, vs.len()).len(),
        heads_len(types_of(vs, vs.len()), (i + 1) as nat) <= head_total(vs),
        vs[i].is_dynamic() ==> {
            let place = heads_len(types_of(vs, vs.len()), i as nat) as int;
            let offset = be_nat(enc_seq(vs).subrange(place, place + 32));
            &&& place + 32 <= head_total(vs)
            &&& offset == head_total(vs) + tails(vs, i as nat).len()
            &&& head_total(vs) <= offset
            &&& offset + enc(vs[i]).len() <= enc_seq(vs).len()
            &&& enc_seq(vs).subrange(offset as int, (offset + enc(vs[i]).len()) as int) == enc(
                vs[i],
            )
        },
        !vs[i].is_dynamic() ==> {
            let place = heads_len(types_of(vs, vs.len()), i as nat) as int;
            &&& place + enc(vs[i]).len() <= head_total(vs)
            &&& enc_seq(vs).subrange(place, place + enc(vs[i]).len()) == enc(vs[i])
        },
{
    let h = head_total(vs);
    let n = vs.len();
    let whole = enc_seq(vs);
    let types = types_of(vs, n);
    lemma_types_of(vs, n);
    lemma_heads_len(vs, n, h);
    lemma_all_valid_prefix(vs, i as nat, n);
    lemma_all_valid_prefix(vs, (i + 1) as nat, n);
    lemma_heads_len(vs, i as nat, h);
    lemma_heads_len(vs, (i + 1) as nat, h);
    lemma_heads_len_mono(types, (i + 1) as nat, n);
    assert(whole.subrange(0, whole.len() as int) =~= whole);
    assert(holds_at(whole, 0, whole));
    lemma_parts_hold(whole, 0, vs, i);
    lemma_tails_prefix(vs, i as nat, n);
    lemma_tails_prefix(vs, (i + 1) as nat, n);
    assert(heads(vs, (i + 1) as nat, h) == heads(vs, i as nat, h) + head_of(vs, i, h));
    assert(tails(vs, (i + 1) as nat) == tails(vs, i as nat) + tail_of(vs, i));
    if vs[i].is_dynamic() {
        let offset = h + tails(vs, i as nat).len();
        lemma_word_len(offset, 0);
        lemma_word_of_nat_value(offset);
    }
}

/// Where the first `n` values of `vs` are valid, so are the first `i`.
pub proof fn lemma_all_valid_prefix(vs: Seq<ValueView>, i: nat, n: nat)
    requires
        i <= n <= vs.len(),
        all_values_valid(vs, n),
    ensures
        all_values_valid(vs, i),
    decreases n,
{
    if i < n {
        lemma_all_valid_prefix(vs, i, (n - 1) as nat);
    }
}

} // verus!
