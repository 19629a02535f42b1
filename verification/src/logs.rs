//! What holds of every decoded log.

use crate::abi::{
    hashed_in_topic, indexed_count, is_indexed, merged, param_types, plain_params, topic_value,
    EventView,
};
use crate::codec::decoded;
use crate::errors::{standard_limits, AbiError};
use crate::params::ParamView;
use crate::types::TypeView;
use crate::values::ValueView;
use vstd::prelude::*;

verus! {

/// Whether the topic of every indexed parameter among the first `n` gives
/// a value.
pub open spec fn topics_decode(params: Seq<ParamView>, topics: Seq<Seq<u8>>, n: nat) -> bool
    decreases n,
{
    if n == 0 || n > params.len() {
        true
    } else {
        topics_decode(params, topics, (n - 1) as nat) && (is_indexed(params[n - 1])
            ==> topic_value(
            topics[indexed_count(params, (n - 1) as nat) as int],
            params[n - 1].type_,
        ) is Ok)
    }
}

/// Parameters and values are merged to one pair for each parameter, and
/// that fails only where the topic of an indexed parameter gives no value.
/// In the pairs each parameter stands at its place; an indexed one has the
/// value of its topic, any other the next of the plain values.
pub proof fn lemma_merged(
    params: Seq<ParamView>,
    topics: Seq<Seq<u8>>,
    plain: Seq<ValueView>,
    n: nat,
)
    requires
        n <= params.len(),
    ensures
        merged(params, topics, plain, n) is Ok <==> topics_decode(params, topics, n),
        merged(params, topics, plain, n) matches Ok(pairs) ==> {
            &&& pairs.len() == n
            &&& forall|j: int|
                0 <= j < n ==> {
                    let k = indexed_count(params, j as nat) as int;
                    &&& (#[trigger] pairs[j]).0 == params[j]
                    &&& is_indexed(params[j]) ==> topic_value(topics[k], params[j].type_) == Ok::<
                        ValueView,
                        AbiError,
                    >(pairs[j].1)
                    &&& !is_indexed(params[j]) ==> pairs[j].1 == plain[j - k]
                }
        },
    decreases n,
{
    if n > 0 {
        lemma_merged(params, topics, plain, (n - 1) as nat);
    }
}

/// A topic that holds a digest is the value.
///
/// For an indexed parameter of type `string`, as of any type whose value a
/// topic holds by its digest, the value is the 32 bytes of the topic, as
/// `bytes32`; there is no topic for which it fails.
pub proof fn lemma_hashed_topic_is_the_value(topic: Seq<u8>, t: TypeView)
    requires
        hashed_in_topic(t),
    ensures
        hashed_in_topic(TypeView::String),
        topic_value(topic, t) == Ok::<ValueView, AbiError>(ValueView::FixedBytes(topic)),
{
}

/// In a decoded log, the value of an indexed parameter whose topic holds a
/// digest is the topic.
pub proof fn lemma_hashed_topic_in_log(
    e: EventView,
    id: Seq<u8>,
    topics: Seq<Seq<u8>>,
    data: Seq<u8>,
    i: int,
)
    requires
        0 <= i < e.inputs.len(),
        is_indexed(e.inputs[i]),
        hashed_in_topic(e.inputs[i].type_),
        e.log_decoded_with(id, topics, data) is Ok,
    ensures
        ({
            let pairs = e.log_decoded_with(id, topics, data)->Ok_0;
            let first = if e.anonymous {
                0int
            } else {
                1int
            };
            let k = first + indexed_count(e.inputs, i as nat);
            &&& pairs.len() == e.inputs.len()
            &&& 0 <= k < topics.len()
            &&& pairs[i] == (e.inputs[i], ValueView::FixedBytes(topics[k]))
        }),
{
    let n = e.inputs.len();
    let value_topics = if e.anonymous {
        topics
    } else {
        topics.skip(1)
    };
    let plain = decoded(data, param_types(plain_params(e.inputs, n)), standard_limits())->Ok_0;
    lemma_merged(e.inputs, value_topics, plain, n);
    crate::abi::lemma_indexed_count_mono(e.inputs, (i + 1) as nat, n);
    let pairs = merged(e.inputs, value_topics, plain, n)->Ok_0;
    assert(pairs[i].0 == e.inputs[i]);
}

/// The topics of an anonymous event are those of its indexed parameters.
///
/// A log of an anonymous event fails with an arity mismatch where the
/// number of its topics is not the number of indexed parameters, and with
/// nothing else. Where the numbers agree, it decodes if and only if the
/// data decodes as the block of the parameters that are not indexed and
/// every topic gives a value; a topic that holds a digest always does.
pub proof fn lemma_anonymous_log(e: EventView, id: Seq<u8>, topics: Seq<Seq<u8>>, data: Seq<u8>)
    requires
        e.anonymous,
    ensures
        ({
            let n = e.inputs.len();
            let r = e.log_decoded_with(id, topics, data);
            &&& topics.len() != indexed_count(e.inputs, n) <==> r == Err::<
                Seq<(ParamView, ValueView)>,
                AbiError,
            >(AbiError::IndexedArityMismatch)
            &&& topics.len() == indexed_count(e.inputs, n) ==> (r is Ok <==> decoded(
                data,
                param_types(plain_params(e.inputs, n)),
                standard_limits(),
            ) is Ok && topics_decode(e.inputs, topics, n))
        }),
{
    let n = e.inputs.len();
    let plain_types = param_types(plain_params(e.inputs, n));
    let d = decoded(data, plain_types, standard_limits());
    if topics.len() == indexed_count(e.inputs, n) {
        if d is Ok {
            lemma_merged(e.inputs, topics, d->Ok_0, n);
            lemma_merged_never_arity(e.inputs, topics, d->Ok_0, n);
        } else {
            lemma_decoded_never_arity(data, plain_types);
        }
    }
}

/// Merging does not fail with an arity mismatch.
proof fn lemma_merged_never_arity(
    params: Seq<ParamView>,
    topics: Seq<Seq<u8>>,
    plain: Seq<ValueView>,
    n: nat,
)
    requires
        n <= params.len(),
    ensures
        merged(params, topics, plain, n) != Err::<Seq<(ParamView, ValueView)>, AbiError>(
            AbiError::IndexedArityMismatch,
        ),
    decreases n,
{
    if n > 0 {
        lemma_merged_never_arity(params, topics, plain, (n - 1) as nat);
        let k = indexed_count(params, (n - 1) as nat) as int;
        let t = params[n - 1].type_;
        if !hashed_in_topic(t) {
            lemma_decoded_never_arity(topics[k], seq![t]);
        }
    }
}

/// Decoding values does not fail with an arity mismatch.
proof fn lemma_decoded_never_arity(bs: Seq<u8>, types: Seq<TypeView>)
    ensures
        decoded(bs, types, standard_limits()) != Err::<Seq<ValueView>, AbiError>(
            AbiError::IndexedArityMismatch,
        ),
{
    let l = standard_limits();
    crate::codec::lemma_dec_block_errors(
        bs,
        types,
        0,
        l.max_array_len as nat,
        l.max_depth as nat,
    );
}

} // verus!
