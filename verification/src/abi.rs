//! The schema of a contract: its constructor, functions, events and
//! errors, and the routing of calldata and logs to the entry they belong to.

use crate::codec::decoded;
use crate::decode::{decode_types, ref_type_views, value_result};
use crate::decoded_params::{paired, DecodedParams};
use crate::errors::{standard_limits, AbiError, Limits};
use crate::hash::{hex_decoded, hex_to_bytes, keccak256, keccak256_word, leading_four};
use crate::params::{Param, ParamView};
use crate::types::{canonical_list, Type, TypeView};
use crate::values::{Value, ValueView};
use crate::word::{bytes_eq, Word};
use vstd::prelude::*;
use vstd::slice::slice_subrange;
use vstd::string::*;
use vstd::utf8::encode_utf8;

verus! {

/// What a function or constructor may do to the state of the chain.
#[derive(Debug, Copy, Clone, PartialEq, Eq)]
pub enum StateMutability {
    /// Does not read the state.
    Pure,
    /// Does not modify the state.
    View,
    /// Does not accept Ether.
    NonPayable,
    /// Accepts Ether.
    Payable,
}

/// The constructor of a contract.
#[derive(Debug, PartialEq, Eq)]
pub struct Constructor {
    pub inputs: Vec<Param>,
    pub state_mutability: StateMutability,
}

/// A function of a contract.
#[derive(Debug, PartialEq, Eq)]
pub struct Function {
    pub name: String,
    pub inputs: Vec<Param>,
    pub outputs: Vec<Param>,
    pub state_mutability: StateMutability,
}

/// The mathematical model of a [`Function`].
pub struct FunctionView {
    pub name: Seq<char>,
    pub inputs: Seq<ParamView>,
    pub outputs: Seq<ParamView>,
    pub state_mutability: StateMutability,
}

/// The models of the parameters `params`, in order.
pub open spec fn params_view(params: Seq<Param>) -> Seq<ParamView> {
    Seq::new(params.len(), |i: int| params[i]@)
}

/// The types of the parameters `params`, in order.
pub open spec fn param_types(params: Seq<ParamView>) -> Seq<TypeView> {
    Seq::new(params.len(), |i: int| params[i].type_)
}

/// The canonical signature of an entry named `name` with the parameters
/// `inputs`: the name, then the canonical forms of the parameters' types
/// between round brackets, with commas between them. Parameter names have
/// no part in it.
pub open spec fn signature_of(name: Seq<char>, inputs: Seq<ParamView>) -> Seq<char> {
    name + "("@ + canonical_list(param_types(inputs), inputs.len()) + ")"@
}

/// The Keccak-256 digest of the canonical signature.
pub open spec fn signature_digest(name: Seq<char>, inputs: Seq<ParamView>) -> Seq<u8> {
    keccak256(encode_utf8(signature_of(name, inputs)))
}

/// What the bytes `bs` decode to as values of the parameters `params`,
/// each value with its parameter.
pub open spec fn decoded_params(params: Seq<ParamView>, bs: Seq<u8>) -> Result<
    Seq<(ParamView, ValueView)>,
    AbiError,
> {
    match decoded(bs, param_types(params), standard_limits()) {
        Err(e) => Err(e),
        Ok(values) => Ok(paired(params, values)),
    }
}

/// The model of decoded parameters, or the error.
pub open spec fn params_result(r: Result<DecodedParams, AbiError>) -> Result<
    Seq<(ParamView, ValueView)>,
    AbiError,
> {
    match r {
        Ok(d) => Ok(d@),
        Err(e) => Err(e),
    }
}

impl View for Function {
    type V = FunctionView;

    open spec fn view(&self) -> FunctionView {
        FunctionView {
            name: self.name@,
            inputs: params_view(self.inputs@),
            outputs: params_view(self.outputs@),
            state_mutability: self.state_mutability,
        }
    }
}

impl FunctionView {
    /// The canonical signature of the function.
    pub open spec fn signature(self) -> Seq<char> {
        signature_of(self.name, self.inputs)
    }

    /// The selector of the function: the first four bytes of the digest of
    /// its signature.
    pub open spec fn method_id(self) -> Seq<u8> {
        signature_digest(self.name, self.inputs).subrange(0, 4)
    }
}

/// A deep copy of the parameters `params`.
pub fn copy_params(params: &Vec<Param>) -> (r: Vec<Param>)
    ensures
        params_view(r@) == params_view(params@),
{
    let mut out: Vec<Param> = Vec::new();
    let mut i: usize = 0;
    while i < params.len()
        invariant
            i <= params.len(),
            out.len() == i,
            forall|j: int| 0 <= j < i ==> (#[trigger] out[j])@ == params[j]@,
        decreases params.len() - i,
    {
        out.push(params[i].clone());
        i += 1;
    }
    assert(params_view(out@) =~= params_view(params@));
    out
}

impl Clone for Function {
    fn clone(&self) -> (r: Function)
        ensures
            r@ == self@,
    {
        Function {
            name: self.name.clone(),
            inputs: copy_params(&self.inputs),
            outputs: copy_params(&self.outputs),
            state_mutability: self.state_mutability,
        }
    }
}

/// Writes the canonical signature of an entry.
pub fn write_signature(name: &str, inputs: &Vec<Param>) -> (s: String)
    ensures
        s@ == signature_of(name@, params_view(inputs@)),
{
    let ghost types = param_types(params_view(inputs@));
    let mut out = String::from_str(name);
    out.append("(");
    let ghost start = out@;
    let mut i: usize = 0;
    while i < inputs.len()
        invariant
            i <= inputs.len(),
            types == param_types(params_view(inputs@)),
            out@ == start + canonical_list(types, i as nat),
        decreases inputs.len() - i,
    {
        if i > 0 {
            out.append(",");
        }
        assert(types[i as int] == inputs[i as int].type_@);
        inputs[i].type_.write_canonical(&mut out);
        i += 1;
    }
    out.append(")");
    out
}

/// The Keccak-256 digest of the canonical signature of an entry.
pub fn hash_signature(name: &str, inputs: &Vec<Param>) -> (w: Word)
    ensures
        w@ == signature_digest(name@, params_view(inputs@)),
{
    let s = write_signature(name, inputs);
    keccak256_word(s.as_str().as_bytes())
}

/// Decodes `bs` as the values of the parameters `params`, and pairs each
/// value with its parameter.
pub fn decode_params(params: &Vec<Param>, bs: &[u8]) -> (r: Result<DecodedParams, AbiError>)
    ensures
        params_result(r) == decoded_params(params_view(params@), bs@),
{
    let mut types: Vec<&Type> = Vec::new();
    let mut i: usize = 0;
    while i < params.len()
        invariant
            i <= params.len(),
            types.len() == i,
            forall|j: int| 0 <= j < i ==> (#[trigger] types[j])@ == params[j].type_@,
        decreases params.len() - i,
    {
        types.push(&params[i].type_);
        i += 1;
    }
    assert(ref_type_views(types@) =~= param_types(params_view(params@)));
    let limits = Limits::standard();
    match decode_types(bs, &types, &limits) {
        Err(e) => Err(e),
        Ok(values) => Ok(pair_up(params, values)),
    }
}

/// Pairs each parameter with the value at its place.
pub(crate) fn pair_up(params: &Vec<Param>, values: Vec<Value>) -> (d: DecodedParams)
    requires
        values.len() == params.len(),
    ensures
        d@ == paired(params_view(params@), crate::values::views(values@)),
{
    let mut items: Vec<(Param, Value)> = Vec::new();
    let mut i: usize = 0;
    while i < params.len()
        invariant
            i <= params.len(),
            values.len() == params.len(),
            items.len() == i,
            forall|j: int| 0 <= j < i ==> (#[trigger] items[j]).0@ == params[j]@,
            forall|j: int| 0 <= j < i ==> (#[trigger] items[j]).1@ == values[j]@,
        decreases params.len() - i,
    {
        items.push((params[i].clone(), values[i].clone()));
        i += 1;
    }
    let d = DecodedParams::from(items);
    assert(d@ =~= paired(params_view(params@), crate::values::views(values@)));
    d
}

impl Function {
    /// The canonical signature of the function.
    pub fn signature(&self) -> (s: String)
        ensures
            s@ == self@.signature(),
    {
        write_signature(self.name.as_str(), &self.inputs)
    }

    /// The selector of the function.
    pub fn method_id(&self) -> (id: [u8; 4])
        ensures
            id@ == self@.method_id(),
    {
        let digest = hash_signature(self.name.as_str(), &self.inputs);
        leading_four(&digest)
    }

    /// Decodes the arguments of a call of the function from `input`, the
    /// calldata without its selector.
    pub fn decode_input_from_slice(&self, input: &[u8]) -> (r: Result<DecodedParams, AbiError>)
        ensures
            params_result(r) == decoded_params(self@.inputs, input@),
    {
        decode_params(&self.inputs, input)
    }
}

/// The place of the first of the first `n` ids that equals `wanted`.
pub open spec fn first_match(ids: Seq<Seq<u8>>, wanted: Seq<u8>, n: nat) -> Option<int>
    decreases n,
{
    if n == 0 || n > ids.len() {
        None
    } else {
        let before = first_match(ids, wanted, (n - 1) as nat);
        if before is Some {
            before
        } else if ids[n - 1] == wanted {
            Some(n - 1)
        } else {
            None
        }
    }
}

/// Once an id among the first `i` matches, the first match among more ids is
/// the same.
pub proof fn lemma_first_match_stable(ids: Seq<Seq<u8>>, wanted: Seq<u8>, i: nat, n: nat)
    requires
        i <= n <= ids.len(),
        first_match(ids, wanted, i) is Some,
    ensures
        first_match(ids, wanted, n) == first_match(ids, wanted, i),
    decreases n,
{
    if i < n {
        lemma_first_match_stable(ids, wanted, i, (n - 1) as nat);
    }
}

/// The byte strings of the ids `ids`, in order.
pub open spec fn id_views<const N: usize>(ids: Seq<[u8; N]>) -> Seq<Seq<u8>> {
    Seq::new(ids.len(), |i: int| ids[i]@)
}

/// The place of the first id of `ids` that equals `wanted`.
pub fn find_first<const N: usize>(ids: &Vec<[u8; N]>, wanted: &[u8]) -> (r: Option<usize>)
    ensures
        match r {
            Some(i) => first_match(id_views(ids@), wanted@, ids.len() as nat) == Some(i as int)
                && i < ids.len(),
            None => first_match(id_views(ids@), wanted@, ids.len() as nat) is None,
        },
{
    let ghost views = id_views(ids@);
    let mut i: usize = 0;
    while i < ids.len()
        invariant
            i <= ids.len(),
            views == id_views(ids@),
            first_match(views, wanted@, i as nat) is None,
        decreases ids.len() - i,
    {
        assert(views[i as int] == ids[i as int]@);
        if bytes_eq(&ids[i], wanted) {
            proof {
                lemma_first_match_stable(views, wanted@, (i + 1) as nat, views.len());
            }
            return Some(i);
        }
        i += 1;
    }
    None
}

/// An event of a contract.
#[derive(Debug, PartialEq, Eq)]
pub struct Event {
    pub name: String,
    pub inputs: Vec<Param>,
    pub anonymous: bool,
}

/// The mathematical model of an [`Event`].
pub struct EventView {
    pub name: Seq<char>,
    pub inputs: Seq<ParamView>,
    pub anonymous: bool,
}

impl View for Event {
    type V = EventView;

    open spec fn view(&self) -> EventView {
        EventView {
            name: self.name@,
            inputs: params_view(self.inputs@),
            anonymous: self.anonymous,
        }
    }
}

impl Clone for Event {
    fn clone(&self) -> (r: Event)
        ensures
            r@ == self@,
    {
        Event {
            name: self.name.clone(),
            inputs: copy_params(&self.inputs),
            anonymous: self.anonymous,
        }
    }
}

/// An error of a contract.
#[derive(Debug, PartialEq, Eq)]
pub struct Error {
    pub name: String,
    pub inputs: Vec<Param>,
}

/// The byte strings of the topics `topics`, in order.
pub open spec fn topic_views(topics: Seq<Word>) -> Seq<Seq<u8>> {
    Seq::new(topics.len(), |i: int| topics[i]@)
}

/// Whether the parameter is indexed.
pub open spec fn is_indexed(p: ParamView) -> bool {
    p.indexed == Some(true)
}

/// How many of the first `n` parameters are indexed.
pub open spec fn indexed_count(params: Seq<ParamView>, n: nat) -> nat
    decreases n,
{
    if n == 0 || n > params.len() {
        0
    } else {
        indexed_count(params, (n - 1) as nat) + if is_indexed(params[n - 1]) {
            1nat
        } else {
            0nat
        }
    }
}

/// Those of the first `n` parameters that are not indexed, in order.
pub open spec fn plain_params(params: Seq<ParamView>, n: nat) -> Seq<ParamView>
    decreases n,
{
    if n == 0 || n > params.len() {
        Seq::empty()
    } else if is_indexed(params[n - 1]) {
        plain_params(params, (n - 1) as nat)
    } else {
        plain_params(params, (n - 1) as nat).push(params[n - 1])
    }
}

/// Whether a topic holds the digest of an indexed value of type `t` in
/// place of the value: so it is for `bytes`, `string`, a dynamic array, a
/// fixed array of a dynamic type, and a tuple.
pub open spec fn hashed_in_topic(t: TypeView) -> bool {
    t is Bytes || t is String || t is Array || t is Tuple || (t matches TypeView::FixedArray(
        elem,
        _,
    ) && elem.is_dynamic())
}

/// The value of an indexed parameter of type `t` whose topic is `topic`:
/// the 32 bytes of the topic where the topic holds a digest, else what the
/// topic decodes to as a block of that one type.
pub open spec fn topic_value(topic: Seq<u8>, t: TypeView) -> Result<ValueView, AbiError> {
    if hashed_in_topic(t) {
        Ok(ValueView::FixedBytes(topic))
    } else {
        match decoded(topic, seq![t], standard_limits()) {
            Err(e) => Err(e),
            Ok(values) => Ok(values[0]),
        }
    }
}

/// The first `n` parameters, each with its value: an indexed parameter
/// takes the next topic of `topics`, any other the next value of `plain`.
/// The first error met from the left is the result.
pub open spec fn merged(
    params: Seq<ParamView>,
    topics: Seq<Seq<u8>>,
    plain: Seq<ValueView>,
    n: nat,
) -> Result<Seq<(ParamView, ValueView)>, AbiError>
    decreases n,
{
    if n == 0 || n > params.len() {
        Ok(Seq::empty())
    } else {
        match merged(params, topics, plain, (n - 1) as nat) {
            Err(e) => Err(e),
            Ok(before) => {
                let p = params[n - 1];
                let k = indexed_count(params, (n - 1) as nat);
                if is_indexed(p) {
                    match topic_value(topics[k as int], p.type_) {
                        Err(e) => Err(e),
                        Ok(v) => Ok(before.push((p, v))),
                    }
                } else {
                    Ok(before.push((p, plain[n - 1 - k])))
                }
            },
        }
    }
}

impl EventView {
    /// The canonical signature of the event.
    pub open spec fn signature(self) -> Seq<char> {
        signature_of(self.name, self.inputs)
    }

    /// The id of the event: the whole digest of its signature.
    pub open spec fn topic(self) -> Seq<u8> {
        signature_digest(self.name, self.inputs)
    }

    /// What a log with the topics `topics` and the data `data` decodes to
    /// as a log of this event, whose id is `id`.
    ///
    /// Unless the event is anonymous, the first topic is its id and the
    /// topics after it are those of the indexed parameters. There is one
    /// topic for each indexed parameter. The data is the block of the
    /// parameters that are not indexed.
    pub open spec fn log_decoded_with(
        self,
        id: Seq<u8>,
        topics: Seq<Seq<u8>>,
        data: Seq<u8>,
    ) -> Result<Seq<(ParamView, ValueView)>, AbiError> {
        let n = self.inputs.len();
        let value_topics = if self.anonymous {
            topics
        } else {
            topics.skip(1)
        };
        if !self.anonymous && topics.len() == 0 {
            Err(AbiError::MissingTopic)
        } else if !self.anonymous && topics[0] != id {
            Err(AbiError::UnknownTopic)
        } else if value_topics.len() != indexed_count(self.inputs, n) {
            Err(AbiError::IndexedArityMismatch)
        } else {
            match decoded(data, param_types(plain_params(self.inputs, n)), standard_limits()) {
                Err(e) => Err(e),
                Ok(plain) => merged(self.inputs, value_topics, plain, n),
            }
        }
    }

    /// What a log with the topics `topics` and the data `data` decodes to
    /// as a log of this event.
    pub open spec fn log_decoded(self, topics: Seq<Seq<u8>>, data: Seq<u8>) -> Result<
        Seq<(ParamView, ValueView)>,
        AbiError,
    > {
        self.log_decoded_with(self.topic(), topics, data)
    }
}

/// Counting the indexed parameters: the count grows with the number of
/// parameters counted, as does the number of those that are not indexed.
pub proof fn lemma_indexed_count_mono(params: Seq<ParamView>, i: nat, n: nat)
    requires
        i <= n <= params.len(),
    ensures
        indexed_count(params, i) <= indexed_count(params, n),
        indexed_count(params, n) <= n,
        i - indexed_count(params, i) <= n - indexed_count(params, n),
        plain_params(params, n).len() == n - indexed_count(params, n),
    decreases n,
{
    if n > 0 {
        if i < n {
            lemma_indexed_count_mono(params, i, (n - 1) as nat);
        } else {
            lemma_indexed_count_mono(params, (n - 1) as nat, (n - 1) as nat);
        }
    }
}

/// An error met among the first `i` parameters is the error of merging more
/// of them.
pub proof fn lemma_merged_err(
    params: Seq<ParamView>,
    topics: Seq<Seq<u8>>,
    plain: Seq<ValueView>,
    i: nat,
    n: nat,
)
    requires
        i <= n <= params.len(),
        merged(params, topics, plain, i) is Err,
    ensures
        merged(params, topics, plain, n) == merged(params, topics, plain, i),
    decreases n,
{
    if i < n {
        lemma_merged_err(params, topics, plain, i, (n - 1) as nat);
    }
}

/// Whether the parameter is indexed.
pub fn param_is_indexed(p: &Param) -> (indexed: bool)
    ensures
        indexed == is_indexed(p@),
{
    match p.indexed {
        Some(flag) => flag,
        None => false,
    }
}

/// Whether a topic holds the digest of an indexed value of type `ty`.
pub fn type_is_hashed_in_topic(ty: &Type) -> (hashed: bool)
    ensures
        hashed == hashed_in_topic(ty@),
{
    match ty {
        Type::Bytes | Type::String | Type::Array(_) | Type::Tuple(_) => true,
        Type::FixedArray(elem, _) => elem.is_dynamic(),
        _ => false,
    }
}

/// The value of an indexed parameter of type `ty` from its topic.
pub fn decode_topic(topic: &Word, ty: &Type) -> (r: Result<Value, AbiError>)
    ensures
        value_result(r) == topic_value(topic@, ty@),
{
    if type_is_hashed_in_topic(ty) {
        let bytes = vstd::slice::slice_to_vec(vstd::array::array_as_slice(&topic.bytes));
        return Ok(Value::FixedBytes(bytes));
    }
    let mut types: Vec<&Type> = Vec::new();
    types.push(ty);
    assert(ref_type_views(types@) =~= seq![ty@]);
    let limits = Limits::standard();
    match decode_types(vstd::array::array_as_slice(&topic.bytes), &types, &limits) {
        Err(e) => Err(e),
        Ok(mut values) => {
            let ghost all = crate::values::views(values@);
            match values.pop() {
                Some(v) => {
                    assert(v@ == all[0]);
                    Ok(v)
                },
                None => Err(AbiError::ShortInput),
            }
        },
    }
}

impl Event {
    /// The canonical signature of the event.
    pub fn signature(&self) -> (s: String)
        ensures
            s@ == self@.signature(),
    {
        write_signature(self.name.as_str(), &self.inputs)
    }

    /// The id of the event: the whole digest of its signature.
    pub fn topic(&self) -> (id: Word)
        ensures
            id@ == self@.topic(),
    {
        hash_signature(self.name.as_str(), &self.inputs)
    }

    /// Decodes a log of this event from its topics and its data.
    pub fn decode_data_from_slice(&self, topics: &[Word], data: &[u8]) -> (r: Result<
        DecodedParams,
        AbiError,
    >)
        ensures
            params_result(r) == self@.log_decoded(topic_views(topics@), data@),
    {
        let id = self.topic();
        self.decode_data_with_id(&id, topics, data)
    }

    /// Decodes a log of this event, whose id is `id`, from its topics and
    /// its data.
    pub fn decode_data_with_id(&self, id: &Word, topics: &[Word], data: &[u8]) -> (r: Result<
        DecodedParams,
        AbiError,
    >)
        ensures
            params_result(r) == self@.log_decoded_with(id@, topic_views(topics@), data@),
    {
        let ghost params = self@.inputs;
        let ghost all_topics = topic_views(topics@);
        let n: usize = self.inputs.len();
        let skip: usize = if self.anonymous {
            0
        } else {
            1
        };
        if !self.anonymous {
            if topics.len() == 0 {
                return Err(AbiError::MissingTopic);
            }
            assert(all_topics[0] == topics[0]@);
            if !bytes_eq(&topics[0].bytes, &id.bytes) {
                return Err(AbiError::UnknownTopic);
            }
        }
        let ghost value_topics = all_topics.skip(skip as int);
        // the types of the parameters that the data holds, and how many
        // parameters the topics hold
        let mut plain_types: Vec<&Type> = Vec::new();
        let mut indexed: usize = 0;
        let mut i: usize = 0;
        while i < n
            invariant
                i <= n,
                n == self.inputs.len(),
                params == self@.inputs,
                indexed == indexed_count(params, i as nat),
                indexed <= i,
                ref_type_views(plain_types@) == param_types(plain_params(params, i as nat)),
            decreases n - i,
        {
            assert(params[i as int] == self.inputs[i as int]@);
            let ghost before = ref_type_views(plain_types@);
            if param_is_indexed(&self.inputs[i]) {
                indexed += 1;
            } else {
                plain_types.push(&self.inputs[i].type_);
                assert(ref_type_views(plain_types@) =~= before.push(params[i as int].type_));
                assert(param_types(plain_params(params, (i + 1) as nat)) =~= before.push(
                    params[i as int].type_,
                ));
            }
            i += 1;
        }
        if topics.len() - skip != indexed {
            return Err(AbiError::IndexedArityMismatch);
        }
        let limits = Limits::standard();
        let plain = match decode_types(data, &plain_types, &limits) {
            Err(e) => {
                return Err(e);
            },
            Ok(values) => values,
        };
        let ghost plain_views = crate::values::views(plain@);
        let ghost goal = self@.log_decoded_with(id@, all_topics, data@);
        proof {
            lemma_indexed_count_mono(params, n as nat, n as nat);
            assert(value_topics.len() == topics.len() - skip);
            assert(all_topics.skip(0) =~= all_topics);
            assert(goal == merged(params, value_topics, plain_views, n as nat));
        }
        let mut items: Vec<(Param, Value)> = Vec::new();
        let mut k: usize = 0;
        let mut j: usize = 0;
        while j < n
            invariant
                j <= n,
                n == self.inputs.len(),
                params == self@.inputs,
                all_topics == topic_views(topics@),
                value_topics == all_topics.skip(skip as int),
                skip <= topics.len(),
                topics.len() - skip == indexed_count(params, n as nat),
                plain_views == crate::values::views(plain@),
                goal == merged(params, value_topics, plain_views, n as nat),
                goal == self@.log_decoded_with(id@, topic_views(topics@), data@),
                plain.len() == n - indexed_count(params, n as nat),
                k == indexed_count(params, j as nat),
                k <= j,
                items.len() == j,
                merged(params, value_topics, plain_views, j as nat) is Ok,
                merged(params, value_topics, plain_views, j as nat)->Ok_0.len() == j,
                forall|x: int|
                    0 <= x < j ==> ((#[trigger] items[x]).0@, items[x].1@) == merged(
                        params,
                        value_topics,
                        plain_views,
                        j as nat,
                    )->Ok_0[x],
            decreases n - j,
        {
            proof {
                lemma_indexed_count_mono(params, (j + 1) as nat, n as nat);
                lemma_indexed_count_mono(params, j as nat, n as nat);
                assert(params[j as int] == self.inputs[j as int]@);
            }
            let ghost before = merged(params, value_topics, plain_views, j as nat)->Ok_0;
            let p = &self.inputs[j];
            if param_is_indexed(p) {
                assert(value_topics[k as int] == topics[skip + k]@);
                match decode_topic(&topics[skip + k], &p.type_) {
                    Err(e) => {
                        proof {
                            lemma_merged_err(
                                params,
                                value_topics,
                                plain_views,
                                (j + 1) as nat,
                                n as nat,
                            );
                        }
                        return Err(e);
                    },
                    Ok(v) => {
                        assert(merged(params, value_topics, plain_views, (j + 1) as nat)->Ok_0
                            == before.push((p@, v@)));
                        items.push((p.clone(), v));
                    },
                }
                k += 1;
            } else {
                assert(plain_views[j - k] == plain[j - k]@);
                assert(merged(params, value_topics, plain_views, (j + 1) as nat)->Ok_0
                    == before.push((p@, plain[j - k]@)));
                items.push((p.clone(), plain[j - k].clone()));
            }
            j += 1;
        }
        let d = DecodedParams::from(items);
        assert(d@ =~= merged(params, value_topics, plain_views, n as nat)->Ok_0);
        Ok(d)
    }
}

/// The schema of a contract.
#[derive(Debug, PartialEq, Eq)]
pub struct Abi {
    /// The constructor, where the contract declares one.
    pub constructor: Option<Constructor>,
    /// The functions of the contract.
    pub functions: Vec<Function>,
    /// The events of the contract.
    pub events: Vec<Event>,
    /// The errors of the contract.
    pub errors: Vec<Error>,
    /// Whether the contract has a receive method.
    pub has_receive: bool,
    /// Whether the contract has a fallback method.
    pub has_fallback: bool,
}

/// The models of the functions `functions`, in order.
pub open spec fn function_views(functions: Seq<Function>) -> Seq<FunctionView> {
    Seq::new(functions.len(), |i: int| functions[i]@)
}

/// The models of the events `events`, in order.
pub open spec fn event_views(events: Seq<Event>) -> Seq<EventView> {
    Seq::new(events.len(), |i: int| events[i]@)
}

/// The selectors of the functions `functions`, in order.
pub open spec fn method_ids(functions: Seq<FunctionView>) -> Seq<Seq<u8>> {
    Seq::new(functions.len(), |i: int| functions[i].method_id())
}

/// The ids of the events `events`, in order.
pub open spec fn topic_ids(events: Seq<EventView>) -> Seq<Seq<u8>> {
    Seq::new(events.len(), |i: int| events[i].topic())
}

/// What the calldata `input` decodes to among the functions `functions`,
/// whose selectors are `ids`: the place of the first function whose
/// selector leads the calldata, and its arguments decoded from what
/// follows the selector.
pub open spec fn input_decoded_with(
    functions: Seq<FunctionView>,
    ids: Seq<Seq<u8>>,
    input: Seq<u8>,
) -> Result<(int, Seq<(ParamView, ValueView)>), AbiError> {
    if input.len() < 4 {
        Err(AbiError::ShortInput)
    } else {
        match first_match(ids, input.subrange(0, 4), ids.len()) {
            None => Err(AbiError::UnknownSelector),
            Some(i) => if i >= functions.len() {
                Err(AbiError::UnknownSelector)
            } else {
                match decoded_params(functions[i].inputs, input.skip(4)) {
                    Err(e) => Err(e),
                    Ok(params) => Ok((i, params)),
                }
            },
        }
    }
}

/// What the calldata `input` decodes to among the functions `functions`.
pub open spec fn input_decoded(functions: Seq<FunctionView>, input: Seq<u8>) -> Result<
    (int, Seq<(ParamView, ValueView)>),
    AbiError,
> {
    input_decoded_with(functions, method_ids(functions), input)
}

/// What the hexadecimal text `text` decodes to as calldata among the
/// functions `functions`. No `0x` stands before the digits.
pub open spec fn hex_input_decoded(functions: Seq<FunctionView>, text: Seq<char>) -> Result<
    (int, Seq<(ParamView, ValueView)>),
    AbiError,
> {
    match hex_decoded(text) {
        None => Err(AbiError::InvalidHex),
        Some(input) => input_decoded(functions, input),
    }
}

/// What a log with the topics `topics` and the data `data` decodes to
/// among the events `events`, whose ids are `ids`: the place of the first
/// event whose id is the first topic, and the log decoded as a log of that
/// event.
pub open spec fn log_decoded_among(
    events: Seq<EventView>,
    ids: Seq<Seq<u8>>,
    topics: Seq<Seq<u8>>,
    data: Seq<u8>,
) -> Result<(int, Seq<(ParamView, ValueView)>), AbiError> {
    if topics.len() == 0 {
        Err(AbiError::MissingTopic)
    } else {
        match first_match(ids, topics[0], ids.len()) {
            None => Err(AbiError::UnknownTopic),
            Some(i) => if i >= events.len() {
                Err(AbiError::UnknownTopic)
            } else {
                match events[i].log_decoded_with(ids[i], topics, data) {
                    Err(e) => Err(e),
                    Ok(params) => Ok((i, params)),
                }
            },
        }
    }
}

impl Abi {
    /// Decodes calldata: finds the first function whose selector leads
    /// `input`, and decodes its arguments from what follows the selector.
    pub fn decode_input_from_slice<'a>(&'a self, input: &[u8]) -> (r: Result<
        (&'a Function, DecodedParams),
        AbiError,
    >)
        ensures
            match r {
                Ok((f, d)) => input_decoded(function_views(self.functions@), input@) matches Ok(
                    (i, params),
                ) && 0 <= i < self.functions.len() && *f == self.functions[i] && d@ == params,
                Err(e) => input_decoded(function_views(self.functions@), input@) == Err::<
                    (int, Seq<(ParamView, ValueView)>),
                    AbiError,
                >(e),
            },
    {
        let ghost fv = function_views(self.functions@);
        let mut ids: Vec<[u8; 4]> = Vec::new();
        let mut i: usize = 0;
        while i < self.functions.len()
            invariant
                i <= self.functions.len(),
                ids.len() == i,
                fv == function_views(self.functions@),
                forall|j: int| 0 <= j < i ==> (#[trigger] ids[j])@ == fv[j].method_id(),
            decreases self.functions.len() - i,
        {
            assert(fv[i as int] == self.functions[i as int]@);
            ids.push(self.functions[i].method_id());
            i += 1;
        }
        assert(id_views(ids@) =~= method_ids(fv));
        self.decode_input_with_ids(&ids, input)
    }

    /// Decodes calldata among the functions of the schema, whose selectors
    /// are `ids`, one for each function and in their order.
    pub fn decode_input_with_ids<'a>(&'a self, ids: &Vec<[u8; 4]>, input: &[u8]) -> (r: Result<
        (&'a Function, DecodedParams),
        AbiError,
    >)
        ensures
            match r {
                Ok((f, d)) => input_decoded_with(
                    function_views(self.functions@),
                    id_views(ids@),
                    input@,
                ) matches Ok((i, params)) && 0 <= i < self.functions.len() && *f
                    == self.functions[i] && d@ == params,
                Err(e) => input_decoded_with(
                    function_views(self.functions@),
                    id_views(ids@),
                    input@,
                ) == Err::<(int, Seq<(ParamView, ValueView)>), AbiError>(e),
            },
    {
        if input.len() < 4 {
            return Err(AbiError::ShortInput);
        }
        let selector = slice_subrange(input, 0, 4);
        let rest = slice_subrange(input, 4, input.len());
        assert(rest@ =~= input@.skip(4));
        match find_first(ids, selector) {
            None => Err(AbiError::UnknownSelector),
            Some(i) => {
                if i >= self.functions.len() {
                    return Err(AbiError::UnknownSelector);
                }
                let f = &self.functions[i];
                match f.decode_input_from_slice(rest) {
                    Err(e) => Err(e),
                    Ok(d) => Ok((f, d)),
                }
            },
        }
    }

    /// Decodes calldata given as hexadecimal text, without `0x` before the
    /// digits.
    pub fn decode_input_from_hex<'a>(&'a self, input: &str) -> (r: Result<
        (&'a Function, DecodedParams),
        AbiError,
    >)
        ensures
            match r {
                Ok((f, d)) => hex_input_decoded(function_views(self.functions@), input@) matches Ok(
                    (i, params),
                ) && 0 <= i < self.functions.len() && *f == self.functions[i] && d@ == params,
                Err(e) => hex_input_decoded(function_views(self.functions@), input@) == Err::<
                    (int, Seq<(ParamView, ValueView)>),
                    AbiError,
                >(e),
            },
    {
        match hex_to_bytes(input) {
            None => Err(AbiError::InvalidHex),
            Some(bytes) => self.decode_input_from_slice(bytes.as_slice()),
        }
    }

    /// Decodes a log: finds the first event whose id is the first topic,
    /// and decodes the log as a log of that event.
    pub fn decode_log_from_slice<'a>(&'a self, topics: &[Word], data: &[u8]) -> (r: Result<
        (&'a Event, DecodedParams),
        AbiError,
    >)
        ensures
            match r {
                Ok((e, d)) => log_decoded_among(
                    event_views(self.events@),
                    topic_ids(event_views(self.events@)),
                    topic_views(topics@),
                    data@,
                ) matches Ok((i, params)) && 0 <= i < self.events.len() && *e == self.events[i]
                    && d@ == params,
                Err(err) => log_decoded_among(
                    event_views(self.events@),
                    topic_ids(event_views(self.events@)),
                    topic_views(topics@),
                    data@,
                ) == Err::<(int, Seq<(ParamView, ValueView)>), AbiError>(err),
            },
    {
        let ghost ev = event_views(self.events@);
        let mut ids: Vec<[u8; 32]> = Vec::new();
        let mut i: usize = 0;
        while i < self.events.len()
            invariant
                i <= self.events.len(),
                ids.len() == i,
                ev == event_views(self.events@),
                forall|j: int| 0 <= j < i ==> (#[trigger] ids[j])@ == ev[j].topic(),
            decreases self.events.len() - i,
        {
            assert(ev[i as int] == self.events[i as int]@);
            ids.push(self.events[i].topic().bytes);
            i += 1;
        }
        assert(id_views(ids@) =~= topic_ids(ev));
        self.decode_log_with_ids(&ids, topics, data)
    }

    /// Decodes a log among the events of the schema, whose ids are `ids`,
    /// one for each event and in their order.
    pub fn decode_log_with_ids<'a>(
        &'a self,
        ids: &Vec<[u8; 32]>,
        topics: &[Word],
        data: &[u8],
    ) -> (r: Result<(&'a Event, DecodedParams), AbiError>)
        ensures
            match r {
                Ok((e, d)) => log_decoded_among(
                    event_views(self.events@),
                    id_views(ids@),
                    topic_views(topics@),
                    data@,
                ) matches Ok((i, params)) && 0 <= i < self.events.len() && *e == self.events[i]
                    && d@ == params,
                Err(err) => log_decoded_among(
                    event_views(self.events@),
                    id_views(ids@),
                    topic_views(topics@),
                    data@,
                ) == Err::<(int, Seq<(ParamView, ValueView)>), AbiError>(err),
            },
    {
        if topics.len() == 0 {
            return Err(AbiError::MissingTopic);
        }
        assert(topic_views(topics@)[0] == topics[0]@);
        match find_first(ids, vstd::array::array_as_slice(&topics[0].bytes)) {
            None => Err(AbiError::UnknownTopic),
            Some(i) => {
                if i >= self.events.len() {
                    return Err(AbiError::UnknownTopic);
                }
                let e = &self.events[i];
                let id = Word { bytes: ids[i] };
                assert(id_views(ids@)[i as int] == id@);
                match e.decode_data_with_id(&id, topics, data) {
                    Err(err) => Err(err),
                    Ok(d) => Ok((e, d)),
                }
            },
        }
    }
}

} // verus!
