//! ABI values and their mathematical model.

use crate::types::{
    any_dynamic, check_fixed_bytes_size, check_int_size, copy_type, lemma_any_dynamic_mono,
    valid_fixed_bytes_size, valid_int_size, Type, TypeView,
};
use crate::word::{int_fits, uint_fits, Address, Word};
use vstd::prelude::*;

verus! {

/// A value of an ABI type. An integer carries its declared width, an array
/// the type of its elements.
#[derive(Debug, PartialEq, Eq)]
pub enum Value {
    /// `uint<M>`: the number, and `M`.
    Uint(Word, usize),
    /// `int<M>`: the number as a two's-complement word of 256 bits, and `M`.
    Int(Word, usize),
    /// `address`.
    Address(Address),
    /// `bool`.
    Bool(bool),
    /// `bytes<M>`: the `M` bytes.
    FixedBytes(Vec<u8>),
    /// `T[k]`: the `k` elements, and `T`.
    FixedArray(Vec<Value>, Type),
    /// `string`.
    String(String),
    /// `bytes`.
    Bytes(Vec<u8>),
    /// `T[]`: the elements, and `T`.
    Array(Vec<Value>, Type),
    /// `tuple`: the fields with their names.
    Tuple(Vec<(String, Value)>),
}

/// The mathematical model of a [`Value`]. A tuple keeps its field names and
/// its field values in two sequences of one length.
pub enum ValueView {
    Uint(nat, nat),
    Int(int, nat),
    Address(Seq<u8>),
    Bool(bool),
    FixedBytes(Seq<u8>),
    FixedArray(Seq<ValueView>, TypeView),
    String(Seq<char>),
    Bytes(Seq<u8>),
    Array(Seq<ValueView>, TypeView),
    Tuple(Seq<Seq<char>>, Seq<ValueView>),
}

impl Value {
    /// The mathematical model of the value.
    pub open spec fn model(&self) -> ValueView
        decreases self,
    {
        match self {
            Value::Uint(w, bits) => ValueView::Uint(w.as_nat(), *bits as nat),
            Value::Int(w, bits) => ValueView::Int(w.as_int(), *bits as nat),
            Value::Address(a) => ValueView::Address(a@),
            Value::Bool(b) => ValueView::Bool(*b),
            Value::FixedBytes(b) => ValueView::FixedBytes(b@),
            Value::FixedArray(vs, t) => ValueView::FixedArray(
                Seq::new(
                    vs.len() as nat,
                    |i: int|
                        if 0 <= i < vs.len() {
                            vs[i].model()
                        } else {
                            ValueView::Bool(false)
                        },
                ),
                t@,
            ),
            Value::String(s) => ValueView::String(s@),
            Value::Bytes(b) => ValueView::Bytes(b@),
            Value::Array(vs, t) => ValueView::Array(
                Seq::new(
                    vs.len() as nat,
                    |i: int|
                        if 0 <= i < vs.len() {
                            vs[i].model()
                        } else {
                            ValueView::Bool(false)
                        },
                ),
                t@,
            ),
            Value::Tuple(fields) => ValueView::Tuple(
                Seq::new(fields.len() as nat, |i: int| fields[i].0@),
                Seq::new(
                    fields.len() as nat,
                    |i: int|
                        if 0 <= i < fields.len() {
                            fields[i].1.model()
                        } else {
                            ValueView::Bool(false)
                        },
                ),
            ),
        }
    }
}

impl View for Value {
    type V = ValueView;

    open spec fn view(&self) -> ValueView {
        self.model()
    }
}

/// The models of the values of `vs`, in order.
pub open spec fn views(vs: Seq<Value>) -> Seq<ValueView> {
    Seq::new(vs.len(), |i: int| vs[i]@)
}

impl ValueView {
    /// The type of the value.
    pub open spec fn type_of(self) -> TypeView
        decreases self,
    {
        match self {
            ValueView::Uint(_, bits) => TypeView::Uint(bits),
            ValueView::Int(_, bits) => TypeView::Int(bits),
            ValueView::Address(_) => TypeView::Address,
            ValueView::Bool(_) => TypeView::Bool,
            ValueView::FixedBytes(b) => TypeView::FixedBytes(b.len()),
            ValueView::FixedArray(vs, t) => TypeView::FixedArray(Box::new(t), vs.len()),
            ValueView::String(_) => TypeView::String,
            ValueView::Bytes(_) => TypeView::Bytes,
            ValueView::Array(_, t) => TypeView::Array(Box::new(t)),
            ValueView::Tuple(names, vs) => TypeView::Tuple(names, types_of(vs, vs.len())),
        }
    }

    /// Whether the value is one that its own type admits: an integer lies
    /// in the range of its width, an address has 20 bytes, a fixed byte
    /// string 1 to 32, every element of an array is a valid value of the
    /// array's element type, and a tuple has one name for each field.
    pub open spec fn valid(self) -> bool
        decreases self,
    {
        match self {
            ValueView::Uint(v, bits) => valid_int_size(bits) && uint_fits(v, bits),
            ValueView::Int(i, bits) => valid_int_size(bits) && int_fits(i, bits),
            ValueView::Address(a) => a.len() == 20,
            ValueView::FixedBytes(b) => valid_fixed_bytes_size(b.len()),
            ValueView::FixedArray(vs, t) => t.valid() && all_conform(vs, t, vs.len()),
            ValueView::Array(vs, t) => t.valid() && all_conform(vs, t, vs.len()),
            ValueView::Tuple(names, vs) => names.len() == vs.len() && all_values_valid(
                vs,
                vs.len(),
            ),
            _ => true,
        }
    }

    /// Whether the value is a valid value of type `t`.
    pub open spec fn conforms(self, t: TypeView) -> bool {
        self.valid() && self.type_of() == t
    }

    /// Whether the type of the value is dynamic.
    pub open spec fn is_dynamic(self) -> bool {
        self.type_of().is_dynamic()
    }
}

/// The types of the first `n` values of `vs`.
pub open spec fn types_of(vs: Seq<ValueView>, n: nat) -> Seq<TypeView>
    decreases vs, n,
{
    if n == 0 || n > vs.len() {
        Seq::empty()
    } else {
        types_of(vs, (n - 1) as nat).push(vs[n - 1].type_of())
    }
}

/// Whether the first `n` values of `vs` are valid.
pub open spec fn all_values_valid(vs: Seq<ValueView>, n: nat) -> bool
    decreases vs, n,
{
    if n == 0 || n > vs.len() {
        true
    } else {
        all_values_valid(vs, (n - 1) as nat) && vs[n - 1].valid()
    }
}

/// Whether the first `n` values of `vs` are valid values of type `t`.
pub open spec fn all_conform(vs: Seq<ValueView>, t: TypeView, n: nat) -> bool
    decreases vs, n,
{
    if n == 0 || n > vs.len() {
        true
    } else {
        all_conform(vs, t, (n - 1) as nat) && vs[n - 1].valid() && vs[n - 1].type_of() == t
    }
}


/// The types of the first `n` values: there are `n`, and each is the type of
/// the value at its place.
pub proof fn lemma_types_of(vs: Seq<ValueView>, n: nat)
    requires
        n <= vs.len(),
    ensures
        types_of(vs, n).len() == n,
        forall|i: int| 0 <= i < n ==> (#[trigger] types_of(vs, n)[i]) == vs[i].type_of(),
    decreases n,
{
    if n > 0 {
        lemma_types_of(vs, (n - 1) as nat);
    }
}

/// A value among the first `i` that does not conform is one among the first
/// `n`.
pub proof fn lemma_all_conform_mono(vs: Seq<ValueView>, t: TypeView, i: nat, n: nat)
    requires
        i <= n <= vs.len(),
        !all_conform(vs, t, i),
    ensures
        !all_conform(vs, t, n),
    decreases n,
{
    if i < n {
        lemma_all_conform_mono(vs, t, i, (n - 1) as nat);
    }
}

/// A value among the first `i` that is not valid is one among the first `n`.
pub proof fn lemma_all_values_valid_mono(vs: Seq<ValueView>, i: nat, n: nat)
    requires
        i <= n <= vs.len(),
        !all_values_valid(vs, i),
    ensures
        !all_values_valid(vs, n),
    decreases n,
{
    if i < n {
        lemma_all_values_valid_mono(vs, i, (n - 1) as nat);
    }
}

impl Clone for Value {
    fn clone(&self) -> (r: Value)
        ensures
            r@ == self@,
    {
        copy_value(self)
    }
}

/// Deep copies of the elements `vs` of the array `v`.
fn copy_values(v: &Value, vs: &Vec<Value>) -> (out: Vec<Value>)
    requires
        (v is Array && v->Array_0 == *vs) || (v is FixedArray && v->FixedArray_0 == *vs),
    ensures
        out.len() == vs.len(),
        forall|j: int| 0 <= j < vs.len() ==> out[j]@ == vs[j]@,
    decreases v, 0nat,
{
    let mut out: Vec<Value> = Vec::new();
    let mut i: usize = 0;
    while i < vs.len()
        invariant
            i <= vs.len(),
            out.len() == i,
            (v is Array && v->Array_0 == *vs) || (v is FixedArray && v->FixedArray_0 == *vs),
            forall|j: int| 0 <= j < i ==> out[j]@ == vs[j]@,
        decreases vs.len() - i,
    {
        proof {
            vstd::std_specs::vec::axiom_vec_index_decreases(*vs, i as int);
        }
        out.push(copy_value(&vs[i]));
        i += 1;
    }
    out
}

/// A deep copy of `v`.
pub fn copy_value(v: &Value) -> (r: Value)
    ensures
        r@ == v@,
    decreases v, 1nat,
{
    match v {
        Value::Uint(w, bits) => Value::Uint(*w, *bits),
        Value::Int(w, bits) => Value::Int(*w, *bits),
        Value::Address(a) => Value::Address(*a),
        Value::Bool(b) => Value::Bool(*b),
        Value::FixedBytes(b) => Value::FixedBytes(b.clone()),
        Value::FixedArray(vs, t) => {
            let r = Value::FixedArray(copy_values(v, vs), copy_type(t));
            assert(r@->FixedArray_0 =~= v@->FixedArray_0);
            r
        },
        Value::String(s) => Value::String(s.clone()),
        Value::Bytes(b) => Value::Bytes(b.clone()),
        Value::Array(vs, t) => {
            let r = Value::Array(copy_values(v, vs), copy_type(t));
            assert(r@->Array_0 =~= v@->Array_0);
            r
        },
        Value::Tuple(fields) => {
            let mut out: Vec<(String, Value)> = Vec::new();
            let mut i: usize = 0;
            while i < fields.len()
                invariant
                    i <= fields.len(),
                    out.len() == i,
                    v is Tuple,
                    v->Tuple_0 == *fields,
                    forall|j: int|
                        0 <= j < i ==> out[j].0@ == fields[j].0@ && out[j].1@ == fields[j].1@,
                decreases fields.len() - i,
            {
                proof {
                    vstd::std_specs::vec::axiom_vec_index_decreases(*fields, i as int);
                }
                let val = copy_value(&fields[i].1);
                out.push((fields[i].0.clone(), val));
                i += 1;
            }
            let r = Value::Tuple(out);
            assert(r@->Tuple_0 =~= v@->Tuple_0);
            assert(r@->Tuple_1 =~= v@->Tuple_1);
            r
        },
    }
}

impl Value {
    /// Whether the type of the value is dynamic.
    pub fn is_dynamic(&self) -> (dynamic: bool)
        ensures
            dynamic == self@.is_dynamic(),
        decreases self,
    {
        match self {
            Value::FixedArray(vs, t) => vs.len() > 0 && t.is_dynamic(),
            Value::String(_) | Value::Bytes(_) | Value::Array(_, _) => true,
            Value::Tuple(fields) => {
                let ghost vs = self@->Tuple_1;
                let ghost types = types_of(vs, vs.len());
                proof {
                    lemma_types_of(vs, vs.len());
                }
                let mut i: usize = 0;
                while i < fields.len()
                    invariant
                        i <= fields.len(),
                        self is Tuple,
                        self->Tuple_0 == *fields,
                        vs == self@->Tuple_1,
                        types == types_of(vs, vs.len()),
                        types.len() == vs.len(),
                        forall|j: int| 0 <= j < vs.len() ==> types[j] == vs[j].type_of(),
                        !any_dynamic(types, i as nat),
                    decreases fields.len() - i,
                {
                    proof {
                        vstd::std_specs::vec::axiom_vec_index_decreases(*fields, i as int);
                    }
                    if fields[i].1.is_dynamic() {
                        proof {
                            lemma_any_dynamic_mono(types, (i + 1) as nat, types.len());
                        }
                        return true;
                    }
                    i += 1;
                }
                false
            },
            _ => false,
        }
    }

    /// The type of the value.
    pub fn type_of(&self) -> (t: Type)
        ensures
            t@ == self@.type_of(),
        decreases self,
    {
        match self {
            Value::Uint(_, bits) => Type::Uint(*bits),
            Value::Int(_, bits) => Type::Int(*bits),
            Value::Address(_) => Type::Address,
            Value::Bool(_) => Type::Bool,
            Value::FixedBytes(b) => Type::FixedBytes(b.len()),
            Value::FixedArray(vs, t) => Type::FixedArray(Box::new(copy_type(t)), vs.len()),
            Value::String(_) => Type::String,
            Value::Bytes(_) => Type::Bytes,
            Value::Array(_, t) => Type::Array(Box::new(copy_type(t))),
            Value::Tuple(fields) => {
                let ghost vs = self@->Tuple_1;
                proof {
                    lemma_types_of(vs, vs.len());
                }
                let mut out: Vec<(String, Type)> = Vec::new();
                let mut i: usize = 0;
                while i < fields.len()
                    invariant
                        i <= fields.len(),
                        out.len() == i,
                        self is Tuple,
                        self->Tuple_0 == *fields,
                        vs == self@->Tuple_1,
                        forall|j: int| 0 <= j < i ==> (#[trigger] out[j]).0@ == fields[j].0@,
                        forall|j: int| 0 <= j < i ==> (#[trigger] out[j]).1@ == vs[j].type_of(),
                    decreases fields.len() - i,
                {
                    proof {
                        vstd::std_specs::vec::axiom_vec_index_decreases(*fields, i as int);
                    }
                    let ty = fields[i].1.type_of();
                    out.push((fields[i].0.clone(), ty));
                    i += 1;
                }
                let t = Type::Tuple(out);
                assert(self@.type_of() == TypeView::Tuple(
                    self@->Tuple_0,
                    types_of(vs, vs.len()),
                ));
                assert(t@->Tuple_0 =~= self@->Tuple_0);
                assert(t@->Tuple_0 =~= self@.type_of()->Tuple_0);
                assert(t@->Tuple_1 =~= self@.type_of()->Tuple_1);
                t
            },
        }
    }

    /// Whether the value is a valid value of type `ty`.
    pub fn conforms_to(&self, ty: &Type) -> (ok: bool)
        ensures
            ok == self@.conforms(ty@),
    {
        if !self.is_valid() {
            return false;
        }
        let own = self.type_of();
        own.same_as(ty)
    }

    /// Whether the value is one that its own type admits.
    pub fn is_valid(&self) -> (ok: bool)
        ensures
            ok == self@.valid(),
        decreases self, 1nat,
    {
        match self {
            Value::Uint(w, bits) => check_int_size(bits) && w.fits_uint(*bits),
            Value::Int(w, bits) => check_int_size(bits) && w.fits_int(*bits),
            Value::Address(a) => {
                proof {
                    vstd::array::array_len_matches_n(&a.bytes);
                }
                true
            },
            Value::FixedBytes(b) => {
                let n: usize = b.len();
                check_fixed_bytes_size(&n)
            },
            Value::FixedArray(vs, t) => t.is_valid() && self.elements_conform(vs, t),
            Value::Array(vs, t) => t.is_valid() && self.elements_conform(vs, t),
            Value::Tuple(fields) => {
                let ghost vs = self@->Tuple_1;
                let mut i: usize = 0;
                while i < fields.len()
                    invariant
                        i <= fields.len(),
                        self is Tuple,
                        self->Tuple_0 == *fields,
                        vs == self@->Tuple_1,
                        all_values_valid(vs, i as nat),
                    decreases fields.len() - i,
                {
                    proof {
                        vstd::std_specs::vec::axiom_vec_index_decreases(*fields, i as int);
                    }
                    if !fields[i].1.is_valid() {
                        proof {
                            lemma_all_values_valid_mono(vs, (i + 1) as nat, vs.len());
                        }
                        return false;
                    }
                    i += 1;
                }
                true
            },
            _ => true,
        }
    }

    /// Whether the elements `vs` of this array are valid values of type `t`.
    fn elements_conform(&self, vs: &Vec<Value>, t: &Type) -> (ok: bool)
        requires
            (self is Array && self->Array_0 == *vs) || (self is FixedArray && self->FixedArray_0
                == *vs),
        ensures
            ok == all_conform(views(vs@), t@, vs.len() as nat),
            self is Array ==> views(vs@) == self@->Array_0,
            self is FixedArray ==> views(vs@) == self@->FixedArray_0,
        decreases self, 0nat,
    {
        let ghost vv = views(vs@);
        assert(self is Array ==> vv =~= self@->Array_0);
        assert(self is FixedArray ==> vv =~= self@->FixedArray_0);
        let mut i: usize = 0;
        while i < vs.len()
            invariant
                i <= vs.len(),
                (self is Array && self->Array_0 == *vs) || (self is FixedArray
                    && self->FixedArray_0 == *vs),
                vv == views(vs@),
                all_conform(vv, t@, i as nat),
            decreases vs.len() - i,
        {
            proof {
                vstd::std_specs::vec::axiom_vec_index_decreases(*vs, i as int);
            }
            let ok = vs[i].is_valid() && vs[i].type_of().same_as(t);
            if !ok {
                proof {
                    lemma_all_conform_mono(vv, t@, (i + 1) as nat, vv.len());
                }
                return false;
            }
            i += 1;
        }
        true
    }
}

} // verus!
