//! The algebra of ABI types: what a type is, whether it is static or
//! dynamic, how many bytes it takes in the head of a block, and how it is
//! written in a signature.

use crate::text::{dec_digits, push_decimal};
use vstd::prelude::*;
use vstd::string::*;

verus! {

/// An ABI type.
#[derive(Debug, PartialEq, Eq)]
pub enum Type {
    /// `uint<M>`: unsigned integer of `M` bits.
    Uint(usize),
    /// `int<M>`: two's-complement integer of `M` bits.
    Int(usize),
    /// `address`: a 20-byte account id.
    Address,
    /// `bool`.
    Bool,
    /// `bytes<M>`: exactly `M` bytes.
    FixedBytes(usize),
    /// `T[k]`: exactly `k` elements of `T`.
    FixedArray(Box<Type>, usize),
    /// `string`: a byte string that holds UTF-8 text.
    String,
    /// `bytes`: a byte string of any length.
    Bytes,
    /// `T[]`: any number of elements of `T`.
    Array(Box<Type>),
    /// `tuple`: named fields, in order.
    Tuple(Vec<(String, Type)>),
}

/// The mathematical model of a [`Type`]. A tuple keeps its field names and
/// its field types in two sequences of one length.
pub enum TypeView {
    Uint(nat),
    Int(nat),
    Address,
    Bool,
    FixedBytes(nat),
    FixedArray(Box<TypeView>, nat),
    String,
    Bytes,
    Array(Box<TypeView>),
    Tuple(Seq<Seq<char>>, Seq<TypeView>),
}

impl Type {
    /// The mathematical model of the type.
    pub open spec fn model(&self) -> TypeView
        decreases self,
    {
        match self {
            Type::Uint(bits) => TypeView::Uint(*bits as nat),
            Type::Int(bits) => TypeView::Int(*bits as nat),
            Type::Address => TypeView::Address,
            Type::Bool => TypeView::Bool,
            Type::FixedBytes(n) => TypeView::FixedBytes(*n as nat),
            Type::FixedArray(elem, n) => TypeView::FixedArray(Box::new(elem.model()), *n as nat),
            Type::String => TypeView::String,
            Type::Bytes => TypeView::Bytes,
            Type::Array(elem) => TypeView::Array(Box::new(elem.model())),
            Type::Tuple(fields) => TypeView::Tuple(
                Seq::new(fields.len() as nat, |i: int| fields[i].0@),
                Seq::new(
                    fields.len() as nat,
                    |i: int|
                        if 0 <= i < fields.len() {
                            fields[i].1.model()
                        } else {
                            TypeView::Bool
                        },
                ),
            ),
        }
    }
}

impl View for Type {
    type V = TypeView;

    open spec fn view(&self) -> TypeView {
        self.model()
    }
}

impl TypeView {
    /// Whether the type is dynamic: `bytes`, `string`, `T[]`, a fixed array
    /// of a dynamic type, or a tuple with a dynamic field. A fixed array
    /// without elements is static, whatever the type of its elements: it
    /// takes no bytes.
    pub open spec fn is_dynamic(self) -> bool
        decreases self,
    {
        match self {
            TypeView::Bytes | TypeView::String | TypeView::Array(_) => true,
            TypeView::FixedArray(elem, n) => n > 0 && elem.is_dynamic(),
            TypeView::Tuple(_, types) => any_dynamic(types, types.len()),
            _ => false,
        }
    }

    /// The bytes the type takes in the head of a block: 32 for an offset
    /// where it is dynamic, else the whole encoding.
    pub open spec fn head_size(self) -> nat
        decreases self,
    {
        match self {
            TypeView::FixedArray(elem, n) => if n > 0 && elem.is_dynamic() {
                32
            } else {
                n * elem.head_size()
            },
            TypeView::Tuple(_, types) => if any_dynamic(types, types.len()) {
                32
            } else {
                heads_len(types, types.len())
            },
            _ => 32,
        }
    }

    /// Whether the type is well formed: integer widths are multiples of 8
    /// in `8..=256`, fixed byte strings have 1 to 32 bytes, and a tuple has
    /// one name for each field.
    pub open spec fn valid(self) -> bool
        decreases self,
    {
        match self {
            TypeView::Uint(bits) => valid_int_size(bits),
            TypeView::Int(bits) => valid_int_size(bits),
            TypeView::FixedBytes(n) => valid_fixed_bytes_size(n),
            TypeView::FixedArray(elem, _) => elem.valid(),
            TypeView::Array(elem) => elem.valid(),
            TypeView::Tuple(names, types) => names.len() == types.len() && all_valid(
                types,
                types.len(),
            ),
            _ => true,
        }
    }

    /// The canonical form of the type, as a signature spells it: a tuple is
    /// `(T1,T2,...)`, without the names of its fields.
    pub open spec fn canonical(self) -> Seq<char>
        decreases self,
    {
        match self {
            TypeView::Uint(bits) => "uint"@ + dec_digits(bits),
            TypeView::Int(bits) => "int"@ + dec_digits(bits),
            TypeView::Address => "address"@,
            TypeView::Bool => "bool"@,
            TypeView::FixedBytes(n) => "bytes"@ + dec_digits(n),
            TypeView::FixedArray(elem, n) => elem.canonical() + "["@ + dec_digits(n) + "]"@,
            TypeView::String => "string"@,
            TypeView::Bytes => "bytes"@,
            TypeView::Array(elem) => elem.canonical() + "[]"@,
            TypeView::Tuple(_, types) => "("@ + canonical_list(types, types.len()) + ")"@,
        }
    }

    /// How deep arrays and tuples nest in the type.
    pub open spec fn depth(self) -> nat
        decreases self,
    {
        match self {
            TypeView::FixedArray(elem, _) => 1 + elem.depth(),
            TypeView::Array(elem) => 1 + elem.depth(),
            TypeView::Tuple(_, types) => 1 + max_depth(types, types.len()),
            _ => 0,
        }
    }
}

/// The models of the types of `types`, in order.
pub open spec fn type_views(types: Seq<Type>) -> Seq<TypeView> {
    Seq::new(types.len(), |i: int| types[i]@)
}

/// Whether `bits` is a width that `uint<M>` and `int<M>` admit.
pub open spec fn valid_int_size(bits: nat) -> bool {
    0 < bits <= 256 && bits % 8 == 0
}

/// Whether `n` is a length that `bytes<M>` admits.
pub open spec fn valid_fixed_bytes_size(n: nat) -> bool {
    0 < n <= 32
}

/// Whether the first `n` types of `types` are well formed.
pub open spec fn all_valid(types: Seq<TypeView>, n: nat) -> bool
    decreases types, n,
{
    if n == 0 || n > types.len() {
        true
    } else {
        all_valid(types, (n - 1) as nat) && types[n - 1].valid()
    }
}

/// The canonical forms of the first `n` types of `types`, with a comma
/// between one and the next.
pub open spec fn canonical_list(types: Seq<TypeView>, n: nat) -> Seq<char>
    decreases types, n,
{
    if n == 0 || n > types.len() {
        Seq::empty()
    } else if n == 1 {
        types[0].canonical()
    } else {
        canonical_list(types, (n - 1) as nat) + ","@ + types[n - 1].canonical()
    }
}

/// Whether one of the first `n` types of `types` is dynamic.
pub open spec fn any_dynamic(types: Seq<TypeView>, n: nat) -> bool
    decreases types, n,
{
    if n == 0 || n > types.len() {
        false
    } else {
        any_dynamic(types, (n - 1) as nat) || types[n - 1].is_dynamic()
    }
}

/// The sum of the head sizes of the first `n` types of `types`.
pub open spec fn heads_len(types: Seq<TypeView>, n: nat) -> nat
    decreases types, n,
{
    if n == 0 || n > types.len() {
        0
    } else {
        heads_len(types, (n - 1) as nat) + types[n - 1].head_size()
    }
}

/// The greatest depth among the first `n` types of `types`.
pub open spec fn max_depth(types: Seq<TypeView>, n: nat) -> nat
    decreases types, n,
{
    if n == 0 || n > types.len() {
        0
    } else {
        let rest = max_depth(types, (n - 1) as nat);
        let d = types[n - 1].depth();
        if d > rest {
            d
        } else {
            rest
        }
    }
}

impl Clone for Type {
    fn clone(&self) -> (r: Type)
        ensures
            r@ == self@,
    {
        copy_type(self)
    }
}

/// A deep copy of `t`.
pub fn copy_type(t: &Type) -> (r: Type)
    ensures
        r@ == t@,
    decreases t,
{
    match t {
        Type::Uint(bits) => Type::Uint(*bits),
        Type::Int(bits) => Type::Int(*bits),
        Type::Address => Type::Address,
        Type::Bool => Type::Bool,
        Type::FixedBytes(n) => Type::FixedBytes(*n),
        Type::FixedArray(elem, n) => Type::FixedArray(Box::new(copy_type(elem)), *n),
        Type::String => Type::String,
        Type::Bytes => Type::Bytes,
        Type::Array(elem) => Type::Array(Box::new(copy_type(elem))),
        Type::Tuple(fields) => {
            let mut out: Vec<(String, Type)> = Vec::new();
            let mut i: usize = 0;
            while i < fields.len()
                invariant
                    i <= fields.len(),
                    out.len() == i,
                    t is Tuple,
                    t->Tuple_0 == *fields,
                    forall|j: int|
                        0 <= j < i ==> out[j].0@ == fields[j].0@ && out[j].1@ == fields[j].1@,
                decreases fields.len() - i,
            {
                proof {
                    vstd::std_specs::vec::axiom_vec_index_decreases(*fields, i as int);
                }
                let ty = copy_type(&fields[i].1);
                out.push((fields[i].0.clone(), ty));
                i += 1;
            }
            let r = Type::Tuple(out);
            assert(r@ == t@) by {
                assert(r@->Tuple_0 =~= t@->Tuple_0);
                assert(r@->Tuple_1 =~= t@->Tuple_1);
            }
            r
        },
    }
}

/// Decides whether `i` is a width that `uint<M>` and `int<M>` admit.
pub fn check_int_size(i: &usize) -> (ok: bool)
    ensures
        ok == valid_int_size(*i as nat),
{
    let i: usize = *i;
    i > 0 && i <= 256 && i % 8 == 0
}

/// Decides whether `i` is a length that `bytes<M>` admits.
pub fn check_fixed_bytes_size(i: &usize) -> (ok: bool)
    ensures
        ok == valid_fixed_bytes_size(*i as nat),
{
    let i: usize = *i;
    i > 0 && i <= 32
}

/// The heads of more types take no fewer bytes.
pub proof fn lemma_heads_len_mono(types: Seq<TypeView>, i: nat, n: nat)
    requires
        i <= n <= types.len(),
    ensures
        heads_len(types, i) <= heads_len(types, n),
    decreases n,
{
    if i < n {
        lemma_heads_len_mono(types, i, (n - 1) as nat);
    }
}

/// A dynamic type among the first `i` is one among the first `n`.
pub proof fn lemma_any_dynamic_mono(types: Seq<TypeView>, i: nat, n: nat)
    requires
        i <= n <= types.len(),
        any_dynamic(types, i),
    ensures
        any_dynamic(types, n),
    decreases n,
{
    if i < n {
        lemma_any_dynamic_mono(types, i, (n - 1) as nat);
    }
}

/// A type among the first `i` that is not well formed is one among the
/// first `n`.
pub proof fn lemma_all_valid_mono(types: Seq<TypeView>, i: nat, n: nat)
    requires
        i <= n <= types.len(),
        !all_valid(types, i),
    ensures
        !all_valid(types, n),
    decreases n,
{
    if i < n {
        lemma_all_valid_mono(types, i, (n - 1) as nat);
    }
}

/// The greatest depth among more types is no smaller.
pub proof fn lemma_max_depth_mono(types: Seq<TypeView>, i: nat, n: nat)
    requires
        i <= n <= types.len(),
    ensures
        max_depth(types, i) <= max_depth(types, n),
    decreases n,
{
    if i < n {
        lemma_max_depth_mono(types, i, (n - 1) as nat);
    }
}

impl Type {
    /// Whether the type is well formed.
    pub fn is_valid(&self) -> (ok: bool)
        ensures
            ok == self@.valid(),
        decreases self,
    {
        match self {
            Type::Uint(bits) => check_int_size(bits),
            Type::Int(bits) => check_int_size(bits),
            Type::FixedBytes(n) => check_fixed_bytes_size(n),
            Type::FixedArray(elem, _) => elem.is_valid(),
            Type::Array(elem) => elem.is_valid(),
            Type::Tuple(fields) => {
                let ghost types = self@->Tuple_1;
                let mut i: usize = 0;
                while i < fields.len()
                    invariant
                        i <= fields.len(),
                        self is Tuple,
                        self->Tuple_0 == *fields,
                        types == self@->Tuple_1,
                        all_valid(types, i as nat),
                    decreases fields.len() - i,
                {
                    proof {
                        vstd::std_specs::vec::axiom_vec_index_decreases(*fields, i as int);
                    }
                    if !fields[i].1.is_valid() {
                        proof {
                            lemma_all_valid_mono(types, (i + 1) as nat, types.len());
                        }
                        return false;
                    }
                    i += 1;
                }
                true
            },
            _ => true,
        }
    }

    /// Whether the two types are the same, field names included.
    pub fn same_as(&self, other: &Type) -> (same: bool)
        ensures
            same == (self@ == other@),
        decreases self,
    {
        match (self, other) {
            (Type::Uint(a), Type::Uint(b)) => *a == *b,
            (Type::Int(a), Type::Int(b)) => *a == *b,
            (Type::Address, Type::Address) => true,
            (Type::Bool, Type::Bool) => true,
            (Type::FixedBytes(a), Type::FixedBytes(b)) => *a == *b,
            (Type::FixedArray(a, n), Type::FixedArray(b, m)) => *n == *m && a.same_as(b),
            (Type::String, Type::String) => true,
            (Type::Bytes, Type::Bytes) => true,
            (Type::Array(a), Type::Array(b)) => a.same_as(b),
            (Type::Tuple(fa), Type::Tuple(fb)) => {
                if fa.len() != fb.len() {
                    assert(self@->Tuple_1.len() != other@->Tuple_1.len());
                    return false;
                }
                let mut i: usize = 0;
                while i < fa.len()
                    invariant
                        i <= fa.len(),
                        fa.len() == fb.len(),
                        self is Tuple,
                        self->Tuple_0 == *fa,
                        other is Tuple,
                        other->Tuple_0 == *fb,
                        forall|j: int|
                            0 <= j < i ==> fa[j].0@ == fb[j].0@ && fa[j].1@ == fb[j].1@,
                    decreases fa.len() - i,
                {
                    proof {
                        vstd::std_specs::vec::axiom_vec_index_decreases(*fa, i as int);
                    }
                    if !(fa[i].0 == fb[i].0) {
                        assert(self@->Tuple_0[i as int] != other@->Tuple_0[i as int]);
                        return false;
                    }
                    if !fa[i].1.same_as(&fb[i].1) {
                        assert(self@->Tuple_1[i as int] != other@->Tuple_1[i as int]);
                        return false;
                    }
                    i += 1;
                }
                assert(self@->Tuple_0 =~= other@->Tuple_0);
                assert(self@->Tuple_1 =~= other@->Tuple_1);
                true
            },
            _ => false,
        }
    }

    /// Whether the type is dynamic.
    pub fn is_dynamic(&self) -> (dynamic: bool)
        ensures
            dynamic == self@.is_dynamic(),
        decreases self,
    {
        match self {
            Type::Bytes | Type::String | Type::Array(_) => true,
            Type::FixedArray(elem, n) => *n > 0 && elem.is_dynamic(),
            Type::Tuple(fields) => {
                let ghost types = self@->Tuple_1;
                let mut i: usize = 0;
                while i < fields.len()
                    invariant
                        i <= fields.len(),
                        self is Tuple,
                        self->Tuple_0 == *fields,
                        types == self@->Tuple_1,
                        !any_dynamic(types, i as nat),
                    decreases fields.len() - i,
                {
                    proof {
                        vstd::std_specs::vec::axiom_vec_index_decreases(*fields, i as int);
                    }
                    if fields[i].1.is_dynamic() {
                        proof {
                            lemma_any_dynamic_mono(types, (i + 1) as nat, types.len());
                        }
                        return true;
                    }
                    i += 1;
                }
                false
            },
            _ => false,
        }
    }

    /// Whether arrays and tuples nest at most `max` deep in the type.
    pub fn depth_within(&self, max: usize) -> (ok: bool)
        ensures
            ok == (self@.depth() <= max),
        decreases self,
    {
        match self {
            Type::FixedArray(elem, _) => max > 0 && elem.depth_within(max - 1),
            Type::Array(elem) => max > 0 && elem.depth_within(max - 1),
            Type::Tuple(fields) => {
                if max == 0 {
                    return false;
                }
                let ghost types = self@->Tuple_1;
                let mut i: usize = 0;
                while i < fields.len()
                    invariant
                        i <= fields.len(),
                        max > 0,
                        self is Tuple,
                        self->Tuple_0 == *fields,
                        types == self@->Tuple_1,
                        max_depth(types, i as nat) <= max - 1,
                    decreases fields.len() - i,
                {
                    proof {
                        vstd::std_specs::vec::axiom_vec_index_decreases(*fields, i as int);
                    }
                    if !fields[i].1.depth_within(max - 1) {
                        proof {
                            lemma_max_depth_mono(types, (i + 1) as nat, types.len());
                        }
                        return false;
                    }
                    i += 1;
                }
                true
            },
            _ => true,
        }
    }

    /// The bytes the type takes in the head of a block, or `None` where
    /// that number does not fit a `usize`.
    pub fn head_size(&self) -> (size: Option<usize>)
        ensures
            match size {
                Some(n) => n == self@.head_size(),
                None => self@.head_size() > usize::MAX,
            },
        decreases self,
    {
        match self {
            Type::FixedArray(elem, n) => {
                if *n > 0 && elem.is_dynamic() {
                    Some(32)
                } else if *n == 0 {
                    assert(0 * self@->FixedArray_0.head_size() == 0) by (nonlinear_arith);
                    Some(0)
                } else {
                    match elem.head_size() {
                        None => {
                            assert(*n * elem@.head_size() >= elem@.head_size()) by (nonlinear_arith)
                                requires
                                    *n >= 1,
                            ;
                            None
                        },
                        Some(e) => n.checked_mul(e),
                    }
                }
            },
            Type::Tuple(fields) => {
                if self.is_dynamic() {
                    return Some(32);
                }
                let ghost types = self@->Tuple_1;
                let mut total: usize = 0;
                let mut i: usize = 0;
                while i < fields.len()
                    invariant
                        i <= fields.len(),
                        self is Tuple,
                        self->Tuple_0 == *fields,
                        types == self@->Tuple_1,
                        total == heads_len(types, i as nat),
                        !self@.is_dynamic(),
                    decreases fields.len() - i,
                {
                    proof {
                        vstd::std_specs::vec::axiom_vec_index_decreases(*fields, i as int);
                        lemma_heads_len_mono(types, (i + 1) as nat, types.len());
                    }
                    let next = match fields[i].1.head_size() {
                        None => None,
                        Some(h) => total.checked_add(h),
                    };
                    match next {
                        None => {
                            return None;
                        },
                        Some(t) => {
                            total = t;
                        },
                    }
                    i += 1;
                }
                Some(total)
            },
            _ => Some(32),
        }
    }

    /// The canonical form of the type, as a signature spells it.
    pub fn to_string(&self) -> (s: String)
        ensures
            s@ == self@.canonical(),
    {
        let mut out = String::new();
        self.write_canonical(&mut out);
        out
    }

    /// Appends the canonical form of the type to `out`.
    pub fn write_canonical(&self, out: &mut String)
        ensures
            final(out)@ == old(out)@ + self@.canonical(),
        decreases self,
    {
        match self {
            Type::Uint(bits) => {
                out.append("uint");
                push_decimal(out, *bits);
            },
            Type::Int(bits) => {
                out.append("int");
                push_decimal(out, *bits);
            },
            Type::Address => {
                out.append("address");
            },
            Type::Bool => {
                out.append("bool");
            },
            Type::FixedBytes(n) => {
                out.append("bytes");
                push_decimal(out, *n);
            },
            Type::FixedArray(elem, n) => {
                elem.write_canonical(out);
                out.append("[");
                push_decimal(out, *n);
                out.append("]");
            },
            Type::String => {
                out.append("string");
            },
            Type::Bytes => {
                out.append("bytes");
            },
            Type::Array(elem) => {
                elem.write_canonical(out);
                out.append("[]");
            },
            Type::Tuple(fields) => {
                let ghost types = self@->Tuple_1;
                out.append("(");
                let ghost start = out@;
                let mut i: usize = 0;
                while i < fields.len()
                    invariant
                        i <= fields.len(),
                        self is Tuple,
                        self->Tuple_0 == *fields,
                        types == self@->Tuple_1,
                        out@ == start + canonical_list(types, i as nat),
                    decreases fields.len() - i,
                {
                    proof {
                        vstd::std_specs::vec::axiom_vec_index_decreases(*fields, i as int);
                    }
                    if i > 0 {
                        out.append(",");
                    }
                    fields[i].1.write_canonical(out);
                    i += 1;
                }
                out.append(")");
            },
        }
    }
}

} // verus!
