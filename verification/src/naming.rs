//! Names have no part in a signature.

use crate::abi::{param_types, FunctionView};

use crate::types::{canonical_list, TypeView};
use vstd::prelude::*;

verus! {

impl TypeView {
    /// The type with every field of every tuple in it left without a name.
    pub open spec fn unnamed(self) -> TypeView
        decreases self,
    {
        match self {
            TypeView::FixedArray(elem, n) => TypeView::FixedArray(Box::new(elem.unnamed()), n),
            TypeView::Array(elem) => TypeView::Array(Box::new(elem.unnamed())),
            TypeView::Tuple(names, types) => TypeView::Tuple(
                Seq::new(names.len(), |i: int| Seq::<char>::empty()),
                Seq::new(
                    types.len(),
                    |i: int|
                        if 0 <= i < types.len() {
                            types[i].unnamed()
                        } else {
                            TypeView::Bool
                        },
                ),
            ),
            _ => self,
        }
    }
}

/// The canonical form of a type is that of the type without its names.
pub proof fn lemma_canonical_unnamed(t: TypeView)
    ensures
        t.canonical() == t.unnamed().canonical(),
    decreases t, 0nat,
{
    match t {
        TypeView::FixedArray(elem, n) => {
            lemma_canonical_unnamed(*elem);
        },
        TypeView::Array(elem) => {
            lemma_canonical_unnamed(*elem);
        },
        TypeView::Tuple(names, types) => {
            lemma_canonical_fields_unnamed(t, types.len());
        },
        _ => {},
    }
}

/// The canonical forms of the fields of a tuple are those of the fields
/// without their names.
proof fn lemma_canonical_fields_unnamed(t: TypeView, n: nat)
    requires
        t is Tuple,
        n <= t->Tuple_1.len(),
    ensures
        canonical_list(t->Tuple_1, n) == canonical_list(t.unnamed()->Tuple_1, n),
    decreases t, 0nat, n,
{
    if n > 0 {
        lemma_canonical_fields_unnamed(t, (n - 1) as nat);
        lemma_canonical_unnamed(t->Tuple_1[n - 1]);
        assert(t.unnamed()->Tuple_1[n - 1] == t->Tuple_1[n - 1].unnamed());
    }
}

/// Types with the same canonical forms, place by place, have the same
/// canonical forms in a list.
pub proof fn lemma_canonical_list_same(a: Seq<TypeView>, b: Seq<TypeView>, n: nat)
    requires
        n <= a.len(),
        a.len() == b.len(),
        forall|i: int| 0 <= i < a.len() ==> (#[trigger] a[i]).canonical() == b[i].canonical(),
    ensures
        canonical_list(a, n) == canonical_list(b, n),
    decreases n,
{
    if n > 0 {
        lemma_canonical_list_same(a, b, (n - 1) as nat);
        assert(a[n - 1].canonical() == b[n - 1].canonical());
        assert(a[0].canonical() == b[0].canonical());
    }
}

/// The signature and the selector of a function depend on its name and on
/// the canonical forms of the types of its inputs, and on nothing else:
/// two functions of one name whose inputs have, place by place, the same
/// types but for the names of tuple fields have the same signature and the
/// same selector, whatever the names of their parameters, their outputs
/// and their state mutability.
pub proof fn lemma_selector_ignores_names(f: FunctionView, g: FunctionView)
    requires
        f.name == g.name,
        f.inputs.len() == g.inputs.len(),
        forall|i: int|
            0 <= i < f.inputs.len() ==> (#[trigger] f.inputs[i]).type_.unnamed()
                == g.inputs[i].type_.unnamed(),
    ensures
        f.signature() == g.signature(),
        f.method_id() == g.method_id(),
{
    let a = param_types(f.inputs);
    let b = param_types(g.inputs);
    assert forall|i: int| 0 <= i < a.len() implies (#[trigger] a[i]).canonical()
        == b[i].canonical() by {
        assert(a[i] == f.inputs[i].type_);
        assert(b[i] == g.inputs[i].type_);
        assert(f.inputs[i].type_.unnamed() == g.inputs[i].type_.unnamed());
        lemma_canonical_unnamed(a[i]);
        lemma_canonical_unnamed(b[i]);
    }
    lemma_canonical_list_same(a, b, a.len());
}

} // verus!
