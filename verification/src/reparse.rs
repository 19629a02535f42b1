//! The descriptor that is written for a type is read back as that type.

use crate::errors::SchemaIssue;
use crate::params::{
    lemma_last_open_at, param_of, parsed, parsed_atom, parsed_fields, sized, entry_of, ParamView,
};
use crate::text::{dec_digits, is_digit, lemma_dec_round_trip};
use crate::types::TypeView;
use vstd::prelude::*;

verus! {

impl TypeView {
    /// Whether every fixed array in the type has a length that fits a
    /// `usize`.
    pub open spec fn lengths_fit(self) -> bool
        decreases self,
    {
        match self {
            TypeView::FixedArray(elem, n) => n <= usize::MAX && elem.lengths_fit(),
            TypeView::Array(elem) => elem.lengths_fit(),
            TypeView::Tuple(_, types) => forall|i: int|
                0 <= i < types.len() ==> (#[trigger] types[i]).lengths_fit(),
            _ => true,
        }
    }
}

/// The characters of the words of the grammar.
proof fn lemma_literals()
    ensures
        "address"@ == seq!['a', 'd', 'd', 'r', 'e', 's', 's'],
        "bool"@ == seq!['b', 'o', 'o', 'l'],
        "string"@ == seq!['s', 't', 'r', 'i', 'n', 'g'],
        "bytes"@ == seq!['b', 'y', 't', 'e', 's'],
        "tuple"@ == seq!['t', 'u', 'p', 'l', 'e'],
        "uint"@ == seq!['u', 'i', 'n', 't'],
        "int"@ == seq!['i', 'n', 't'],
        "["@ == seq!['['],
        "]"@ == seq![']'],
        "[]"@ == seq!['[', ']'],
{
    reveal_strlit("address");
    reveal_strlit("bool");
    reveal_strlit("string");
    reveal_strlit("bytes");
    reveal_strlit("tuple");
    reveal_strlit("uint");
    reveal_strlit("int");
    reveal_strlit("[");
    reveal_strlit("]");
    reveal_strlit("[]");
    assert("address"@ =~= seq!['a', 'd', 'd', 'r', 'e', 's', 's']);
    assert("bool"@ =~= seq!['b', 'o', 'o', 'l']);
    assert("string"@ =~= seq!['s', 't', 'r', 'i', 'n', 'g']);
    assert("bytes"@ =~= seq!['b', 'y', 't', 'e', 's']);
    assert("tuple"@ =~= seq!['t', 'u', 'p', 'l', 'e']);
    assert("uint"@ =~= seq!['u', 'i', 'n', 't']);
    assert("int"@ =~= seq!['i', 'n', 't']);
    assert("["@ =~= seq!['[']);
    assert("]"@ =~= seq![']']);
    assert("[]"@ =~= seq!['[', ']']);
}

/// A word followed by the numeral of `n` reads as that word with the
/// number `n`, and as no other of the words of the grammar.
proof fn lemma_sized_text(word: Seq<char>, n: nat)
    requires
        word == "uint"@ || word == "int"@ || word == "bytes"@,
    ensures
        ({
            let s = word + dec_digits(n);
            &&& s.len() > 0
            &&& is_digit(s.last())
            &&& sized(s, word) == Some(n)
            &&& word != "uint"@ ==> sized(s, "uint"@) is None
            &&& word == "bytes"@ ==> sized(s, "int"@) is None
            &&& s != "address"@
            &&& s != "bool"@
            &&& s != "string"@
            &&& s != "bytes"@
            &&& s != "tuple"@
        }),
{
    lemma_literals();
    lemma_dec_round_trip(n);
    let d = dec_digits(n);
    let s = word + d;
    assert(s.last() == d.last());
    assert(s.skip(word.len() as int) =~= d);
    assert(s.subrange(0, word.len() as int) =~= word);
    assert(word.is_prefix_of(s));
    if word != "uint"@ {
        assert(s[0] != 'u');
        if "uint"@.is_prefix_of(s) {
            assert(s.subrange(0, 4)[0] == 'u');
        }
    }
    if word == "bytes"@ {
        if "int"@.is_prefix_of(s) {
            assert(s.subrange(0, 3)[0] == 'i');
        }
    }
}

/// The type text of a well-formed type whose lengths fit, with the
/// components of that type, spells the type.
pub proof fn lemma_reparse(t: TypeView)
    requires
        t.valid(),
        t.lengths_fit(),
    ensures
        parsed(t.type_text(), t.components()) == Ok::<TypeView, SchemaIssue>(t),
    decreases t, 1nat,
{
    lemma_literals();
    let s = t.type_text();
    let c = t.components();
    match t {
        TypeView::Uint(bits) => {
            lemma_sized_text("uint"@, bits);
            assert(parsed(s, c) == parsed_atom(s, c));
        },
        TypeView::Int(bits) => {
            lemma_sized_text("int"@, bits);
            assert(parsed(s, c) == parsed_atom(s, c));
        },
        TypeView::FixedBytes(n) => {
            lemma_sized_text("bytes"@, n);
            assert(parsed(s, c) == parsed_atom(s, c));
        },
        TypeView::Address => {
            assert(s.last() == 's');
        },
        TypeView::Bool => {
            assert(s.last() == 'l');
        },
        TypeView::String => {
            assert(s.last() == 'g');
        },
        TypeView::Bytes => {
            assert(s.last() == 's');
        },
        TypeView::Array(elem) => {
            let inner = elem.type_text();
            lemma_reparse(*elem);
            assert(s == inner + "[]"@);
            assert(s.last() == ']');
            assert(s[inner.len() as int] == '[');
            lemma_last_open_at(s, inner.len() as int);
            assert(s.subrange((inner.len() + 1) as int, s.len() - 1) =~= Seq::<char>::empty());
            assert(s.subrange(0, inner.len() as int) =~= inner);
        },
        TypeView::FixedArray(elem, n) => {
            let inner = elem.type_text();
            let d = dec_digits(n);
            lemma_reparse(*elem);
            lemma_dec_round_trip(n);
            assert(s == inner + "["@ + d + "]"@);
            assert(s.last() == ']');
            assert(s[inner.len() as int] == '[');
            assert forall|k: int| inner.len() < k < s.len() implies s[k] != '[' by {
                if k < s.len() - 1 {
                    assert(s[k] == d[k - inner.len() - 1]);
                    assert(is_digit(d[k - inner.len() - 1]));
                }
            }
            lemma_last_open_at(s, inner.len() as int);
            assert(s.subrange((inner.len() + 1) as int, s.len() - 1) =~= d);
            assert(s.subrange(0, inner.len() as int) =~= inner);
        },
        TypeView::Tuple(names, types) => {
            assert(s.last() == 'e');
            let entries = c->0;
            lemma_reparse_fields(t, types.len());
            assert(parsed_fields(entries, entries.len()) == Ok::<Seq<TypeView>, SchemaIssue>(
                types.take(types.len() as int),
            ));
            assert(types.take(types.len() as int) =~= types);
            assert(Seq::new(entries.len(), |i: int| entries[i].name) =~= names);
        },
    }
}

/// The components that are written for a tuple are read back as the types
/// of its fields.
proof fn lemma_reparse_fields(t: TypeView, n: nat)
    requires
        t is Tuple,
        t.valid(),
        t.lengths_fit(),
        n <= t->Tuple_1.len(),
    ensures
        parsed_fields(t.components()->0, n) == Ok::<Seq<TypeView>, SchemaIssue>(
            t->Tuple_1.take(n as int),
        ),
    decreases t, 0nat, n,
{
    let types = t->Tuple_1;
    let entries = t.components()->0;
    if n == 0 {
        assert(types.take(0) =~= Seq::<TypeView>::empty());
    } else {
        lemma_reparse_fields(t, (n - 1) as nat);
        crate::decode::lemma_all_valid_index(types, types.len());
        assert(types[n - 1].valid());
        lemma_reparse(types[n - 1]);
        assert(entries[n - 1].type_ == types[n - 1].type_text());
        assert(entries[n - 1].components == types[n - 1].components());
        assert(types.take(n as int) =~= types.take(n - 1).push(types[n - 1]));
    }
}

/// The descriptor that is written for a parameter is read back as that
/// parameter; so the canonical form of its type, and with it every
/// signature, is the same after writing and reading a schema.
pub proof fn lemma_param_reparse(p: ParamView)
    requires
        p.type_.valid(),
        p.type_.lengths_fit(),
    ensures
        param_of(entry_of(p)) == Ok::<ParamView, SchemaIssue>(p),
        param_of(entry_of(p))->Ok_0.type_.canonical() == p.type_.canonical(),
{
    lemma_reparse(p.type_);
}

} // verus!
