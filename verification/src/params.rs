//! Parameters of functions, events and errors, and the grammar of type
//! strings that their descriptors are written in.

use crate::errors::SchemaIssue;
use crate::text::{
    all_digits, chars_of, dec_digits, dec_value, digit_value, is_digit, push_decimal,
};
use crate::types::{
    check_fixed_bytes_size, check_int_size, copy_type, valid_fixed_bytes_size, valid_int_size,
    Type, TypeView,
};
use vstd::prelude::*;
use vstd::string::*;

verus! {

/// A parameter: its name, its type, and for the parameter of an event
/// whether it is indexed.
#[derive(Debug, PartialEq, Eq)]
pub struct Param {
    pub name: String,
    pub type_: Type,
    pub indexed: Option<bool>,
}

/// The mathematical model of a [`Param`].
pub struct ParamView {
    pub name: Seq<char>,
    pub type_: TypeView,
    pub indexed: Option<bool>,
}

impl View for Param {
    type V = ParamView;

    open spec fn view(&self) -> ParamView {
        ParamView { name: self.name@, type_: self.type_@, indexed: self.indexed }
    }
}

/// The descriptor of a parameter as a schema document holds it: the type
/// is a string of the type grammar, and a tuple comes with the descriptors
/// of its components.
#[derive(Debug, PartialEq, Eq)]
pub struct ParamEntry {
    pub name: String,
    pub type_: String,
    pub indexed: Option<bool>,
    pub components: Option<Vec<ParamEntry>>,
}

/// The mathematical model of a [`ParamEntry`].
pub struct ParamEntryView {
    pub name: Seq<char>,
    pub type_: Seq<char>,
    pub indexed: Option<bool>,
    pub components: Option<Seq<ParamEntryView>>,
}

impl ParamEntry {
    /// The mathematical model of the descriptor.
    pub open spec fn model(&self) -> ParamEntryView
        decreases self,
    {
        ParamEntryView {
            name: self.name@,
            type_: self.type_@,
            indexed: self.indexed,
            components: entries_model(&self.components),
        }
    }
}

/// The models of component descriptors.
pub open spec fn entries_model(components: &Option<Vec<ParamEntry>>) -> Option<
    Seq<ParamEntryView>,
>
    decreases components,
{
    match components {
        None => None,
        Some(cs) => Some(
            Seq::new(
                cs.len() as nat,
                |i: int|
                    if 0 <= i < cs.len() {
                        cs[i].model()
                    } else {
                        ParamEntryView {
                            name: Seq::empty(),
                            type_: Seq::empty(),
                            indexed: None,
                            components: None,
                        }
                    },
            ),
        ),
    }
}

impl View for ParamEntry {
    type V = ParamEntryView;

    open spec fn view(&self) -> ParamEntryView {
        self.model()
    }
}

/// The place of the last `[` of `s`, or -1 where it has none.
pub open spec fn last_open(s: Seq<char>) -> int
    decreases s.len(),
{
    if s.len() == 0 {
        -1
    } else if s.last() == '[' {
        s.len() - 1
    } else {
        last_open(s.drop_last())
    }
}

/// The number behind the word `word` at the start of `s`, where `s` is
/// that word followed by a decimal numeral.
pub open spec fn sized(s: Seq<char>, word: Seq<char>) -> Option<nat> {
    let rest = s.skip(word.len() as int);
    if word.is_prefix_of(s) && rest.len() > 0 && all_digits(rest) {
        Some(dec_value(rest))
    } else {
        None
    }
}

/// The type that the string `s` spells, for given component descriptors.
///
/// A string that ends in `]` is an array: what stands between the last
/// `[` and that `]` is empty for a dynamic array or a decimal numeral for a
/// fixed one, and what stands before the `[` spells the element type. So
/// `T[a][b]` is an array of `b` arrays of `a` elements of `T`. Any other
/// string is an elementary type or `tuple`.
pub open spec fn parsed(s: Seq<char>, components: Option<Seq<ParamEntryView>>) -> Result<
    TypeView,
    SchemaIssue,
>
    decreases components, s.len(), 1nat,
{
    if s.len() > 0 && s.last() == ']' {
        let open = last_open(s);
        if !(0 <= open < s.len() - 1) {
            Err(SchemaIssue::InvalidType)
        } else {
            let digits = s.subrange(open + 1, s.len() - 1);
            if digits.len() > 0 && !(all_digits(digits) && dec_value(digits) <= usize::MAX) {
                Err(SchemaIssue::InvalidType)
            } else {
                match parsed(s.subrange(0, open), components) {
                    Err(e) => Err(e),
                    Ok(t) => if digits.len() == 0 {
                        Ok(TypeView::Array(Box::new(t)))
                    } else {
                        Ok(TypeView::FixedArray(Box::new(t), dec_value(digits)))
                    },
                }
            }
        }
    } else {
        parsed_atom(s, components)
    }
}

/// The elementary type or tuple that the string `s` spells.
pub open spec fn parsed_atom(s: Seq<char>, components: Option<Seq<ParamEntryView>>) -> Result<
    TypeView,
    SchemaIssue,
>
    decreases components, s.len(), 0nat,
{
    if s == "address"@ {
        Ok(TypeView::Address)
    } else if s == "bool"@ {
        Ok(TypeView::Bool)
    } else if s == "string"@ {
        Ok(TypeView::String)
    } else if s == "bytes"@ {
        Ok(TypeView::Bytes)
    } else if s == "tuple"@ {
        match components {
            None => Err(SchemaIssue::MissingComponents),
            Some(cs) => match parsed_fields(cs, cs.len()) {
                Err(e) => Err(e),
                Ok(types) => Ok(TypeView::Tuple(Seq::new(cs.len(), |i: int| cs[i].name), types)),
            },
        }
    } else if sized(s, "uint"@) is Some {
        let bits = sized(s, "uint"@)->0;
        if valid_int_size(bits) {
            Ok(TypeView::Uint(bits))
        } else {
            Err(SchemaIssue::InvalidType)
        }
    } else if sized(s, "int"@) is Some {
        let bits = sized(s, "int"@)->0;
        if valid_int_size(bits) {
            Ok(TypeView::Int(bits))
        } else {
            Err(SchemaIssue::InvalidType)
        }
    } else if sized(s, "bytes"@) is Some {
        let n = sized(s, "bytes"@)->0;
        if valid_fixed_bytes_size(n) {
            Ok(TypeView::FixedBytes(n))
        } else {
            Err(SchemaIssue::InvalidType)
        }
    } else {
        Err(SchemaIssue::InvalidType)
    }
}

/// The types of the first `n` component descriptors of `cs`, or the first
/// error met from the left.
pub open spec fn parsed_fields(cs: Seq<ParamEntryView>, n: nat) -> Result<
    Seq<TypeView>,
    SchemaIssue,
>
    decreases cs, n, 0nat,
{
    if n == 0 || n > cs.len() {
        Ok(Seq::empty())
    } else {
        match parsed_fields(cs, (n - 1) as nat) {
            Err(e) => Err(e),
            Ok(types) => match parsed(cs[n - 1].type_, cs[n - 1].components) {
                Err(e) => Err(e),
                Ok(t) => Ok(types.push(t)),
            },
        }
    }
}

/// The parameter that the descriptor `e` describes.
pub open spec fn param_of(e: ParamEntryView) -> Result<ParamView, SchemaIssue> {
    match parsed(e.type_, e.components) {
        Err(issue) => Err(issue),
        Ok(t) => Ok(ParamView { name: e.name, type_: t, indexed: e.indexed }),
    }
}


impl Clone for Param {
    fn clone(&self) -> (r: Param)
        ensures
            r@ == self@,
    {
        Param { name: self.name.clone(), type_: copy_type(&self.type_), indexed: self.indexed }
    }
}

/// The model of a parsed type, or the error.
pub open spec fn type_result(r: Result<Type, SchemaIssue>) -> Result<TypeView, SchemaIssue> {
    match r {
        Ok(t) => Ok(t@),
        Err(e) => Err(e),
    }
}

/// The model of a parameter, or the error.
pub open spec fn param_result(r: Result<Param, SchemaIssue>) -> Result<ParamView, SchemaIssue> {
    match r {
        Ok(p) => Ok(p@),
        Err(e) => Err(e),
    }
}

/// The last `[` of `s` is a `[`, and no `[` stands behind it.
pub proof fn lemma_last_open_bounds(s: Seq<char>)
    ensures
        -1 <= last_open(s) < s.len(),
        last_open(s) >= 0 ==> s[last_open(s)] == '[',
        forall|k: int| last_open(s) < k < s.len() ==> s[k] != '[',
    decreases s.len(),
{
    if s.len() > 0 && s.last() != '[' {
        lemma_last_open_bounds(s.drop_last());
        assert forall|k: int| last_open(s) < k < s.len() implies s[k] != '[' by {
            if k < s.len() - 1 {
                assert(s.drop_last()[k] == s[k]);
            }
        }
    }
}

/// The last `[` of `s` stands at `open` where `s` has a `[` there and none
/// behind it.
pub proof fn lemma_last_open_at(s: Seq<char>, open: int)
    requires
        -1 <= open < s.len(),
        open >= 0 ==> s[open] == '[',
        forall|k: int| open < k < s.len() ==> s[k] != '[',
    ensures
        last_open(s) == open,
{
    lemma_last_open_bounds(s);
    let r = last_open(s);
    if r < open {
        assert(s[open] != '[');
    } else if r > open {
        assert(s[r] != '[');
    }
}

/// A numeral with one more digit spells no smaller a number.
pub proof fn lemma_dec_value_push(s: Seq<char>, c: char)
    ensures
        dec_value(s.push(c)) == dec_value(s) * 10 + digit_value(c),
        dec_value(s.push(c)) >= dec_value(s),
{
    assert(s.push(c).drop_last() =~= s);
    assert(s.push(c).last() == c);
}

/// An error met among the first `i` components is the error of parsing more
/// of them.
pub proof fn lemma_parsed_fields_err(cs: Seq<ParamEntryView>, i: nat, n: nat)
    requires
        i <= n <= cs.len(),
        parsed_fields(cs, i) is Err,
    ensures
        parsed_fields(cs, n) == parsed_fields(cs, i),
    decreases n,
{
    if i < n {
        lemma_parsed_fields_err(cs, i, (n - 1) as nat);
    }
}

/// Whether `c` is a decimal digit.
fn char_is_digit(c: char) -> (d: bool)
    ensures
        d == is_digit(c),
{
    let u: u32 = c as u32;
    48 <= u && u <= 57
}

/// Reads the characters `cs[from..to]` as a decimal numeral: `None` where
/// one of them is no digit, else the number, or `None` in its place where
/// the number does not fit a `usize`.
fn read_number(cs: &Vec<char>, from: usize, to: usize) -> (r: Option<Option<usize>>)
    requires
        from <= to <= cs.len(),
    ensures
        r is Some <==> all_digits(cs@.subrange(from as int, to as int)),
        r matches Some(Some(v)) ==> v == dec_value(cs@.subrange(from as int, to as int)),
        r matches Some(None) ==> dec_value(cs@.subrange(from as int, to as int)) > usize::MAX,
{
    let mut acc: Option<usize> = Some(0);
    let mut i: usize = from;
    assert(cs@.subrange(from as int, from as int) =~= Seq::<char>::empty());
    while i < to
        invariant
            from <= i <= to <= cs.len(),
            all_digits(cs@.subrange(from as int, i as int)),
            acc matches Some(v) ==> v == dec_value(cs@.subrange(from as int, i as int)),
            acc is None ==> dec_value(cs@.subrange(from as int, i as int)) > usize::MAX,
        decreases to - i,
    {
        let c: char = cs[i];
        let ghost before = cs@.subrange(from as int, i as int);
        let ghost after = cs@.subrange(from as int, i + 1);
        proof {
            assert(after =~= before.push(c));
            lemma_dec_value_push(before, c);
        }
        if !char_is_digit(c) {
            proof {
                let whole = cs@.subrange(from as int, to as int);
                assert(whole[i - from] == c);
            }
            return None;
        }
        let d: usize = (c as u32 - 48) as usize;
        acc = match acc {
            None => None,
            Some(v) => match v.checked_mul(10) {
                None => None,
                Some(m) => m.checked_add(d),
            },
        };
        assert forall|k: int| 0 <= k < after.len() implies is_digit(#[trigger] after[k]) by {
            if k < before.len() {
                assert(after[k] == before[k]);
            }
        }
        i += 1;
    }
    Some(acc)
}

/// Whether the characters `cs[..end]` start with the text `word`; with it,
/// how many characters `word` has.
fn starts_with(cs: &Vec<char>, end: usize, word: &str) -> (r: (bool, usize))
    requires
        end <= cs.len(),
    ensures
        r.0 == word@.is_prefix_of(cs@.subrange(0, end as int)),
        r.1 == word@.len(),
{
    let w = chars_of(word);
    let ghost s = cs@.subrange(0, end as int);
    if w.len() > end {
        return (false, w.len());
    }
    let mut i: usize = 0;
    while i < w.len()
        invariant
            i <= w.len() <= end <= cs.len(),
            w@ == word@,
            s == cs@.subrange(0, end as int),
            forall|k: int| 0 <= k < i ==> w@[k] == s[k],
        decreases w.len() - i,
    {
        if w[i] != cs[i] {
            assert(w@[i as int] != s[i as int]);
            assert(!(s.subrange(0, w@.len() as int) =~= w@));
            return (false, w.len());
        }
        i += 1;
    }
    assert(s.subrange(0, w@.len() as int) =~= w@);
    (true, w.len())
}

/// Whether the characters `cs[..end]` are the text `word`.
fn text_is(cs: &Vec<char>, end: usize, word: &str) -> (same: bool)
    requires
        end <= cs.len(),
    ensures
        same == (cs@.subrange(0, end as int) == word@),
{
    let (prefix, len) = starts_with(cs, end, word);
    let ghost s = cs@.subrange(0, end as int);
    proof {
        if prefix && len == end {
            assert(s.subrange(0, end as int) =~= s);
        }
    }
    prefix && len == end
}

/// Reads the characters `cs[..end]` as the text `word` followed by a
/// decimal numeral.
fn read_sized(cs: &Vec<char>, end: usize, word: &str) -> (r: Option<Option<usize>>)
    requires
        end <= cs.len(),
    ensures
        r is Some <==> sized(cs@.subrange(0, end as int), word@) is Some,
        r matches Some(Some(v)) ==> sized(cs@.subrange(0, end as int), word@) == Some(v as nat),
        r matches Some(None) ==> sized(cs@.subrange(0, end as int), word@)->0 > usize::MAX,
{
    let (prefix, len) = starts_with(cs, end, word);
    if !prefix || len >= end {
        return None;
    }
    assert(cs@.subrange(0, end as int).skip(len as int) =~= cs@.subrange(len as int, end as int));
    read_number(cs, len, end)
}

/// Parses the characters `cs[..end]` as a type string.
pub(crate) fn parse_prefix(cs: &Vec<char>, end: usize, components: &Option<Vec<ParamEntry>>) -> (r:
    Result<Type, SchemaIssue>)
    requires
        end <= cs.len(),
    ensures
        type_result(r) == parsed(cs@.subrange(0, end as int), entries_model(components)),
    decreases components, end,
{
    let ghost s = cs@.subrange(0, end as int);
    let ghost cv = entries_model(components);
    assert(s.len() == end);
    assert(end > 0 ==> s.last() == cs@[end - 1]);
    if end > 0 && cs[end - 1] == ']' {
        // the last `[` before the closing bracket
        let mut j: usize = end - 1;
        while j > 0 && cs[j - 1] != '['
            invariant
                j <= end - 1,
                end <= cs.len(),
                cs@[end - 1] == ']',
                forall|k: int| j <= k < end ==> cs@[k] != '[',
            decreases j,
        {
            j -= 1;
        }
        proof {
            lemma_last_open_at(s, j - 1);
        }
        if j == 0 {
            return Err(SchemaIssue::InvalidType);
        }
        let open: usize = j - 1;
        assert(s.subrange(open + 1, end - 1) =~= cs@.subrange(open + 1, end - 1));
        assert(s.subrange(0, open as int) =~= cs@.subrange(0, open as int));
        let size = match read_number(cs, open + 1, end - 1) {
            None => {
                return Err(SchemaIssue::InvalidType);
            },
            Some(size) => size,
        };
        let dynamic = open + 1 == end - 1;
        if !dynamic && size.is_none() {
            return Err(SchemaIssue::InvalidType);
        }
        match parse_prefix(cs, open, components) {
            Err(e) => Err(e),
            Ok(elem) => {
                if dynamic {
                    Ok(Type::Array(Box::new(elem)))
                } else {
                    match size {
                        None => Err(SchemaIssue::InvalidType),
                        Some(n) => Ok(Type::FixedArray(Box::new(elem), n)),
                    }
                }
            },
        }
    } else if text_is(cs, end, "address") {
        Ok(Type::Address)
    } else if text_is(cs, end, "bool") {
        Ok(Type::Bool)
    } else if text_is(cs, end, "string") {
        Ok(Type::String)
    } else if text_is(cs, end, "bytes") {
        Ok(Type::Bytes)
    } else if text_is(cs, end, "tuple") {
        match components {
            None => Err(SchemaIssue::MissingComponents),
            Some(entries) => {
                let ghost ev = cv->0;
                let ghost whole = parsed(s, cv);
                assert(whole == match parsed_fields(ev, ev.len()) {
                    Err(e) => Err::<TypeView, SchemaIssue>(e),
                    Ok(types) => Ok(
                        TypeView::Tuple(Seq::new(ev.len(), |k: int| ev[k].name), types),
                    ),
                });
                let mut fields: Vec<(String, Type)> = Vec::new();
                let mut i: usize = 0;
                while i < entries.len()
                    invariant
                        i <= entries.len(),
                        whole == parsed(cs@.subrange(0, end as int), entries_model(components)),
                        whole == match parsed_fields(ev, ev.len()) {
                            Err(e) => Err::<TypeView, SchemaIssue>(e),
                            Ok(types) => Ok(
                                TypeView::Tuple(Seq::new(ev.len(), |k: int| ev[k].name), types),
                            ),
                        },
                        components is Some,
                        components->0 == *entries,
                        cv == entries_model(components),
                        ev == cv->0,
                        ev.len() == entries.len(),
                        fields.len() == i,
                        parsed_fields(ev, i as nat) is Ok,
                        parsed_fields(ev, i as nat)->Ok_0.len() == i,
                        forall|k: int|
                            0 <= k < i ==> (#[trigger] fields[k]).0@ == ev[k].name,
                        forall|k: int|
                            0 <= k < i ==> (#[trigger] fields[k]).1@ == parsed_fields(
                                ev,
                                i as nat,
                            )->Ok_0[k],
                    decreases entries.len() - i,
                {
                    proof {
                        vstd::std_specs::vec::axiom_vec_index_decreases(*entries, i as int);
                        assert(ev[i as int] == entries[i as int]@);
                    }
                    let entry = &entries[i];
                    let text = chars_of(entry.type_.as_str());
                    assert(text@.subrange(0, text.len() as int) =~= text@);
                    let ghost before = parsed_fields(ev, i as nat)->Ok_0;
                    match parse_prefix(&text, text.len(), &entry.components) {
                        Err(e) => {
                            proof {
                                assert(parsed_fields(ev, (i + 1) as nat) == Err::<
                                    Seq<TypeView>,
                                    SchemaIssue,
                                >(e));
                                lemma_parsed_fields_err(ev, (i + 1) as nat, ev.len());
                            }
                            return Err(e);
                        },
                        Ok(t) => {
                            assert(parsed_fields(ev, (i + 1) as nat)->Ok_0 == before.push(t@));
                            fields.push((entry.name.clone(), t));
                        },
                    }
                    i += 1;
                }
                let t = Type::Tuple(fields);
                proof {
                    let types = parsed_fields(ev, ev.len())->Ok_0;
                    assert(t@->Tuple_0 =~= Seq::new(ev.len(), |k: int| ev[k].name));
                    assert(t@->Tuple_1 =~= types);
                }
                Ok(t)
            },
        }
    } else {
        assert(parsed(s, cv) == parsed_atom(s, cv));
        assert(s != "address"@ && s != "bool"@ && s != "string"@ && s != "bytes"@ && s != "tuple"@);
        match read_sized(cs, end, "uint") {
            Some(size) => {
                assert(sized(s, "uint"@) is Some);
                assert(parsed_atom(s, cv) == if valid_int_size(sized(s, "uint"@)->0) {
                    Ok::<TypeView, SchemaIssue>(TypeView::Uint(sized(s, "uint"@)->0))
                } else {
                    Err::<TypeView, SchemaIssue>(SchemaIssue::InvalidType)
                });
                return match size {
                    None => Err(SchemaIssue::InvalidType),
                    Some(bits) => if check_int_size(&bits) {
                        Ok(Type::Uint(bits))
                    } else {
                        Err(SchemaIssue::InvalidType)
                    },
                };
            },
            None => {},
        }
        match read_sized(cs, end, "int") {
            Some(size) => {
                return match size {
                    None => Err(SchemaIssue::InvalidType),
                    Some(bits) => if check_int_size(&bits) {
                        Ok(Type::Int(bits))
                    } else {
                        Err(SchemaIssue::InvalidType)
                    },
                };
            },
            None => {},
        }
        match read_sized(cs, end, "bytes") {
            Some(size) => {
                return match size {
                    None => Err(SchemaIssue::InvalidType),
                    Some(n) => if check_fixed_bytes_size(&n) {
                        Ok(Type::FixedBytes(n))
                    } else {
                        Err(SchemaIssue::InvalidType)
                    },
                };
            },
            None => {},
        }
        Err(SchemaIssue::InvalidType)
    }
}

/// Parses the type string `text`, with the component descriptors that a
/// tuple in it takes its fields from.
pub fn parse_type(text: &str, components: &Option<Vec<ParamEntry>>) -> (r: Result<
    Type,
    SchemaIssue,
>)
    ensures
        type_result(r) == parsed(text@, entries_model(components)),
{
    let cs = chars_of(text);
    assert(cs@.subrange(0, cs.len() as int) =~= cs@);
    parse_prefix(&cs, cs.len(), components)
}

impl Param {
    /// The parameter that the descriptor `entry` describes.
    pub fn from_entry(entry: &ParamEntry) -> (r: Result<Param, SchemaIssue>)
        ensures
            param_result(r) == param_of(entry@),
    {
        match parse_type(entry.type_.as_str(), &entry.components) {
            Err(issue) => Err(issue),
            Ok(t) => Ok(Param { name: entry.name.clone(), type_: t, indexed: entry.indexed }),
        }
    }
}

impl TypeView {
    /// The type string of the type, as the descriptor of a parameter holds
    /// it: a tuple is `tuple`, and its fields stand in the components.
    pub open spec fn type_text(self) -> Seq<char>
        decreases self,
    {
        match self {
            TypeView::Uint(bits) => "uint"@ + dec_digits(bits),
            TypeView::Int(bits) => "int"@ + dec_digits(bits),
            TypeView::Address => "address"@,
            TypeView::Bool => "bool"@,
            TypeView::FixedBytes(n) => "bytes"@ + dec_digits(n),
            TypeView::FixedArray(elem, n) => elem.type_text() + "["@ + dec_digits(n) + "]"@,
            TypeView::String => "string"@,
            TypeView::Bytes => "bytes"@,
            TypeView::Array(elem) => elem.type_text() + "[]"@,
            TypeView::Tuple(_, _) => "tuple"@,
        }
    }

    /// The component descriptors of the type: those of the fields of the
    /// tuple that the type is, or is an array of; none for any other type.
    pub open spec fn components(self) -> Option<Seq<ParamEntryView>>
        decreases self,
    {
        match self {
            TypeView::FixedArray(elem, _) => elem.components(),
            TypeView::Array(elem) => elem.components(),
            TypeView::Tuple(names, types) => Some(
                Seq::new(
                    types.len(),
                    |i: int|
                        ParamEntryView {
                            name: names[i],
                            type_: if 0 <= i < types.len() {
                                types[i].type_text()
                            } else {
                                Seq::empty()
                            },
                            indexed: None,
                            components: if 0 <= i < types.len() {
                                types[i].components()
                            } else {
                                None
                            },
                        },
                ),
            ),
            _ => None,
        }
    }
}

/// The descriptor of the parameter `p`.
pub open spec fn entry_of(p: ParamView) -> ParamEntryView {
    ParamEntryView {
        name: p.name,
        type_: p.type_.type_text(),
        indexed: p.indexed,
        components: p.type_.components(),
    }
}

impl Type {
    /// The type string of the type, as the descriptor of a parameter holds
    /// it.
    pub fn type_text(&self) -> (s: String)
        ensures
            s@ == self@.type_text(),
    {
        let mut out = String::new();
        self.write_type_text(&mut out);
        out
    }

    /// Appends the type string of the type to `out`.
    pub fn write_type_text(&self, out: &mut String)
        ensures
            final(out)@ == old(out)@ + self@.type_text(),
        decreases self,
    {
        match self {
            Type::Uint(bits) => {
                out.append("uint");
                push_decimal(out, *bits);
            },
            Type::Int(bits) => {
                out.append("int");
                push_decimal(out, *bits);
            },
            Type::Address => {
                out.append("address");
            },
            Type::Bool => {
                out.append("bool");
            },
            Type::FixedBytes(n) => {
                out.append("bytes");
                push_decimal(out, *n);
            },
            Type::FixedArray(elem, n) => {
                elem.write_type_text(out);
                out.append("[");
                push_decimal(out, *n);
                out.append("]");
            },
            Type::String => {
                out.append("string");
            },
            Type::Bytes => {
                out.append("bytes");
            },
            Type::Array(elem) => {
                elem.write_type_text(out);
                out.append("[]");
            },
            Type::Tuple(_) => {
                out.append("tuple");
            },
        }
    }

    /// The component descriptors of the type.
    pub fn components(&self) -> (c: Option<Vec<ParamEntry>>)
        ensures
            entries_model(&c) == self@.components(),
        decreases self,
    {
        match self {
            Type::FixedArray(elem, _) => elem.components(),
            Type::Array(elem) => elem.components(),
            Type::Tuple(fields) => {
                let ghost want = self@.components()->0;
                let mut entries: Vec<ParamEntry> = Vec::new();
                let mut i: usize = 0;
                while i < fields.len()
                    invariant
                        i <= fields.len(),
                        self is Tuple,
                        self->Tuple_0 == *fields,
                        self@.components() is Some,
                        want == self@.components()->0,
                        want.len() == fields.len(),
                        entries.len() == i,
                        forall|k: int| 0 <= k < i ==> (#[trigger] entries[k])@ == want[k],
                    decreases fields.len() - i,
                {
                    proof {
                        vstd::std_specs::vec::axiom_vec_index_decreases(*fields, i as int);
                    }
                    let field = &fields[i];
                    let entry = ParamEntry {
                        name: field.0.clone(),
                        type_: field.1.type_text(),
                        indexed: None,
                        components: field.1.components(),
                    };
                    assert(entry@ == want[i as int]);
                    entries.push(entry);
                    i += 1;
                }
                let c = Some(entries);
                assert(entries_model(&c)->0 =~= want);
                c
            },
            _ => None,
        }
    }
}

impl Param {
    /// The descriptor of the parameter.
    pub fn to_entry(&self) -> (e: ParamEntry)
        ensures
            e@ == entry_of(self@),
    {
        ParamEntry {
            name: self.name.clone(),
            type_: self.type_.type_text(),
            indexed: self.indexed,
            components: self.type_.components(),
        }
    }
}

} // verus!
