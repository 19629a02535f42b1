//! The parameters of a call or a log, each with the value decoded for it.

use crate::params::{Param, ParamView};
use crate::text::same_text;
use crate::values::{Value, ValueView};
use vstd::prelude::*;

verus! {

/// Parameters with their decoded values, in the order of declaration.
#[derive(Debug, PartialEq, Eq)]
pub struct DecodedParams {
    pub items: Vec<(Param, Value)>,
}

impl View for DecodedParams {
    type V = Seq<(ParamView, ValueView)>;

    open spec fn view(&self) -> Seq<(ParamView, ValueView)> {
        Seq::new(self.items.len() as nat, |i: int| (self.items[i].0@, self.items[i].1@))
    }
}

/// The parameters `params`, each with the value of `values` at its place.
pub open spec fn paired(params: Seq<ParamView>, values: Seq<ValueView>) -> Seq<
    (ParamView, ValueView),
> {
    Seq::new(params.len(), |i: int| (params[i], values[i]))
}

/// The place of the first of the first `n` pairs whose parameter is named
/// `name`.
pub open spec fn first_named(items: Seq<(ParamView, ValueView)>, name: Seq<char>, n: nat) -> Option<
    int,
>
    decreases n,
{
    if n == 0 || n > items.len() {
        None
    } else {
        let before = first_named(items, name, (n - 1) as nat);
        if before is Some {
            before
        } else if items[n - 1].0.name == name {
            Some(n - 1)
        } else {
            None
        }
    }
}

/// Once a parameter among the first `i` has the name, the first with that
/// name among more parameters is the same.
pub proof fn lemma_first_named_stable(
    items: Seq<(ParamView, ValueView)>,
    name: Seq<char>,
    i: nat,
    n: nat,
)
    requires
        i <= n <= items.len(),
        first_named(items, name, i) is Some,
    ensures
        first_named(items, name, n) == first_named(items, name, i),
    decreases n,
{
    if i < n {
        lemma_first_named_stable(items, name, i, (n - 1) as nat);
    }
}

impl DecodedParams {
    /// The pairs `items` as decoded parameters.
    pub fn from(items: Vec<(Param, Value)>) -> (d: DecodedParams)
        ensures
            d.items == items,
    {
        DecodedParams { items }
    }

    /// How many parameters there are.
    pub fn len(&self) -> (n: usize)
        ensures
            n == self@.len(),
    {
        self.items.len()
    }

    /// Whether there is no parameter.
    pub fn is_empty(&self) -> (e: bool)
        ensures
            e == (self@.len() == 0),
    {
        self.items.len() == 0
    }

    /// The parameter at place `index` with its value.
    pub fn get(&self, index: usize) -> (r: Option<&(Param, Value)>)
        ensures
            match r {
                Some(item) => index < self@.len() && (item.0@, item.1@) == self@[index as int],
                None => index >= self@.len(),
            },
    {
        if index < self.items.len() {
            Some(&self.items[index])
        } else {
            None
        }
    }

    /// The value of the first parameter named `name`. A parameter without
    /// a name is reached by its place only: for the empty name there is no
    /// value.
    pub fn get_by_name(&self, name: &str) -> (r: Option<&Value>)
        ensures
            match r {
                Some(v) => name@.len() > 0 && first_named(self@, name@, self@.len()) is Some
                    && v@ == self@[first_named(self@, name@, self@.len())->0].1,
                None => name@.len() == 0 || first_named(self@, name@, self@.len()) is None,
            },
    {
        if name.unicode_len() == 0 {
            return None;
        }
        let mut i: usize = 0;
        while i < self.items.len()
            invariant
                i <= self.items.len(),
                name@.len() > 0,
                first_named(self@, name@, i as nat) is None,
            decreases self.items.len() - i,
        {
            if same_text(self.items[i].0.name.as_str(), name) {
                proof {
                    lemma_first_named_stable(self@, name@, (i + 1) as nat, self@.len());
                }
                return Some(&self.items[i].1);
            }
            i += 1;
        }
        None
    }
}

} // verus!
