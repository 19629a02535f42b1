//! A schema as a document holds it: a list of entries, each with a `type`
//! that says whether it is the constructor, a function, an event, an
//! error, or the receive or fallback method.

use crate::abi::{
    copy_params, event_views, function_views, params_view, Abi, Constructor, Error, Event,
    EventView, Function, FunctionView, StateMutability,
};
use crate::errors::{AbiError, SchemaIssue};
use crate::params::{
    entries_model, entry_of, param_of, Param, ParamEntry, ParamEntryView, ParamView,
};
use crate::text::same_text;
use vstd::prelude::*;
use vstd::string::*;

verus! {

/// One entry of a schema document. Which fields an entry needs depends on
/// its `type`.
#[derive(Debug, PartialEq, Eq)]
pub struct AbiEntry {
    pub type_: String,
    pub name: Option<String>,
    pub inputs: Option<Vec<ParamEntry>>,
    pub outputs: Option<Vec<ParamEntry>>,
    pub state_mutability: Option<String>,
    pub anonymous: Option<bool>,
}

/// The mathematical model of an [`AbiEntry`].
pub struct AbiEntryView {
    pub type_: Seq<char>,
    pub name: Option<Seq<char>>,
    pub inputs: Option<Seq<ParamEntryView>>,
    pub outputs: Option<Seq<ParamEntryView>>,
    pub state_mutability: Option<Seq<char>>,
    pub anonymous: Option<bool>,
}

/// The model of a text that may be missing.
pub open spec fn text_model(text: Option<String>) -> Option<Seq<char>> {
    match text {
        None => None,
        Some(s) => Some(s@),
    }
}

impl View for AbiEntry {
    type V = AbiEntryView;

    open spec fn view(&self) -> AbiEntryView {
        AbiEntryView {
            type_: self.type_@,
            name: text_model(self.name),
            inputs: entries_model(&self.inputs),
            outputs: entries_model(&self.outputs),
            state_mutability: text_model(self.state_mutability),
            anonymous: self.anonymous,
        }
    }
}

/// The models of the entries `entries`, in order.
pub open spec fn entry_views(entries: Seq<AbiEntry>) -> Seq<AbiEntryView> {
    Seq::new(entries.len(), |i: int| entries[i]@)
}

/// The mathematical model of a [`Constructor`].
pub struct ConstructorView {
    pub inputs: Seq<ParamView>,
    pub state_mutability: StateMutability,
}

/// The mathematical model of an [`Error`].
pub struct ErrorView {
    pub name: Seq<char>,
    pub inputs: Seq<ParamView>,
}

/// The mathematical model of an [`Abi`].
pub struct AbiView {
    pub constructor: Option<ConstructorView>,
    pub functions: Seq<FunctionView>,
    pub events: Seq<EventView>,
    pub errors: Seq<ErrorView>,
    pub has_receive: bool,
    pub has_fallback: bool,
}

impl View for Constructor {
    type V = ConstructorView;

    open spec fn view(&self) -> ConstructorView {
        ConstructorView {
            inputs: params_view(self.inputs@),
            state_mutability: self.state_mutability,
        }
    }
}

impl View for Error {
    type V = ErrorView;

    open spec fn view(&self) -> ErrorView {
        ErrorView { name: self.name@, inputs: params_view(self.inputs@) }
    }
}

/// The models of the errors `errors`, in order.
pub open spec fn error_views(errors: Seq<Error>) -> Seq<ErrorView> {
    Seq::new(errors.len(), |i: int| errors[i]@)
}

impl View for Abi {
    type V = AbiView;

    open spec fn view(&self) -> AbiView {
        AbiView {
            constructor: match self.constructor {
                None => None,
                Some(c) => Some(c@),
            },
            functions: function_views(self.functions@),
            events: event_views(self.events@),
            errors: error_views(self.errors@),
            has_receive: self.has_receive,
            has_fallback: self.has_fallback,
        }
    }
}

impl Clone for Constructor {
    fn clone(&self) -> (r: Constructor)
        ensures
            r@ == self@,
    {
        Constructor {
            inputs: copy_params(&self.inputs),
            state_mutability: self.state_mutability,
        }
    }
}

impl Clone for Error {
    fn clone(&self) -> (r: Error)
        ensures
            r@ == self@,
    {
        Error { name: self.name.clone(), inputs: copy_params(&self.inputs) }
    }
}

impl Clone for Abi {
    fn clone(&self) -> (r: Abi)
        ensures
            r@ == self@,
    {
        let constructor = match &self.constructor {
            None => None,
            Some(c) => Some(c.clone()),
        };
        let mut functions: Vec<Function> = Vec::new();
        let mut i: usize = 0;
        while i < self.functions.len()
            invariant
                i <= self.functions.len(),
                functions.len() == i,
                forall|j: int| 0 <= j < i ==> (#[trigger] functions[j])@ == self.functions[j]@,
            decreases self.functions.len() - i,
        {
            functions.push(self.functions[i].clone());
            i += 1;
        }
        let mut events: Vec<Event> = Vec::new();
        let mut i: usize = 0;
        while i < self.events.len()
            invariant
                i <= self.events.len(),
                events.len() == i,
                forall|j: int| 0 <= j < i ==> (#[trigger] events[j])@ == self.events[j]@,
            decreases self.events.len() - i,
        {
            events.push(self.events[i].clone());
            i += 1;
        }
        let mut errors: Vec<Error> = Vec::new();
        let mut i: usize = 0;
        while i < self.errors.len()
            invariant
                i <= self.errors.len(),
                errors.len() == i,
                forall|j: int| 0 <= j < i ==> (#[trigger] errors[j])@ == self.errors[j]@,
            decreases self.errors.len() - i,
        {
            errors.push(self.errors[i].clone());
            i += 1;
        }
        let r = Abi {
            constructor,
            functions,
            events,
            errors,
            has_receive: self.has_receive,
            has_fallback: self.has_fallback,
        };
        assert(r@.functions =~= self@.functions);
        assert(r@.events =~= self@.events);
        assert(r@.errors =~= self@.errors);
        r
    }
}

/// The schema without any entry.
pub open spec fn empty_abi() -> AbiView {
    AbiView {
        constructor: None,
        functions: Seq::empty(),
        events: Seq::empty(),
        errors: Seq::empty(),
        has_receive: false,
        has_fallback: false,
    }
}

/// The state mutability that the text `s` names.
pub open spec fn mutability_named(s: Seq<char>) -> Option<StateMutability> {
    if s == "pure"@ {
        Some(StateMutability::Pure)
    } else if s == "view"@ {
        Some(StateMutability::View)
    } else if s == "nonpayable"@ {
        Some(StateMutability::NonPayable)
    } else if s == "payable"@ {
        Some(StateMutability::Payable)
    } else {
        None
    }
}

/// The name of the state mutability `m`.
pub open spec fn mutability_name(m: StateMutability) -> Seq<char> {
    match m {
        StateMutability::Pure => "pure"@,
        StateMutability::View => "view"@,
        StateMutability::NonPayable => "nonpayable"@,
        StateMutability::Payable => "payable"@,
    }
}

/// The state mutability of an entry that must have one.
pub open spec fn mutability_of(field: Option<Seq<char>>) -> Result<StateMutability, SchemaIssue> {
    match field {
        None => Err(SchemaIssue::MissingStateMutability),
        Some(s) => match mutability_named(s) {
            None => Err(SchemaIssue::InvalidStateMutability),
            Some(m) => Ok(m),
        },
    }
}

/// The parameters that the first `n` descriptors of `entries` describe, or
/// the first error met from the left.
pub open spec fn params_list(entries: Seq<ParamEntryView>, n: nat) -> Result<
    Seq<ParamView>,
    SchemaIssue,
>
    decreases n,
{
    if n == 0 || n > entries.len() {
        Ok(Seq::empty())
    } else {
        match params_list(entries, (n - 1) as nat) {
            Err(e) => Err(e),
            Ok(before) => match param_of(entries[n - 1]) {
                Err(e) => Err(e),
                Ok(p) => Ok(before.push(p)),
            },
        }
    }
}

/// The parameters of an entry: none where the entry has no list of them.
pub open spec fn params_of(field: Option<Seq<ParamEntryView>>) -> Result<
    Seq<ParamView>,
    SchemaIssue,
> {
    match field {
        None => Ok(Seq::empty()),
        Some(entries) => params_list(entries, entries.len()),
    }
}

/// The schema `abi` with the entry `e` taken in.
///
/// `receive` and `fallback` set their flag and nothing else of them is
/// read. A constructor needs a state mutability; a function a state
/// mutability and a name; an event a name and its `anonymous` flag; an
/// error a name. A list of parameters that is missing is empty. A later
/// constructor replaces an earlier one.
pub open spec fn with_entry(abi: AbiView, e: AbiEntryView) -> Result<AbiView, SchemaIssue> {
    if e.type_ == "receive"@ {
        Ok(AbiView { has_receive: true, ..abi })
    } else if e.type_ == "fallback"@ {
        Ok(AbiView { has_fallback: true, ..abi })
    } else if e.type_ == "constructor"@ {
        match params_of(e.inputs) {
            Err(issue) => Err(issue),
            Ok(inputs) => match mutability_of(e.state_mutability) {
                Err(issue) => Err(issue),
                Ok(m) => Ok(
                    AbiView {
                        constructor: Some(ConstructorView { inputs, state_mutability: m }),
                        ..abi
                    },
                ),
            },
        }
    } else if e.type_ == "function"@ {
        match params_of(e.inputs) {
            Err(issue) => Err(issue),
            Ok(inputs) => match params_of(e.outputs) {
                Err(issue) => Err(issue),
                Ok(outputs) => match mutability_of(e.state_mutability) {
                    Err(issue) => Err(issue),
                    Ok(m) => match e.name {
                        None => Err(SchemaIssue::MissingName),
                        Some(name) => Ok(
                            AbiView {
                                functions: abi.functions.push(
                                    FunctionView { name, inputs, outputs, state_mutability: m },
                                ),
                                ..abi
                            },
                        ),
                    },
                },
            },
        }
    } else if e.type_ == "event"@ {
        match params_of(e.inputs) {
            Err(issue) => Err(issue),
            Ok(inputs) => match e.name {
                None => Err(SchemaIssue::MissingName),
                Some(name) => match e.anonymous {
                    None => Err(SchemaIssue::MissingAnonymous),
                    Some(anonymous) => Ok(
                        AbiView {
                            events: abi.events.push(EventView { name, inputs, anonymous }),
                            ..abi
                        },
                    ),
                },
            },
        }
    } else if e.type_ == "error"@ {
        match params_of(e.inputs) {
            Err(issue) => Err(issue),
            Ok(inputs) => match e.name {
                None => Err(SchemaIssue::MissingName),
                Some(name) => Ok(
                    AbiView { errors: abi.errors.push(ErrorView { name, inputs }), ..abi },
                ),
            },
        }
    } else {
        Err(SchemaIssue::UnknownEntryType)
    }
}

/// The schema that the first `n` entries of `entries` make up, or the
/// first error met from the left, with the place of its entry.
pub open spec fn built(entries: Seq<AbiEntryView>, n: nat) -> Result<AbiView, AbiError>
    decreases n,
{
    if n == 0 || n > entries.len() {
        Ok(empty_abi())
    } else {
        match built(entries, (n - 1) as nat) {
            Err(e) => Err(e),
            Ok(abi) => match with_entry(abi, entries[n - 1]) {
                Err(issue) => Err(AbiError::Schema { entry: (n - 1) as usize, issue }),
                Ok(next) => Ok(next),
            },
        }
    }
}

/// The model of a schema, or the error.
pub open spec fn abi_result(r: Result<Abi, AbiError>) -> Result<AbiView, AbiError> {
    match r {
        Ok(abi) => Ok(abi@),
        Err(e) => Err(e),
    }
}

/// An error met among the first `i` descriptors is the error of reading more
/// of them.
pub proof fn lemma_params_list_err(entries: Seq<ParamEntryView>, i: nat, n: nat)
    requires
        i <= n <= entries.len(),
        params_list(entries, i) is Err,
    ensures
        params_list(entries, n) == params_list(entries, i),
    decreases n,
{
    if i < n {
        lemma_params_list_err(entries, i, (n - 1) as nat);
    }
}

/// An error met among the first `i` entries is the error of reading more of
/// them.
pub proof fn lemma_built_err(entries: Seq<AbiEntryView>, i: nat, n: nat)
    requires
        i <= n <= entries.len(),
        built(entries, i) is Err,
    ensures
        built(entries, n) == built(entries, i),
    decreases n,
{
    if i < n {
        lemma_built_err(entries, i, (n - 1) as nat);
    }
}

impl StateMutability {
    /// The state mutability that `text` names.
    pub fn from_name(text: &str) -> (r: Option<StateMutability>)
        ensures
            r == mutability_named(text@),
    {
        if same_text(text, "pure") {
            Some(StateMutability::Pure)
        } else if same_text(text, "view") {
            Some(StateMutability::View)
        } else if same_text(text, "nonpayable") {
            Some(StateMutability::NonPayable)
        } else if same_text(text, "payable") {
            Some(StateMutability::Payable)
        } else {
            None
        }
    }

    /// The name of the state mutability.
    pub fn name(&self) -> (s: &'static str)
        ensures
            s@ == mutability_name(*self),
    {
        match self {
            StateMutability::Pure => "pure",
            StateMutability::View => "view",
            StateMutability::NonPayable => "nonpayable",
            StateMutability::Payable => "payable",
        }
    }
}

/// The parameters that the descriptors of an entry describe.
pub fn params_from(field: &Option<Vec<ParamEntry>>) -> (r: Result<Vec<Param>, SchemaIssue>)
    ensures
        match r {
            Ok(params) => params_of(entries_model(field)) == Ok::<Seq<ParamView>, SchemaIssue>(
                params_view(params@),
            ),
            Err(e) => params_of(entries_model(field)) == Err::<Seq<ParamView>, SchemaIssue>(e),
        },
{
    match field {
        None => {
            let params: Vec<Param> = Vec::new();
            assert(params_view(params@) =~= Seq::<ParamView>::empty());
            Ok(params)
        },
        Some(entries) => {
            let ghost ev = entries_model(field)->0;
            let mut params: Vec<Param> = Vec::new();
            let mut i: usize = 0;
            assert(params_view(params@) =~= Seq::<ParamView>::empty());
            while i < entries.len()
                invariant
                    i <= entries.len(),
                    field is Some,
                    field->0 == *entries,
                    ev == entries_model(field)->0,
                    ev.len() == entries.len(),
                    params_list(ev, i as nat) == Ok::<Seq<ParamView>, SchemaIssue>(
                        params_view(params@),
                    ),
                decreases entries.len() - i,
            {
                assert(ev[i as int] == entries[i as int]@);
                let ghost before = params_view(params@);
                match Param::from_entry(&entries[i]) {
                    Err(e) => {
                        proof {
                            lemma_params_list_err(ev, (i + 1) as nat, ev.len());
                        }
                        return Err(e);
                    },
                    Ok(p) => {
                        params.push(p);
                        assert(params_view(params@) =~= before.push(p@));
                    },
                }
                i += 1;
            }
            Ok(params)
        },
    }
}

/// The state mutability of an entry that must have one.
fn mutability_from(field: &Option<String>) -> (r: Result<StateMutability, SchemaIssue>)
    ensures
        r == mutability_of(text_model(*field)),
{
    match field {
        None => Err(SchemaIssue::MissingStateMutability),
        Some(s) => match StateMutability::from_name(s.as_str()) {
            None => Err(SchemaIssue::InvalidStateMutability),
            Some(m) => Ok(m),
        },
    }
}

/// Takes one entry into the schema.
fn take_entry(abi: &mut Abi, e: &AbiEntry) -> (r: Result<(), SchemaIssue>)
    ensures
        match r {
            Ok(()) => with_entry(old(abi)@, e@) == Ok::<AbiView, SchemaIssue>(final(abi)@),
            Err(issue) => with_entry(old(abi)@, e@) == Err::<AbiView, SchemaIssue>(issue),
        },
{
    let kind = e.type_.as_str();
    if same_text(kind, "receive") {
        abi.has_receive = true;
        Ok(())
    } else if same_text(kind, "fallback") {
        abi.has_fallback = true;
        Ok(())
    } else if same_text(kind, "constructor") {
        let inputs = match params_from(&e.inputs) {
            Err(issue) => {
                return Err(issue);
            },
            Ok(inputs) => inputs,
        };
        let state_mutability = match mutability_from(&e.state_mutability) {
            Err(issue) => {
                return Err(issue);
            },
            Ok(m) => m,
        };
        abi.constructor = Some(Constructor { inputs, state_mutability });
        Ok(())
    } else if same_text(kind, "function") {
        let inputs = match params_from(&e.inputs) {
            Err(issue) => {
                return Err(issue);
            },
            Ok(inputs) => inputs,
        };
        let outputs = match params_from(&e.outputs) {
            Err(issue) => {
                return Err(issue);
            },
            Ok(outputs) => outputs,
        };
        let state_mutability = match mutability_from(&e.state_mutability) {
            Err(issue) => {
                return Err(issue);
            },
            Ok(m) => m,
        };
        let name = match &e.name {
            None => {
                return Err(SchemaIssue::MissingName);
            },
            Some(name) => name.clone(),
        };
        let ghost before = function_views(abi.functions@);
        let f = Function { name, inputs, outputs, state_mutability };
        abi.functions.push(f);
        assert(function_views(abi.functions@) =~= before.push(f@));
        Ok(())
    } else if same_text(kind, "event") {
        let inputs = match params_from(&e.inputs) {
            Err(issue) => {
                return Err(issue);
            },
            Ok(inputs) => inputs,
        };
        let name = match &e.name {
            None => {
                return Err(SchemaIssue::MissingName);
            },
            Some(name) => name.clone(),
        };
        let anonymous = match e.anonymous {
            None => {
                return Err(SchemaIssue::MissingAnonymous);
            },
            Some(flag) => flag,
        };
        let ghost before = event_views(abi.events@);
        let ev = Event { name, inputs, anonymous };
        abi.events.push(ev);
        assert(event_views(abi.events@) =~= before.push(ev@));
        Ok(())
    } else if same_text(kind, "error") {
        let inputs = match params_from(&e.inputs) {
            Err(issue) => {
                return Err(issue);
            },
            Ok(inputs) => inputs,
        };
        let name = match &e.name {
            None => {
                return Err(SchemaIssue::MissingName);
            },
            Some(name) => name.clone(),
        };
        let ghost before = error_views(abi.errors@);
        let er = Error { name, inputs };
        abi.errors.push(er);
        assert(error_views(abi.errors@) =~= before.push(er@));
        Ok(())
    } else {
        Err(SchemaIssue::UnknownEntryType)
    }
}

impl Abi {
    /// The schema without any entry.
    pub fn new() -> (abi: Abi)
        ensures
            abi@ == empty_abi(),
    {
        let abi = Abi {
            constructor: None,
            functions: Vec::new(),
            events: Vec::new(),
            errors: Vec::new(),
            has_receive: false,
            has_fallback: false,
        };
        assert(abi@.functions =~= Seq::<FunctionView>::empty());
        assert(abi@.events =~= Seq::<EventView>::empty());
        assert(abi@.errors =~= Seq::<ErrorView>::empty());
        abi
    }

    /// The schema that the entries of a document make up.
    pub fn from_entries(entries: &[AbiEntry]) -> (r: Result<Abi, AbiError>)
        ensures
            abi_result(r) == built(entry_views(entries@), entries.len() as nat),
    {
        let ghost ev = entry_views(entries@);
        let mut abi = Abi::new();
        let mut i: usize = 0;
        while i < entries.len()
            invariant
                i <= entries.len(),
                ev == entry_views(entries@),
                built(ev, i as nat) == Ok::<AbiView, AbiError>(abi@),
            decreases entries.len() - i,
        {
            assert(ev[i as int] == entries[i as int]@);
            match take_entry(&mut abi, &entries[i]) {
                Err(issue) => {
                    proof {
                        lemma_built_err(ev, (i + 1) as nat, ev.len());
                    }
                    return Err(AbiError::Schema { entry: i, issue });
                },
                Ok(()) => {},
            }
            i += 1;
        }
        Ok(abi)
    }
}

/// The descriptors of the parameters `params`, in order.
pub open spec fn param_entries(params: Seq<ParamView>) -> Seq<ParamEntryView> {
    Seq::new(params.len(), |i: int| entry_of(params[i]))
}

/// The entry of a constructor. It is written as not payable, whatever
/// the constructor's own state mutability.
pub open spec fn constructor_entry(c: ConstructorView) -> AbiEntryView {
    AbiEntryView {
        type_: "constructor"@,
        name: None,
        inputs: Some(param_entries(c.inputs)),
        outputs: None,
        state_mutability: Some(mutability_name(StateMutability::NonPayable)),
        anonymous: None,
    }
}

/// The entry of a function.
pub open spec fn function_entry(f: FunctionView) -> AbiEntryView {
    AbiEntryView {
        type_: "function"@,
        name: Some(f.name),
        inputs: Some(param_entries(f.inputs)),
        outputs: Some(param_entries(f.outputs)),
        state_mutability: Some(mutability_name(f.state_mutability)),
        anonymous: None,
    }
}

/// The entry of an event.
pub open spec fn event_entry(e: EventView) -> AbiEntryView {
    AbiEntryView {
        type_: "event"@,
        name: Some(e.name),
        inputs: Some(param_entries(e.inputs)),
        outputs: None,
        state_mutability: None,
        anonymous: Some(e.anonymous),
    }
}

/// The entry of an error.
pub open spec fn error_entry(e: ErrorView) -> AbiEntryView {
    AbiEntryView {
        type_: "error"@,
        name: Some(e.name),
        inputs: Some(param_entries(e.inputs)),
        outputs: None,
        state_mutability: None,
        anonymous: None,
    }
}

/// The entry of the receive or the fallback method, named by `kind`. It is
/// written as payable.
pub open spec fn method_entry(kind: Seq<char>) -> AbiEntryView {
    AbiEntryView {
        type_: kind,
        name: None,
        inputs: None,
        outputs: None,
        state_mutability: Some(mutability_name(StateMutability::Payable)),
        anonymous: None,
    }
}

/// The entries that a document holds for the schema `abi`: the
/// constructor, the functions, the events, the errors, the receive method
/// and the fallback method, in this order.
pub open spec fn entries_of(abi: AbiView) -> Seq<AbiEntryView> {
    (match abi.constructor {
        Some(c) => seq![constructor_entry(c)],
        None => Seq::empty(),
    }) + Seq::new(abi.functions.len(), |i: int| function_entry(abi.functions[i])) + Seq::new(
        abi.events.len(),
        |i: int| event_entry(abi.events[i]),
    ) + Seq::new(abi.errors.len(), |i: int| error_entry(abi.errors[i])) + (if abi.has_receive {
        seq![method_entry("receive"@)]
    } else {
        Seq::empty()
    }) + (if abi.has_fallback {
        seq![method_entry("fallback"@)]
    } else {
        Seq::empty()
    })
}

/// The descriptors of the parameters `params`.
pub fn entries_from(params: &Vec<Param>) -> (c: Option<Vec<ParamEntry>>)
    ensures
        entries_model(&c) == Some(param_entries(params_view(params@))),
{
    let mut entries: Vec<ParamEntry> = Vec::new();
    let mut i: usize = 0;
    while i < params.len()
        invariant
            i <= params.len(),
            entries.len() == i,
            forall|k: int| 0 <= k < i ==> (#[trigger] entries[k])@ == entry_of(params[k]@),
        decreases params.len() - i,
    {
        entries.push(params[i].to_entry());
        i += 1;
    }
    let c = Some(entries);
    assert(entries_model(&c)->0 =~= param_entries(params_view(params@)));
    c
}

impl Abi {
    /// The entries that a document holds for the schema.
    pub fn to_entries(&self) -> (entries: Vec<AbiEntry>)
        ensures
            entry_views(entries@) == entries_of(self@),
    {
        let ghost abi = self@;
        let mut out: Vec<AbiEntry> = Vec::new();
        match &self.constructor {
            Some(c) => {
                let e = AbiEntry {
                    type_: String::from_str("constructor"),
                    name: None,
                    inputs: entries_from(&c.inputs),
                    outputs: None,
                    state_mutability: Some(String::from_str(StateMutability::NonPayable.name())),
                    anonymous: None,
                };
                assert(e@ == constructor_entry(abi.constructor->0));
                out.push(e);
            },
            None => {},
        }
        let ghost with_constructor = entry_views(out@);
        assert(with_constructor =~= match abi.constructor {
            Some(c) => seq![constructor_entry(c)],
            None => Seq::<AbiEntryView>::empty(),
        });
        let mut i: usize = 0;
        while i < self.functions.len()
            invariant
                i <= self.functions.len(),
                abi == self@,
                entry_views(out@) == with_constructor + Seq::new(
                    i as nat,
                    |k: int| function_entry(abi.functions[k]),
                ),
            decreases self.functions.len() - i,
        {
            let f = &self.functions[i];
            let ghost before = entry_views(out@);
            let e = AbiEntry {
                type_: String::from_str("function"),
                name: Some(f.name.clone()),
                inputs: entries_from(&f.inputs),
                outputs: entries_from(&f.outputs),
                state_mutability: Some(String::from_str(f.state_mutability.name())),
                anonymous: None,
            };
            assert(abi.functions[i as int] == f@);
            assert(e@ == function_entry(f@));
            out.push(e);
            assert(entry_views(out@) =~= before.push(function_entry(f@)));
            i += 1;
            assert(entry_views(out@) =~= with_constructor + Seq::new(
                i as nat,
                |k: int| function_entry(abi.functions[k]),
            ));
        }
        let ghost with_functions = entry_views(out@);
        let mut i: usize = 0;
        while i < self.events.len()
            invariant
                i <= self.events.len(),
                abi == self@,
                entry_views(out@) == with_functions + Seq::new(
                    i as nat,
                    |k: int| event_entry(abi.events[k]),
                ),
            decreases self.events.len() - i,
        {
            let ev = &self.events[i];
            let ghost before = entry_views(out@);
            let e = AbiEntry {
                type_: String::from_str("event"),
                name: Some(ev.name.clone()),
                inputs: entries_from(&ev.inputs),
                outputs: None,
                state_mutability: None,
                anonymous: Some(ev.anonymous),
            };
            assert(abi.events[i as int] == ev@);
            assert(e@ == event_entry(ev@));
            out.push(e);
            assert(entry_views(out@) =~= before.push(event_entry(ev@)));
            i += 1;
            assert(entry_views(out@) =~= with_functions + Seq::new(
                i as nat,
                |k: int| event_entry(abi.events[k]),
            ));
        }
        let ghost with_events = entry_views(out@);
        let mut i: usize = 0;
        while i < self.errors.len()
            invariant
                i <= self.errors.len(),
                abi == self@,
                entry_views(out@) == with_events + Seq::new(
                    i as nat,
                    |k: int| error_entry(abi.errors[k]),
                ),
            decreases self.errors.len() - i,
        {
            let er = &self.errors[i];
            let ghost before = entry_views(out@);
            let e = AbiEntry {
                type_: String::from_str("error"),
                name: Some(er.name.clone()),
                inputs: entries_from(&er.inputs),
                outputs: None,
                state_mutability: None,
                anonymous: None,
            };
            assert(abi.errors[i as int] == er@);
            assert(e@ == error_entry(er@));
            out.push(e);
            assert(entry_views(out@) =~= before.push(error_entry(er@)));
            i += 1;
            assert(entry_views(out@) =~= with_events + Seq::new(
                i as nat,
                |k: int| error_entry(abi.errors[k]),
            ));
        }
        let ghost with_errors = entry_views(out@);
        if self.has_receive {
            let e = AbiEntry {
                type_: String::from_str("receive"),
                name: None,
                inputs: None,
                outputs: None,
                state_mutability: Some(String::from_str(StateMutability::Payable.name())),
                anonymous: None,
            };
            assert(e@ == method_entry("receive"@));
            out.push(e);
        }
        let ghost with_receive = entry_views(out@);
        assert(with_receive =~= with_errors + (if abi.has_receive {
            seq![method_entry("receive"@)]
        } else {
            Seq::<AbiEntryView>::empty()
        }));
        if self.has_fallback {
            let e = AbiEntry {
                type_: String::from_str("fallback"),
                name: None,
                inputs: None,
                outputs: None,
                state_mutability: Some(String::from_str(StateMutability::Payable.name())),
                anonymous: None,
            };
            assert(e@ == method_entry("fallback"@));
            out.push(e);
        }
        assert(entry_views(out@) =~= with_receive + (if abi.has_fallback {
            seq![method_entry("fallback"@)]
        } else {
            Seq::<AbiEntryView>::empty()
        }));
        out
    }
}

} // verus!
