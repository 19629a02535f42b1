//! A schema that is written as a document and read again is the same
//! schema.

use crate::abi::{EventView, FunctionView, StateMutability};
use crate::errors::{AbiError, SchemaIssue};
use crate::params::{entry_of, ParamView};
use crate::reparse::lemma_param_reparse;
use crate::schema::{
    built, constructor_entry, empty_abi, entries_of, error_entry, event_entry, function_entry,
    method_entry, mutability_name, mutability_named, mutability_of, param_entries, params_list,
    params_of, with_entry, AbiEntryView, AbiView, ConstructorView, ErrorView,
};
use vstd::prelude::*;

verus! {

/// Whether every type among the parameters is well formed and has lengths
/// that fit.
pub open spec fn params_fit(params: Seq<ParamView>) -> bool {
    forall|i: int|
        0 <= i < params.len() ==> (#[trigger] params[i]).type_.valid()
            && params[i].type_.lengths_fit()
}

/// Whether every type in the schema is well formed and has lengths that
/// fit.
pub open spec fn abi_fits(abi: AbiView) -> bool {
    &&& abi.constructor matches Some(c) ==> params_fit(c.inputs)
    &&& forall|i: int|
        0 <= i < abi.functions.len() ==> params_fit((#[trigger] abi.functions[i]).inputs)
            && params_fit(abi.functions[i].outputs)
    &&& forall|i: int| 0 <= i < abi.events.len() ==> params_fit((#[trigger] abi.events[i]).inputs)
    &&& forall|i: int| 0 <= i < abi.errors.len() ==> params_fit((#[trigger] abi.errors[i]).inputs)
}

/// The schema as it is read back: a constructor is read back as not
/// payable, and nothing else changes.
pub open spec fn read_back(abi: AbiView) -> AbiView {
    AbiView {
        constructor: match abi.constructor {
            None => None,
            Some(c) => Some(ConstructorView { state_mutability: StateMutability::NonPayable, ..c }),
        },
        ..abi
    }
}

/// The six kinds of entries have six different names.
proof fn lemma_kinds()
    ensures
        "receive"@ != "fallback"@,
        "receive"@ != "constructor"@,
        "receive"@ != "function"@,
        "receive"@ != "event"@,
        "receive"@ != "error"@,
        "fallback"@ != "constructor"@,
        "fallback"@ != "function"@,
        "fallback"@ != "event"@,
        "fallback"@ != "error"@,
        "constructor"@ != "function"@,
        "constructor"@ != "event"@,
        "constructor"@ != "error"@,
        "function"@ != "event"@,
        "function"@ != "error"@,
        "event"@ != "error"@,
{
    reveal_strlit("receive");
    reveal_strlit("fallback");
    reveal_strlit("constructor");
    reveal_strlit("function");
    reveal_strlit("event");
    reveal_strlit("error");
    assert("receive"@.len() == 7);
    assert("fallback"@.len() == 8);
    assert("constructor"@.len() == 11);
    assert("function"@.len() == 8);
    assert("event"@.len() == 5);
    assert("error"@.len() == 5);
    assert("fallback"@[1] == 'a' && "function"@[1] == 'u');
    assert("event"@[1] == 'v' && "error"@[1] == 'r');
}

/// The name of a state mutability names that state mutability.
pub proof fn lemma_mutability_names(m: StateMutability)
    ensures
        mutability_named(mutability_name(m)) == Some(m),
        mutability_of(Some(mutability_name(m))) == Ok::<StateMutability, SchemaIssue>(m),
{
    reveal_strlit("pure");
    reveal_strlit("view");
    reveal_strlit("nonpayable");
    reveal_strlit("payable");
    assert("pure"@.len() == 4);
    assert("view"@.len() == 4);
    assert("nonpayable"@.len() == 10);
    assert("payable"@.len() == 7);
    assert("pure"@[1] == 'u' && "view"@[1] == 'i');
}

/// The descriptors that are written for parameters are read back as those
/// parameters.
pub proof fn lemma_params_reparse(params: Seq<ParamView>, n: nat)
    requires
        params_fit(params),
        n <= params.len(),
    ensures
        params_list(param_entries(params), n) == Ok::<Seq<ParamView>, SchemaIssue>(
            params.take(n as int),
        ),
        n == params.len() ==> params_of(Some(param_entries(params))) == Ok::<
            Seq<ParamView>,
            SchemaIssue,
        >(params),
    decreases n,
{
    if n == 0 {
        assert(params.take(0) =~= Seq::<ParamView>::empty());
    } else {
        lemma_params_reparse(params, (n - 1) as nat);
        lemma_param_reparse(params[n - 1]);
        assert(param_entries(params)[n - 1] == entry_of(params[n - 1]));
        assert(params.take(n as int) =~= params.take(n - 1).push(params[n - 1]));
    }
    if n == params.len() {
        assert(params.take(n as int) =~= params);
    }
}

/// Taking in the entry written for a constructor gives that constructor,
/// as not payable.
proof fn lemma_take_constructor(abi: AbiView, c: ConstructorView)
    requires
        params_fit(c.inputs),
    ensures
        with_entry(abi, constructor_entry(c)) == Ok::<AbiView, SchemaIssue>(
            AbiView {
                constructor: Some(
                    ConstructorView { state_mutability: StateMutability::NonPayable, ..c },
                ),
                ..abi
            },
        ),
{
    lemma_kinds();
    lemma_mutability_names(StateMutability::NonPayable);
    lemma_params_reparse(c.inputs, c.inputs.len());
}

/// Taking in the entry written for a function adds that function.
proof fn lemma_take_function(abi: AbiView, f: FunctionView)
    requires
        params_fit(f.inputs),
        params_fit(f.outputs),
    ensures
        with_entry(abi, function_entry(f)) == Ok::<AbiView, SchemaIssue>(
            AbiView { functions: abi.functions.push(f), ..abi },
        ),
{
    lemma_kinds();
    lemma_mutability_names(f.state_mutability);
    lemma_params_reparse(f.inputs, f.inputs.len());
    lemma_params_reparse(f.outputs, f.outputs.len());
}

/// Taking in the entry written for an event adds that event.
proof fn lemma_take_event(abi: AbiView, e: EventView)
    requires
        params_fit(e.inputs),
    ensures
        with_entry(abi, event_entry(e)) == Ok::<AbiView, SchemaIssue>(
            AbiView { events: abi.events.push(e), ..abi },
        ),
{
    lemma_kinds();
    lemma_params_reparse(e.inputs, e.inputs.len());
}

/// Taking in the entry written for an error adds that error.
proof fn lemma_take_error(abi: AbiView, e: ErrorView)
    requires
        params_fit(e.inputs),
    ensures
        with_entry(abi, error_entry(e)) == Ok::<AbiView, SchemaIssue>(
            AbiView { errors: abi.errors.push(e), ..abi },
        ),
{
    lemma_kinds();
    lemma_params_reparse(e.inputs, e.inputs.len());
}

/// Taking in the entry of the receive or the fallback method sets its flag.
proof fn lemma_take_method(abi: AbiView)
    ensures
        with_entry(abi, method_entry("receive"@)) == Ok::<AbiView, SchemaIssue>(
            AbiView { has_receive: true, ..abi },
        ),
        with_entry(abi, method_entry("fallback"@)) == Ok::<AbiView, SchemaIssue>(
            AbiView { has_fallback: true, ..abi },
        ),
{
    lemma_kinds();
}

/// Reading the entries written for functions, from `off` on, adds those
/// functions in order.
proof fn lemma_read_functions(
    es: Seq<AbiEntryView>,
    start: AbiView,
    functions: Seq<FunctionView>,
    off: nat,
    i: nat,
)
    requires
        i <= functions.len(),
        off + functions.len() <= es.len(),
        built(es, off) == Ok::<AbiView, AbiError>(start),
        start.functions == Seq::<FunctionView>::empty(),
        forall|k: int|
            0 <= k < functions.len() ==> es[off + k] == function_entry(#[trigger] functions[k]),
        forall|k: int|
            0 <= k < functions.len() ==> params_fit((#[trigger] functions[k]).inputs)
                && params_fit(functions[k].outputs),
    ensures
        built(es, off + i) == Ok::<AbiView, AbiError>(
            AbiView { functions: functions.take(i as int), ..start },
        ),
    decreases i,
{
    if i == 0 {
        assert(functions.take(0) =~= start.functions);
    } else {
        lemma_read_functions(es, start, functions, off, (i - 1) as nat);
        let before = AbiView { functions: functions.take(i - 1), ..start };
        assert(es[off + i - 1] == function_entry(functions[i - 1]));
        lemma_take_function(before, functions[i - 1]);
        assert(functions.take(i as int) =~= functions.take(i - 1).push(functions[i - 1]));
    }
}

/// Reading the entries written for events, from `off` on, adds those events
/// in order.
proof fn lemma_read_events(
    es: Seq<AbiEntryView>,
    start: AbiView,
    events: Seq<EventView>,
    off: nat,
    i: nat,
)
    requires
        i <= events.len(),
        off + events.len() <= es.len(),
        built(es, off) == Ok::<AbiView, AbiError>(start),
        start.events == Seq::<EventView>::empty(),
        forall|k: int| 0 <= k < events.len() ==> es[off + k] == event_entry(#[trigger] events[k]),
        forall|k: int| 0 <= k < events.len() ==> params_fit((#[trigger] events[k]).inputs),
    ensures
        built(es, off + i) == Ok::<AbiView, AbiError>(
            AbiView { events: events.take(i as int), ..start },
        ),
    decreases i,
{
    if i == 0 {
        assert(events.take(0) =~= start.events);
    } else {
        lemma_read_events(es, start, events, off, (i - 1) as nat);
        let before = AbiView { events: events.take(i - 1), ..start };
        assert(es[off + i - 1] == event_entry(events[i - 1]));
        lemma_take_event(before, events[i - 1]);
        assert(events.take(i as int) =~= events.take(i - 1).push(events[i - 1]));
    }
}

/// Reading the entries written for errors, from `off` on, adds those errors
/// in order.
proof fn lemma_read_errors(
    es: Seq<AbiEntryView>,
    start: AbiView,
    errors: Seq<ErrorView>,
    off: nat,
    i: nat,
)
    requires
        i <= errors.len(),
        off + errors.len() <= es.len(),
        built(es, off) == Ok::<AbiView, AbiError>(start),
        start.errors == Seq::<ErrorView>::empty(),
        forall|k: int| 0 <= k < errors.len() ==> es[off + k] == error_entry(#[trigger] errors[k]),
        forall|k: int| 0 <= k < errors.len() ==> params_fit((#[trigger] errors[k]).inputs),
    ensures
        built(es, off + i) == Ok::<AbiView, AbiError>(
            AbiView { errors: errors.take(i as int), ..start },
        ),
    decreases i,
{
    if i == 0 {
        assert(errors.take(0) =~= start.errors);
    } else {
        lemma_read_errors(es, start, errors, off, (i - 1) as nat);
        let before = AbiView { errors: errors.take(i - 1), ..start };
        assert(es[off + i - 1] == error_entry(errors[i - 1]));
        lemma_take_error(before, errors[i - 1]);
        assert(errors.take(i as int) =~= errors.take(i - 1).push(errors[i - 1]));
    }
}

/// Where the entries of the parts of a schema stand in a list of entries:
/// the constructor first, then the functions, the events, the errors, the
/// receive method and the fallback method.
pub open spec fn laid_out(es: Seq<AbiEntryView>, abi: AbiView) -> bool {
    let at_functions: int = if abi.constructor is Some {
        1
    } else {
        0
    };
    let at_events = at_functions + abi.functions.len();
    let at_errors = at_events + abi.events.len();
    let at_receive = at_errors + abi.errors.len();
    let at_fallback = at_receive + if abi.has_receive {
        1int
    } else {
        0int
    };
    &&& es.len() == at_fallback + if abi.has_fallback {
        1int
    } else {
        0int
    }
    &&& abi.constructor matches Some(c) ==> es[0] == constructor_entry(c)
    &&& forall|k: int|
        0 <= k < abi.functions.len() ==> es[at_functions + k] == function_entry(
            #[trigger] abi.functions[k],
        )
    &&& forall|k: int|
        0 <= k < abi.events.len() ==> es[at_events + k] == event_entry(#[trigger] abi.events[k])
    &&& forall|k: int|
        0 <= k < abi.errors.len() ==> es[at_errors + k] == error_entry(#[trigger] abi.errors[k])
    &&& abi.has_receive ==> es[at_receive] == method_entry("receive"@)
    &&& abi.has_fallback ==> es[at_fallback] == method_entry("fallback"@)
}

/// The entries written for a schema are laid out part by part.
proof fn lemma_entries_laid_out(abi: AbiView)
    ensures
        laid_out(entries_of(abi), abi),
{
    let es = entries_of(abi);
    let head: Seq<AbiEntryView> = match abi.constructor {
        Some(c) => seq![constructor_entry(c)],
        None => Seq::empty(),
    };
    let fs = Seq::new(abi.functions.len(), |i: int| function_entry(abi.functions[i]));
    let evs = Seq::new(abi.events.len(), |i: int| event_entry(abi.events[i]));
    let ers = Seq::new(abi.errors.len(), |i: int| error_entry(abi.errors[i]));
    let rc: Seq<AbiEntryView> = if abi.has_receive {
        seq![method_entry("receive"@)]
    } else {
        Seq::empty()
    };
    let fb: Seq<AbiEntryView> = if abi.has_fallback {
        seq![method_entry("fallback"@)]
    } else {
        Seq::empty()
    };
    assert(es == head + fs + evs + ers + rc + fb);
    let at_functions = head.len() as int;
    let at_events = at_functions + fs.len();
    let at_errors = at_events + evs.len();
    let at_receive = at_errors + ers.len();
    let at_fallback = at_receive + rc.len();
    assert forall|k: int| 0 <= k < abi.functions.len() implies es[at_functions + k]
        == function_entry(#[trigger] abi.functions[k]) by {
        assert(es[at_functions + k] == fs[k]);
    }
    assert forall|k: int| 0 <= k < abi.events.len() implies es[at_events + k] == event_entry(
        #[trigger] abi.events[k],
    ) by {
        assert(es[at_events + k] == evs[k]);
    }
    assert forall|k: int| 0 <= k < abi.errors.len() implies es[at_errors + k] == error_entry(
        #[trigger] abi.errors[k],
    ) by {
        assert(es[at_errors + k] == ers[k]);
    }
    if abi.has_receive {
        assert(es[at_receive] == rc[0]);
    }
    if abi.has_fallback {
        assert(es[at_fallback] == fb[0]);
    }
    if abi.constructor is Some {
        assert(es[0] == head[0]);
    }
}

/// Entries laid out for a schema are read back as that schema.
proof fn lemma_read_laid_out(es: Seq<AbiEntryView>, abi: AbiView)
    requires
        abi_fits(abi),
        laid_out(es, abi),
    ensures
        built(es, es.len()) == Ok::<AbiView, AbiError>(read_back(abi)),
{
    let at_functions: nat = if abi.constructor is Some {
        1
    } else {
        0
    };
    let at_events = at_functions + abi.functions.len();
    let at_errors = at_events + abi.events.len();
    let at_receive = at_errors + abi.errors.len();
    let at_fallback: nat = at_receive + if abi.has_receive {
        1nat
    } else {
        0nat
    };
    let with_constructor = AbiView { constructor: read_back(abi).constructor, ..empty_abi() };
    assert(built(es, at_functions) == Ok::<AbiView, AbiError>(with_constructor)) by {
        assert(built(es, 0) == Ok::<AbiView, AbiError>(empty_abi()));
        if abi.constructor is Some {
            lemma_take_constructor(empty_abi(), abi.constructor->0);
        }
    }
    let with_functions = AbiView { functions: abi.functions, ..with_constructor };
    assert(built(es, at_events) == Ok::<AbiView, AbiError>(with_functions)) by {
        lemma_read_functions(
            es,
            with_constructor,
            abi.functions,
            at_functions,
            abi.functions.len(),
        );
        assert(abi.functions.take(abi.functions.len() as int) =~= abi.functions);
    }
    let with_events = AbiView { events: abi.events, ..with_functions };
    assert(built(es, at_errors) == Ok::<AbiView, AbiError>(with_events)) by {
        lemma_read_events(es, with_functions, abi.events, at_events, abi.events.len());
        assert(abi.events.take(abi.events.len() as int) =~= abi.events);
    }
    let with_errors = AbiView { errors: abi.errors, ..with_events };
    assert(built(es, at_receive) == Ok::<AbiView, AbiError>(with_errors)) by {
        lemma_read_errors(es, with_events, abi.errors, at_errors, abi.errors.len());
        assert(abi.errors.take(abi.errors.len() as int) =~= abi.errors);
    }
    let with_receive = AbiView { has_receive: abi.has_receive, ..with_errors };
    assert(built(es, at_fallback) == Ok::<AbiView, AbiError>(with_receive)) by {
        lemma_take_method(with_errors);
    }
    assert(built(es, es.len()) == Ok::<AbiView, AbiError>(read_back(abi))) by {
        lemma_take_method(with_receive);
    }
}

/// A schema that is written as a document and read again is the same
/// schema, but for the state mutability of its constructor, which is read
/// back as not payable.
///
/// This holds of every schema whose types are well formed and whose fixed
/// arrays have lengths that fit a `usize`.
pub proof fn lemma_schema_read_back(abi: AbiView)
    requires
        abi_fits(abi),
    ensures
        built(entries_of(abi), entries_of(abi).len()) == Ok::<AbiView, AbiError>(read_back(abi)),
{
    lemma_entries_laid_out(abi);
    lemma_read_laid_out(entries_of(abi), abi);
}

} // verus!
