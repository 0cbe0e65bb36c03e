//! What holds of the contract of every description.

use crate::contract::ContractView;
use crate::operation::{
    event_named, events_named, function_named, functions_named, Constructor, Event, Function,
    Operation,
};
use vstd::prelude::*;

verus! {

/// The entries that present the functions `fs`, in their order.
pub open spec fn function_entries(fs: Seq<Function>) -> Seq<Operation> {
    fs.map_values(|f: Function| Operation::Function(f))
}

/// The entries that present the events `es`, in their order.
pub open spec fn event_entries(es: Seq<Event>) -> Seq<Operation> {
    es.map_values(|e: Event| Operation::Event(e))
}

/// Functions that share a name are held under it in exactly the order in
/// which they were presented.
pub proof fn lemma_function_order_preserved(fs: Seq<Function>, name: Seq<char>)
    requires
        forall|i: int| 0 <= i < fs.len() ==> (#[trigger] fs[i]).name@ == name,
    ensures
        functions_named(function_entries(fs), name) == fs,
        fs.len() > 0 ==> ContractView::of(function_entries(fs)).functions.contains_key(name)
            && ContractView::of(function_entries(fs)).functions[name] == fs,
    decreases fs.len(),
{
    let ops = function_entries(fs);
    if fs.len() == 0 {
        assert(functions_named(ops, name) =~= fs);
    } else {
        lemma_function_order_preserved(fs.drop_last(), name);
        assert(ops.drop_last() =~= function_entries(fs.drop_last()));
        assert(function_named(ops.last(), name) == Some(fs.last()));
        assert(functions_named(ops, name) =~= fs);
    }
}

/// Events that share a name are held under it in exactly the order in which
/// they were presented.
pub proof fn lemma_event_order_preserved(es: Seq<Event>, name: Seq<char>)
    requires
        forall|i: int| 0 <= i < es.len() ==> (#[trigger] es[i]).name@ == name,
    ensures
        events_named(event_entries(es), name) == es,
        es.len() > 0 ==> ContractView::of(event_entries(es)).events.contains_key(name)
            && ContractView::of(event_entries(es)).events[name] == es,
    decreases es.len(),
{
    let ops = event_entries(es);
    if es.len() == 0 {
        assert(events_named(ops, name) =~= es);
    } else {
        lemma_event_order_preserved(es.drop_last(), name);
        assert(ops.drop_last() =~= event_entries(es.drop_last()));
        assert(event_named(ops.last(), name) == Some(es.last()));
        assert(events_named(ops, name) =~= es);
    }
}

/// The constructor of a contract is that of the last constructor entry of
/// its description, whatever constructors came before it.
pub proof fn lemma_constructor_is_last(ops: Seq<Operation>, i: int, c: Constructor)
    requires
        0 <= i < ops.len(),
        ops[i] == Operation::Constructor(c),
        forall|j: int| i < j < ops.len() ==> !(#[trigger] ops[j] is Constructor),
    ensures
        ContractView::of(ops).constructor == Some(c),
    decreases ops.len(),
{
    if i < ops.len() - 1 {
        assert(!(ops[ops.len() - 1] is Constructor));
        lemma_constructor_is_last(ops.drop_last(), i, c);
    }
}

/// A description without a constructor entry gives a contract without a
/// constructor.
pub proof fn lemma_constructor_absent(ops: Seq<Operation>)
    requires
        forall|j: int| 0 <= j < ops.len() ==> !(#[trigger] ops[j] is Constructor),
    ensures
        ContractView::of(ops).constructor is None,
    decreases ops.len(),
{
    if ops.len() > 0 {
        assert(!(ops[ops.len() - 1] is Constructor));
        lemma_constructor_absent(ops.drop_last());
    }
}

/// A flag is set by the first marker entry and stays as it is at every
/// further one.
pub proof fn lemma_flags_idempotent(c: ContractView)
    ensures
        c.apply(Operation::Fallback).fallback,
        c.apply(Operation::Receive).receive,
        c.apply(Operation::Fallback).apply(Operation::Fallback) == c.apply(Operation::Fallback),
        c.apply(Operation::Receive).apply(Operation::Receive) == c.apply(Operation::Receive),
{
}

/// A flag is set exactly where the description holds its marker.
pub proof fn lemma_flags_observed(ops: Seq<Operation>)
    ensures
        ContractView::of(ops).fallback <==> exists|i: int|
            0 <= i < ops.len() && #[trigger] ops[i] == Operation::Fallback,
        ContractView::of(ops).receive <==> exists|i: int|
            0 <= i < ops.len() && #[trigger] ops[i] == Operation::Receive,
{
}

/// A name has functions exactly where an entry of the description presents
/// a function under it.
pub proof fn lemma_function_lookup_complete(ops: Seq<Operation>, name: Seq<char>)
    ensures
        ContractView::of(ops).functions.contains_key(name) <==> exists|i: int|
            0 <= i < ops.len() && function_named(#[trigger] ops[i], name) is Some,
    decreases ops.len(),
{
    if ops.len() > 0 {
        let rest = ops.drop_last();
        lemma_function_lookup_complete(rest, name);
        if exists|i: int| 0 <= i < rest.len() && function_named(#[trigger] rest[i], name) is Some {
            let i = choose|i: int|
                0 <= i < rest.len() && function_named(#[trigger] rest[i], name) is Some;
            assert(function_named(ops[i], name) is Some);
        }
        if exists|i: int| 0 <= i < ops.len() && function_named(#[trigger] ops[i], name) is Some {
            let i = choose|i: int|
                0 <= i < ops.len() && function_named(#[trigger] ops[i], name) is Some;
            if i < rest.len() {
                assert(function_named(rest[i], name) is Some);
            }
        }
    }
}

/// A name has events exactly where an entry of the description presents an
/// event under it.
pub proof fn lemma_event_lookup_complete(ops: Seq<Operation>, name: Seq<char>)
    ensures
        ContractView::of(ops).events.contains_key(name) <==> exists|i: int|
            0 <= i < ops.len() && event_named(#[trigger] ops[i], name) is Some,
    decreases ops.len(),
{
    if ops.len() > 0 {
        let rest = ops.drop_last();
        lemma_event_lookup_complete(rest, name);
        if exists|i: int| 0 <= i < rest.len() && event_named(#[trigger] rest[i], name) is Some {
            let i = choose|i: int|
                0 <= i < rest.len() && event_named(#[trigger] rest[i], name) is Some;
            assert(event_named(ops[i], name) is Some);
        }
        if exists|i: int| 0 <= i < ops.len() && event_named(#[trigger] ops[i], name) is Some {
            let i = choose|i: int|
                0 <= i < ops.len() && event_named(#[trigger] ops[i], name) is Some;
            if i < rest.len() {
                assert(event_named(rest[i], name) is Some);
            }
        }
    }
}

/// In the contract of any description, no name has an empty group.
pub proof fn lemma_no_empty_group(ops: Seq<Operation>)
    ensures
        forall|name: Seq<char>|
            ContractView::of(ops).functions.contains_key(name) ==> (
            #[trigger] ContractView::of(ops).functions[name]).len() > 0,
        forall|name: Seq<char>|
            ContractView::of(ops).events.contains_key(name) ==> (#[trigger] ContractView::of(
                ops,
            ).events[name]).len() > 0,
{
}

} // verus!
