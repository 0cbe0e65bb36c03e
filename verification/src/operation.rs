//! The entries of an interface description.

use vstd::prelude::*;

verus! {

/// A parameter of a constructor or a function: its name and the canonical
/// text of its type.
#[derive(Clone, Debug, PartialEq, Eq)]
pub struct Param {
    pub name: String,
    pub kind: String,
}

/// A parameter of an event.
#[derive(Clone, Debug, PartialEq, Eq)]
pub struct EventParam {
    pub name: String,
    pub kind: String,
    pub indexed: bool,
}

/// What a contract is created with.
#[derive(Clone, Debug, PartialEq, Eq)]
pub struct Constructor {
    pub inputs: Vec<Param>,
}

/// A callable entry point. Several functions may share one name.
#[derive(Clone, Debug, PartialEq, Eq)]
pub struct Function {
    pub name: String,
    pub inputs: Vec<Param>,
    pub outputs: Vec<Param>,
}

/// An observable event. Several events may share one name.
#[derive(Clone, Debug, PartialEq, Eq)]
pub struct Event {
    pub name: String,
    pub inputs: Vec<EventParam>,
    pub anonymous: bool,
}

/// One entry of an interface description.
#[derive(Clone, Debug, PartialEq, Eq)]
pub enum Operation {
    Constructor(Constructor),
    Function(Function),
    Event(Event),
    Fallback,
    Receive,
}

/// The function that `op` presents under `name`, if it presents one.
pub open spec fn function_named(op: Operation, name: Seq<char>) -> Option<Function> {
    match op {
        Operation::Function(f) => if f.name@ == name {
            Some(f)
        } else {
            None
        },
        _ => None,
    }
}

/// The event that `op` presents under `name`, if it presents one.
pub open spec fn event_named(op: Operation, name: Seq<char>) -> Option<Event> {
    match op {
        Operation::Event(e) => if e.name@ == name {
            Some(e)
        } else {
            None
        },
        _ => None,
    }
}

/// The functions presented under `name`, in the order of `ops`.
pub open spec fn functions_named(ops: Seq<Operation>, name: Seq<char>) -> Seq<Function> {
    ops.filter_map(|op: Operation| function_named(op, name))
}

/// The events presented under `name`, in the order of `ops`.
pub open spec fn events_named(ops: Seq<Operation>, name: Seq<char>) -> Seq<Event> {
    ops.filter_map(|op: Operation| event_named(op, name))
}

/// The constructor of the last `Constructor` entry of `ops`.
pub open spec fn last_constructor(ops: Seq<Operation>) -> Option<Constructor>
    decreases ops.len(),
{
    if ops.len() == 0 {
        None
    } else {
        match ops.last() {
            Operation::Constructor(c) => Some(c),
            _ => last_constructor(ops.drop_last()),
        }
    }
}

} // verus!
