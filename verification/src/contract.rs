//! The contract: an interface description, indexed by name.

use crate::errors::AbiError;
use crate::groups::{appended, concat_groups, lemma_concat_len, total_size, Cursor, Groups};
use crate::name_order::name_lt;
use crate::operation::{
    event_named, events_named, function_named, functions_named, last_constructor, Constructor,
    Event, Function, Operation,
};
use vstd::prelude::*;

verus! {

/// What a contract holds, as mathematics.
pub struct ContractView {
    /// The constructor, where the description gave one.
    pub constructor: Option<Constructor>,
    /// The functions of each name, in the order in which they were presented.
    pub functions: Map<Seq<char>, Seq<Function>>,
    /// The events of each name, in the order in which they were presented.
    pub events: Map<Seq<char>, Seq<Event>>,
    /// Whether the description held a fallback entry.
    pub fallback: bool,
    /// Whether the description held a receive entry.
    pub receive: bool,
}

impl ContractView {
    /// The contract of the empty description.
    pub open spec fn empty() -> ContractView {
        ContractView {
            constructor: None,
            functions: Map::empty(),
            events: Map::empty(),
            fallback: false,
            receive: false,
        }
    }

    /// The contract of the description `ops`: the last constructor, under
    /// each name that occurs the entries of that name in their order, and a
    /// flag for each marker that occurs.
    pub open spec fn of(ops: Seq<Operation>) -> ContractView {
        ContractView {
            constructor: last_constructor(ops),
            functions: Map::new(
                |name: Seq<char>| functions_named(ops, name).len() > 0,
                |name: Seq<char>| functions_named(ops, name),
            ),
            events: Map::new(
                |name: Seq<char>| events_named(ops, name).len() > 0,
                |name: Seq<char>| events_named(ops, name),
            ),
            fallback: ops.contains(Operation::Fallback),
            receive: ops.contains(Operation::Receive),
        }
    }

    /// This contract after one more entry.
    pub open spec fn apply(self, op: Operation) -> ContractView {
        match op {
            Operation::Constructor(c) => ContractView { constructor: Some(c), ..self },
            Operation::Function(f) => ContractView {
                functions: appended(self.functions, f.name@, f),
                ..self
            },
            Operation::Event(e) => ContractView {
                events: appended(self.events, e.name@, e),
                ..self
            },
            Operation::Fallback => ContractView { fallback: true, ..self },
            Operation::Receive => ContractView { receive: true, ..self },
        }
    }
}

/// The contract of a description with one more entry is the contract of the
/// description, after that entry.
pub proof fn lemma_of_push(ops: Seq<Operation>, op: Operation)
    ensures
        ContractView::of(ops.push(op)) == ContractView::of(ops).apply(op),
{
    let more = ops.push(op);
    let a = ContractView::of(more);
    let b = ContractView::of(ops).apply(op);
    assert(more.drop_last() =~= ops);
    assert(a.functions =~~= b.functions);
    assert(a.events =~~= b.events);
    assert(a.fallback == b.fallback) by {
        if ops.contains(Operation::Fallback) {
            let i = choose|i: int| 0 <= i < ops.len() && ops[i] == Operation::Fallback;
            assert(more[i] == Operation::Fallback);
        }
        if op == Operation::Fallback {
            assert(more[ops.len() as int] == Operation::Fallback);
        }
    }
    assert(a.receive == b.receive) by {
        if ops.contains(Operation::Receive) {
            let i = choose|i: int| 0 <= i < ops.len() && ops[i] == Operation::Receive;
            assert(more[i] == Operation::Receive);
        }
        if op == Operation::Receive {
            assert(more[ops.len() as int] == Operation::Receive);
        }
    }
}

/// The contract of the empty description is the empty contract.
pub proof fn lemma_of_empty()
    ensures
        ContractView::of(Seq::<Operation>::empty()) == ContractView::empty(),
{
    let a = ContractView::of(Seq::<Operation>::empty());
    assert(a.functions =~= Map::empty());
    assert(a.events =~= Map::empty());
}

/// An interface description, indexed for lookup by name.
#[derive(Clone, Debug, PartialEq)]
pub struct Contract {
    constructor: Option<Constructor>,
    functions: Groups<Function>,
    events: Groups<Event>,
    fallback: bool,
    receive: bool,
}

impl View for Contract {
    type V = ContractView;

    closed spec fn view(&self) -> ContractView {
        ContractView {
            constructor: self.constructor,
            functions: self.functions@,
            events: self.events@,
            fallback: self.fallback,
            receive: self.receive,
        }
    }
}

/// All functions of a contract, one after the other.
pub struct Functions<'a> {
    inner: Cursor<'a, Function>,
}

/// All events of a contract, one after the other.
pub struct Events<'a> {
    inner: Cursor<'a, Event>,
}

impl Contract {
    /// Each name is held once, and no name has an empty group.
    pub closed spec fn wf(&self) -> bool {
        self.functions.wf() && self.events.wf()
    }

    /// The names that have functions, in increasing order.
    pub closed spec fn function_names(&self) -> Seq<Seq<char>> {
        self.functions.keys()
    }

    /// The names that have events, in increasing order.
    pub closed spec fn event_names(&self) -> Seq<Seq<char>> {
        self.events.keys()
    }

    /// The contract of the empty description.
    pub fn new() -> (r: Contract)
        ensures
            r.wf(),
            r@ == ContractView::empty(),
    {
        Contract {
            constructor: None,
            functions: Groups::new(),
            events: Groups::new(),
            fallback: false,
            receive: false,
        }
    }

    /// Takes in one more entry of the description.
    pub fn apply(&mut self, op: Operation)
        ensures
            final(self).wf(),
            final(self)@ == old(self)@.apply(op),
    {
        proof {
            use_type_invariant(&self.functions);
            use_type_invariant(&self.events);
        }
        match op {
            Operation::Constructor(c) => {
                self.constructor = Some(c);
            },
            Operation::Function(f) => {
                let name = f.name.clone();
                self.functions.append(name, f);
            },
            Operation::Event(e) => {
                let name = e.name.clone();
                self.events.append(name, e);
            },
            Operation::Fallback => {
                self.fallback = true;
            },
            Operation::Receive => {
                self.receive = true;
            },
        }
    }

    /// Builds the contract of a description from its entries, first to last.
    pub fn from_operations(ops: Vec<Operation>) -> (r: Contract)
        ensures
            r.wf(),
            r@ == ContractView::of(ops@),
    {
        let mut result = Contract::new();
        let ghost all = ops@;
        proof {
            lemma_of_empty();
            assert(all.take(0) =~= Seq::<Operation>::empty());
        }
        for op in it: ops
            invariant
                it.seq() == all,
                result.wf(),
                result@ == ContractView::of(all.take(it.index() as int)),
        {
            proof {
                lemma_of_push(all.take(it.index() as int), op);
                assert(all.take(it.index() as int).push(op) =~= all.take(it.index() + 1));
            }
            result.apply(op);
        }
        proof {
            assert(all.take(all.len() as int) =~= all);
        }
        result
    }

    /// Builds the contract from what a decoder made of a description: from
    /// the entries where it gave them, and otherwise fails with its error.
    pub fn from_decoded(decoded: Result<Vec<Operation>, serde_json::Error>) -> (r: Result<
        Contract,
        AbiError,
    >)
        ensures
            match decoded {
                Ok(ops) => r matches Ok(c) && c.wf() && c@ == ContractView::of(ops@),
                Err(err) => r matches Err(e) && e.is_malformed(err),
            },
    {
        match decoded {
            Ok(ops) => Ok(Contract::from_operations(ops)),
            Err(err) => Err(AbiError::from(err)),
        }
    }

    /// The constructor, where the description gave one.
    pub fn constructor(&self) -> (r: Option<&Constructor>)
        ensures
            match r {
                Some(c) => self@.constructor == Some(*c),
                None => self@.constructor is None,
            },
    {
        self.constructor.as_ref()
    }

    /// The first function presented under `name`.
    pub fn function(&self, name: &str) -> (r: Result<&Function, AbiError>)
        ensures
            match r {
                Ok(f) => self@.functions.contains_key(name@) && *f == self@.functions[name@][0],
                Err(e) => !self@.functions.contains_key(name@) && e.is_invalid_name(name@),
            },
    {
        match self.functions.get(name) {
            Some(group) => {
                proof {
                    use_type_invariant(&self.functions);
                    self.functions.lemma_groups_nonempty();
                }
                Ok(&group[0])
            },
            None => Err(AbiError::InvalidName(name.to_owned())),
        }
    }

    /// The first event presented under `name`.
    pub fn event(&self, name: &str) -> (r: Result<&Event, AbiError>)
        ensures
            match r {
                Ok(e) => self@.events.contains_key(name@) && *e == self@.events[name@][0],
                Err(e) => !self@.events.contains_key(name@) && e.is_invalid_name(name@),
            },
    {
        match self.events.get(name) {
            Some(group) => {
                proof {
                    use_type_invariant(&self.events);
                    self.events.lemma_groups_nonempty();
                }
                Ok(&group[0])
            },
            None => Err(AbiError::InvalidName(name.to_owned())),
        }
    }

    /// All events presented under `name`, in the order in which they were
    /// presented.
    pub fn events_by_name(&self, name: &str) -> (r: Result<&Vec<Event>, AbiError>)
        ensures
            match r {
                Ok(group) => self@.events.contains_key(name@) && group@ == self@.events[name@]
                    && group@.len() > 0,
                Err(e) => !self@.events.contains_key(name@) && e.is_invalid_name(name@),
            },
    {
        match self.events.get(name) {
            Some(group) => {
                proof {
                    use_type_invariant(&self.events);
                    self.events.lemma_groups_nonempty();
                }
                Ok(group)
            },
            None => Err(AbiError::InvalidName(name.to_owned())),
        }
    }

    /// All functions presented under `name`, in the order in which they were
    /// presented.
    pub fn functions_by_name(&self, name: &str) -> (r: Result<&Vec<Function>, AbiError>)
        ensures
            match r {
                Ok(group) => self@.functions.contains_key(name@) && group@
                    == self@.functions[name@] && group@.len() > 0,
                Err(e) => !self@.functions.contains_key(name@) && e.is_invalid_name(name@),
            },
    {
        match self.functions.get(name) {
            Some(group) => {
                proof {
                    use_type_invariant(&self.functions);
                    self.functions.lemma_groups_nonempty();
                }
                Ok(group)
            },
            None => Err(AbiError::InvalidName(name.to_owned())),
        }
    }

    /// A walk over all functions: group after group in the order of the
    /// names, each group in the order in which it was presented.
    pub fn functions(&self) -> (r: Functions<'_>)
        ensures
            r.wf(),
            r@ == concat_groups(self.function_names(), self@.functions),
            r@.len() == total_size(self.function_names(), self@.functions),
    {
        proof {
            lemma_concat_len(self.function_names(), self@.functions);
        }
        Functions { inner: Cursor::new(&self.functions) }
    }

    /// A walk over all events: group after group in the order of the names,
    /// each group in the order in which it was presented.
    pub fn events(&self) -> (r: Events<'_>)
        ensures
            r.wf(),
            r@ == concat_groups(self.event_names(), self@.events),
            r@.len() == total_size(self.event_names(), self@.events),
    {
        proof {
            lemma_concat_len(self.event_names(), self@.events);
        }
        Events { inner: Cursor::new(&self.events) }
    }

    /// Whether the description held a fallback entry.
    pub fn fallback(&self) -> (r: bool)
        ensures
            r == self@.fallback,
    {
        self.fallback
    }

    /// Whether the description held a receive entry.
    pub fn receive(&self) -> (r: bool)
        ensures
            r == self@.receive,
    {
        self.receive
    }

    /// The names that have functions strictly increase, and they are the
    /// names under which a function can be looked up.
    pub proof fn lemma_function_names(&self)
        requires
            self.wf(),
        ensures
            forall|i: int, j: int|
                0 <= i < j < self.function_names().len() ==> name_lt(
                    #[trigger] self.function_names()[i],
                    #[trigger] self.function_names()[j],
                ),
            forall|k: Seq<char>|
                self@.functions.contains_key(k) <==> self.function_names().contains(k),
    {
        self.functions.lemma_keys();
    }

    /// The names that have events strictly increase, and they are the names
    /// under which an event can be looked up.
    pub proof fn lemma_event_names(&self)
        requires
            self.wf(),
        ensures
            forall|i: int, j: int|
                0 <= i < j < self.event_names().len() ==> name_lt(
                    #[trigger] self.event_names()[i],
                    #[trigger] self.event_names()[j],
                ),
            forall|k: Seq<char>| self@.events.contains_key(k) <==> self.event_names().contains(k),
    {
        self.events.lemma_keys();
    }

    /// No name that a contract holds has an empty group.
    pub proof fn lemma_groups_nonempty(&self)
        requires
            self.wf(),
        ensures
            forall|k: Seq<char>|
                self@.functions.contains_key(k) ==> (#[trigger] self@.functions[k]).len() > 0,
            forall|k: Seq<char>|
                self@.events.contains_key(k) ==> (#[trigger] self@.events[k]).len() > 0,
    {
        self.functions.lemma_groups_nonempty();
        self.events.lemma_groups_nonempty();
    }
}

impl<'a> View for Functions<'a> {
    type V = Seq<Function>;

    /// The functions that are left.
    closed spec fn view(&self) -> Seq<Function> {
        self.inner@
    }
}

impl<'a> Functions<'a> {
    /// The walk is within its items.
    pub closed spec fn wf(&self) -> bool {
        self.inner.wf()
    }

    /// How many functions are left.
    pub fn remaining(&self) -> (n: usize)
        ensures
            n == self@.len(),
    {
        self.inner.remaining()
    }

    /// Hands out the first function that is left, and steps past it.
    pub fn next(&mut self) -> (r: Option<&'a Function>)
        ensures
            final(self).wf(),
            old(self)@.len() == 0 ==> r is None && final(self)@ == old(self)@,
            old(self)@.len() > 0 ==> r == Some(&old(self)@[0]) && final(self)@ == old(self)@.skip(
                1,
            ),
    {
        self.inner.next()
    }
}

impl<'a> View for Events<'a> {
    type V = Seq<Event>;

    /// The events that are left.
    closed spec fn view(&self) -> Seq<Event> {
        self.inner@
    }
}

impl<'a> Events<'a> {
    /// The walk is within its items.
    pub closed spec fn wf(&self) -> bool {
        self.inner.wf()
    }

    /// How many events are left.
    pub fn remaining(&self) -> (n: usize)
        ensures
            n == self@.len(),
    {
        self.inner.remaining()
    }

    /// Hands out the first event that is left, and steps past it.
    pub fn next(&mut self) -> (r: Option<&'a Event>)
        ensures
            final(self).wf(),
            old(self)@.len() == 0 ==> r is None && final(self)@ == old(self)@,
            old(self)@.len() > 0 ==> r == Some(&old(self)@[0]) && final(self)@ == old(self)@.skip(
                1,
            ),
    {
        self.inner.next()
    }
}

} // verus!
