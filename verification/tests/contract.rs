use ethabi::groups::Groups;
use ethabi::{
    AbiError, Constructor, Contract, Event, EventParam, Function, Operation, Param,
};

fn param(name: &str, kind: &str) -> Param {
    Param { name: name.to_string(), kind: kind.to_string() }
}

fn function(name: &str, inputs: Vec<Param>) -> Function {
    Function { name: name.to_string(), inputs, outputs: vec![param("", "bool")] }
}

fn event(name: &str, anonymous: bool) -> Event {
    Event {
        name: name.to_string(),
        inputs: vec![EventParam {
            name: "from".to_string(),
            kind: "address".to_string(),
            indexed: true,
        }],
        anonymous,
    }
}

fn constructor(kind: &str) -> Constructor {
    Constructor { inputs: vec![param("supply", kind)] }
}

fn drain_functions(contract: &Contract) -> Vec<Function> {
    let mut walk = contract.functions();
    let mut out = Vec::new();
    while let Some(f) = walk.next() {
        out.push(f.clone());
    }
    out
}

fn drain_events(contract: &Contract) -> Vec<Event> {
    let mut walk = contract.events();
    let mut out = Vec::new();
    while let Some(e) = walk.next() {
        out.push(e.clone());
    }
    out
}

#[test]
fn overloads_keep_their_order() {
    let a = function("transfer", vec![param("to", "address")]);
    let b = function("transfer", vec![param("to", "address"), param("value", "uint256")]);
    let c = function("transfer", vec![]);
    let contract = Contract::from_operations(vec![
        Operation::Function(a.clone()),
        Operation::Function(b.clone()),
        Operation::Function(c.clone()),
    ]);
    assert_eq!(contract.functions_by_name("transfer").unwrap(), &vec![a.clone(), b, c]);
    assert_eq!(contract.function("transfer").unwrap(), &a);
}

#[test]
fn overloads_keep_their_order_among_other_entries() {
    let a = function("approve", vec![param("spender", "address")]);
    let b = function("balanceOf", vec![param("owner", "address")]);
    let c = function("approve", vec![]);
    let contract = Contract::from_operations(vec![
        Operation::Function(a.clone()),
        Operation::Fallback,
        Operation::Function(b.clone()),
        Operation::Event(event("approve", false)),
        Operation::Function(c.clone()),
    ]);
    assert_eq!(contract.functions_by_name("approve").unwrap(), &vec![a, c]);
    assert_eq!(contract.functions_by_name("balanceOf").unwrap(), &vec![b]);
}

#[test]
fn event_overloads_keep_their_order() {
    let a = event("Transfer", false);
    let b = event("Transfer", true);
    let contract = Contract::from_operations(vec![
        Operation::Event(a.clone()),
        Operation::Event(b.clone()),
    ]);
    assert_eq!(contract.events_by_name("Transfer").unwrap(), &vec![a.clone(), b]);
    assert_eq!(contract.event("Transfer").unwrap(), &a);
}

#[test]
fn later_constructor_overwrites_earlier() {
    let c1 = constructor("uint8");
    let c2 = constructor("uint256");
    let contract = Contract::from_operations(vec![
        Operation::Constructor(c1.clone()),
        Operation::Constructor(c2.clone()),
    ]);
    assert_eq!(contract.constructor(), Some(&c2));
    assert_ne!(contract.constructor(), Some(&c1));
}

#[test]
fn constructor_survives_later_entries() {
    let c1 = constructor("uint8");
    let contract = Contract::from_operations(vec![
        Operation::Constructor(c1.clone()),
        Operation::Function(function("f", vec![])),
        Operation::Receive,
    ]);
    assert_eq!(contract.constructor(), Some(&c1));
}

#[test]
fn repeated_flags_are_idempotent() {
    let contract = Contract::from_operations(vec![
        Operation::Fallback,
        Operation::Fallback,
        Operation::Receive,
    ]);
    assert!(contract.fallback());
    assert!(contract.receive());
    let once = Contract::from_operations(vec![Operation::Fallback, Operation::Receive]);
    assert_eq!(contract, once);
}

#[test]
fn flags_are_independent() {
    let only_receive = Contract::from_operations(vec![Operation::Receive]);
    assert!(!only_receive.fallback());
    assert!(only_receive.receive());
    let only_fallback = Contract::from_operations(vec![Operation::Fallback]);
    assert!(only_fallback.fallback());
    assert!(!only_fallback.receive());
}

#[test]
fn lookup_succeeds_for_inserted_names_only() {
    let contract = Contract::from_operations(vec![
        Operation::Function(function("mint", vec![])),
        Operation::Event(event("Minted", false)),
    ]);
    assert!(contract.function("mint").is_ok());
    assert!(contract.functions_by_name("mint").is_ok());
    assert!(contract.event("Minted").is_ok());
    assert!(contract.events_by_name("Minted").is_ok());
    assert!(matches!(contract.function("Minted"), Err(AbiError::InvalidName(n)) if n == "Minted"));
    assert!(
        matches!(contract.functions_by_name("burn"), Err(AbiError::InvalidName(n)) if n == "burn")
    );
    assert!(matches!(contract.event("mint"), Err(AbiError::InvalidName(n)) if n == "mint"));
    assert!(matches!(contract.events_by_name("min"), Err(AbiError::InvalidName(n)) if n == "min"));
    assert!(matches!(contract.function("mint "), Err(AbiError::InvalidName(n)) if n == "mint "));
}

#[test]
fn no_group_is_empty() {
    let contract = Contract::from_operations(vec![
        Operation::Function(function("a", vec![])),
        Operation::Function(function("b", vec![])),
        Operation::Function(function("a", vec![param("x", "uint8")])),
        Operation::Event(event("E", false)),
    ]);
    for name in ["a", "b"] {
        assert!(!contract.functions_by_name(name).unwrap().is_empty());
    }
    assert!(!contract.events_by_name("E").unwrap().is_empty());
}

#[test]
fn iteration_yields_every_item() {
    let contract = Contract::from_operations(vec![
        Operation::Function(function("b", vec![])),
        Operation::Function(function("a", vec![])),
        Operation::Function(function("b", vec![param("x", "uint8")])),
        Operation::Event(event("E", false)),
        Operation::Event(event("D", false)),
        Operation::Event(event("E", true)),
        Operation::Event(event("E", false)),
    ]);
    let sizes = contract.functions_by_name("a").unwrap().len()
        + contract.functions_by_name("b").unwrap().len();
    assert_eq!(sizes, 3);
    assert_eq!(contract.functions().remaining(), 3);
    assert_eq!(drain_functions(&contract).len(), 3);
    let sizes = contract.events_by_name("D").unwrap().len()
        + contract.events_by_name("E").unwrap().len();
    assert_eq!(sizes, 4);
    assert_eq!(contract.events().remaining(), 4);
    assert_eq!(drain_events(&contract).len(), 4);
}

#[test]
fn iteration_goes_by_name_then_by_presentation() {
    let b1 = function("b", vec![]);
    let a1 = function("a", vec![]);
    let b2 = function("b", vec![param("x", "uint8")]);
    let ab = function("ab", vec![]);
    let upper = function("Z", vec![]);
    let contract = Contract::from_operations(vec![
        Operation::Function(b1.clone()),
        Operation::Function(a1.clone()),
        Operation::Function(b2.clone()),
        Operation::Function(ab.clone()),
        Operation::Function(upper.clone()),
    ]);
    assert_eq!(drain_functions(&contract), vec![upper, a1, ab, b1, b2]);
}

#[test]
fn iteration_orders_names_by_code_point() {
    let plain = event("z", false);
    let accented = event("\u{e9}", false);
    let wide = event("\u{10348}", false);
    let high = event("\u{ffee}", false);
    let contract = Contract::from_operations(vec![
        Operation::Event(wide.clone()),
        Operation::Event(accented.clone()),
        Operation::Event(high.clone()),
        Operation::Event(plain.clone()),
    ]);
    assert_eq!(drain_events(&contract), vec![plain, accented, high, wide]);
}

#[test]
fn iteration_restarts_from_the_start() {
    let contract = Contract::from_operations(vec![
        Operation::Function(function("a", vec![])),
        Operation::Function(function("b", vec![])),
    ]);
    let first = drain_functions(&contract);
    let second = drain_functions(&contract);
    assert_eq!(first, second);
    assert_eq!(first.len(), 2);
}

#[test]
fn walk_steps_one_item_at_a_time() {
    let a = function("a", vec![]);
    let b = function("b", vec![]);
    let contract = Contract::from_operations(vec![
        Operation::Function(b.clone()),
        Operation::Function(a.clone()),
    ]);
    let mut walk = contract.functions();
    assert_eq!(walk.remaining(), 2);
    assert_eq!(walk.next(), Some(&a));
    assert_eq!(walk.remaining(), 1);
    assert_eq!(walk.next(), Some(&b));
    assert_eq!(walk.remaining(), 0);
    assert_eq!(walk.next(), None);
    assert_eq!(walk.next(), None);
}

#[test]
fn scenario_mixed_description() {
    let first = function("transfer", vec![param("to", "address")]);
    let second = function("transfer", vec![param("to", "address"), param("data", "bytes")]);
    let contract = Contract::from_operations(vec![
        Operation::Constructor(constructor("uint256")),
        Operation::Function(first.clone()),
        Operation::Function(second.clone()),
        Operation::Event(event("Transfer", false)),
        Operation::Fallback,
    ]);
    assert_eq!(contract.function("transfer").unwrap(), &first);
    assert_eq!(contract.functions_by_name("transfer").unwrap().len(), 2);
    assert!(contract.fallback());
    assert!(!contract.receive());
    assert!(contract.event("Transfer").is_ok());
    assert!(matches!(contract.event("Unknown"), Err(AbiError::InvalidName(n)) if n == "Unknown"));
    assert_eq!(contract.constructor(), Some(&constructor("uint256")));
}

#[test]
fn scenario_empty_description() {
    let contract = Contract::from_operations(vec![]);
    assert_eq!(contract.constructor(), None);
    assert!(!contract.fallback());
    assert!(!contract.receive());
    assert_eq!(contract.functions().remaining(), 0);
    assert_eq!(contract.events().remaining(), 0);
    assert!(drain_functions(&contract).is_empty());
    assert!(drain_events(&contract).is_empty());
    assert!(
        matches!(contract.function("anything"), Err(AbiError::InvalidName(n)) if n == "anything")
    );
    assert_eq!(contract, Contract::new());
}

#[test]
fn scenario_malformed_source() {
    let text = "[{\"type\": \"function\"";
    let failure = serde_json::from_str::<serde_json::Value>(text).unwrap_err();
    let message = failure.to_string();
    let built = Contract::from_decoded(Err(failure));
    match built {
        Err(AbiError::SerdeJson(e)) => assert_eq!(e.to_string(), message),
        _ => panic!("a malformed source must not give a contract"),
    }
}

#[test]
fn decoded_entries_give_the_contract() {
    let f = function("f", vec![]);
    let ops = vec![Operation::Function(f.clone()), Operation::Receive];
    let contract = Contract::from_decoded(Ok(ops)).unwrap();
    assert_eq!(contract.function("f").unwrap(), &f);
    assert!(contract.receive());
    let direct = Contract::from_operations(vec![Operation::Function(f), Operation::Receive]);
    assert_eq!(contract, direct);
}

#[test]
fn decoder_error_converts_into_malformed_source() {
    let failure = serde_json::from_str::<serde_json::Value>("nope").unwrap_err();
    let line = failure.line();
    let converted = AbiError::from(failure);
    assert!(matches!(converted, AbiError::SerdeJson(e) if e.line() == line));
}

#[test]
fn apply_takes_entries_one_by_one() {
    let mut contract = Contract::new();
    assert!(contract.function("f").is_err());
    contract.apply(Operation::Function(function("f", vec![])));
    assert_eq!(contract.functions_by_name("f").unwrap().len(), 1);
    contract.apply(Operation::Function(function("f", vec![param("x", "uint8")])));
    assert_eq!(contract.functions_by_name("f").unwrap().len(), 2);
    assert!(!contract.fallback());
    contract.apply(Operation::Fallback);
    assert!(contract.fallback());
    contract.apply(Operation::Constructor(constructor("uint8")));
    contract.apply(Operation::Constructor(constructor("uint16")));
    assert_eq!(contract.constructor(), Some(&constructor("uint16")));
}

#[test]
fn empty_name_is_accepted() {
    let f = function("", vec![]);
    let contract = Contract::from_operations(vec![Operation::Function(f.clone())]);
    assert_eq!(contract.function("").unwrap(), &f);
    assert!(contract.function(" ").is_err());
}

#[test]
fn functions_and_events_do_not_share_names() {
    let contract = Contract::from_operations(vec![Operation::Function(function("x", vec![]))]);
    assert!(contract.function("x").is_ok());
    assert!(contract.event("x").is_err());
}

#[test]
fn groups_append_and_get() {
    let mut groups: Groups<u32> = Groups::new();
    assert_eq!(groups.get("a"), None);
    groups.append("b".to_string(), 1);
    groups.append("a".to_string(), 2);
    groups.append("b".to_string(), 3);
    groups.append("c".to_string(), 4);
    groups.append("a".to_string(), 5);
    assert_eq!(groups.get("a"), Some(&vec![2, 5]));
    assert_eq!(groups.get("b"), Some(&vec![1, 3]));
    assert_eq!(groups.get("c"), Some(&vec![4]));
    assert_eq!(groups.get("ab"), None);
    assert_eq!(groups.get(""), None);
    assert_eq!(groups.values(), vec![&2, &5, &1, &3, &4]);
}

#[test]
fn groups_order_prefix_before_longer_name() {
    let mut groups: Groups<u32> = Groups::new();
    groups.append("abc".to_string(), 1);
    groups.append("ab".to_string(), 2);
    groups.append("".to_string(), 3);
    groups.append("abd".to_string(), 4);
    assert_eq!(groups.values(), vec![&3, &2, &1, &4]);
}

#[test]
fn equal_descriptions_give_equal_contracts() {
    let ops = vec![
        Operation::Function(function("b", vec![])),
        Operation::Function(function("a", vec![])),
        Operation::Fallback,
    ];
    let one = Contract::from_operations(ops.clone());
    let two = Contract::from_operations(ops);
    assert_eq!(one, two);
    assert_eq!(one.clone(), two);
}

#[test]
fn lookup_finds_each_of_many_names() {
    let mut groups: Groups<usize> = Groups::new();
    let mut k: usize = 0;
    while k < 101 {
        let n = (k * 37) % 101;
        groups.append(format!("name{:03}", 2 * n), n);
        k += 1;
    }
    let mut n: usize = 0;
    while n < 101 {
        assert_eq!(groups.get(&format!("name{:03}", 2 * n)), Some(&vec![n]));
        assert_eq!(groups.get(&format!("name{:03}", 2 * n + 1)), None);
        n += 1;
    }
    let values = groups.values();
    assert_eq!(values.len(), 101);
    let mut n: usize = 0;
    while n < 101 {
        assert_eq!(*values[n], n);
        n += 1;
    }
    groups.append("name100".to_string(), 1000);
    assert_eq!(groups.get("name100"), Some(&vec![50, 1000]));
    assert_eq!(groups.values().len(), 102);
}

#[test]
fn cloned_groups_hold_the_same_items() {
    let mut groups: Groups<u8> = Groups::new();
    groups.append("y".to_string(), 1);
    groups.append("x".to_string(), 2);
    groups.append("y".to_string(), 3);
    let copy = groups.clone();
    assert_eq!(copy, groups);
    assert_eq!(copy.get("y"), Some(&vec![1, 3]));
    assert_eq!(copy.values(), vec![&2, &1, &3]);
}
