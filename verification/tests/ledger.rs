use runjs::ledger::TaskLedger;

#[test]
fn claim_on_empty_ledger_is_none() {
    let mut l = TaskLedger::new();
    assert!(l.claim_next().is_none());
    assert_eq!(l.registered_len(), 0);
    assert_eq!(l.assigned_len(), 0);
}

#[test]
fn register_then_claim_returns_id() {
    let mut l = TaskLedger::new();
    l.register(String::from("task-1"));
    assert_eq!(l.registered_len(), 1);
    let got = l.claim_next();
    assert_eq!(got, Some(String::from("task-1")));
    assert_eq!(l.registered_len(), 0);
    assert_eq!(l.assigned_len(), 1);
}

#[test]
fn register_twice_keeps_id_once() {
    let mut l = TaskLedger::new();
    l.register(String::from("dup"));
    l.register(String::from("dup"));
    assert_eq!(l.registered_len(), 1);
    assert_eq!(l.claim_next(), Some(String::from("dup")));
    assert!(l.claim_next().is_none());
}

#[test]
fn register_of_assigned_id_is_noop() {
    let mut l = TaskLedger::new();
    l.register(String::from("once"));
    assert_eq!(l.claim_next(), Some(String::from("once")));
    l.register(String::from("once"));
    assert_eq!(l.registered_len(), 0);
    assert!(l.claim_next().is_none());
    assert_eq!(l.assigned_len(), 1);
}

#[test]
fn claims_come_out_in_ascending_order() {
    let mut l = TaskLedger::new();
    l.register(String::from("b"));
    l.register(String::from("c"));
    l.register(String::from("a"));
    assert_eq!(l.claim_next(), Some(String::from("a")));
    assert_eq!(l.claim_next(), Some(String::from("b")));
    assert_eq!(l.claim_next(), Some(String::from("c")));
    assert!(l.claim_next().is_none());
}

#[test]
fn registration_order_does_not_matter() {
    let orders: [[&str; 3]; 3] = [["a", "b", "c"], ["c", "b", "a"], ["b", "a", "c"]];
    for order in orders.iter() {
        let mut l = TaskLedger::new();
        for id in order.iter() {
            l.register(String::from(*id));
        }
        assert_eq!(l.claim_next(), Some(String::from("a")));
        assert_eq!(l.claim_next(), Some(String::from("b")));
        assert_eq!(l.claim_next(), Some(String::from("c")));
    }
}

#[test]
fn each_id_is_claimed_exactly_once() {
    let mut l = TaskLedger::new();
    l.register(String::from("x"));
    l.register(String::from("y"));
    let mut seen: Vec<String> = Vec::new();
    for _ in 0..5 {
        if let Some(id) = l.claim_next() {
            assert!(!seen.contains(&id));
            seen.push(id);
        }
    }
    // with 2 ids registered and 5 claims, exactly min(2, 5) succeed
    assert_eq!(seen.len(), 2);
}

#[test]
fn a_smaller_id_registered_later_is_claimed_next() {
    let mut l = TaskLedger::new();
    l.register(String::from("m"));
    assert_eq!(l.claim_next(), Some(String::from("m")));
    l.register(String::from("z"));
    l.register(String::from("a"));
    assert_eq!(l.claim_next(), Some(String::from("a")));
    assert_eq!(l.claim_next(), Some(String::from("z")));
}

#[test]
fn longer_id_with_equal_prefix_comes_second() {
    let mut l = TaskLedger::new();
    l.register(String::from("ab"));
    l.register(String::from("a"));
    assert_eq!(l.claim_next(), Some(String::from("a")));
    assert_eq!(l.claim_next(), Some(String::from("ab")));
}
