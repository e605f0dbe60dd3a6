use credible_coin::accumulator::{
    prove_member_in_tree, serialize_rows, Action, AggregateError, DeltaAccumulator,
    MembershipProof, ProofError,
};
use credible_coin::entry::MerkleTreeEntry;
use credible_coin::errors::AddressPositionError;
use credible_coin::merkle::MerkleTree;
use credible_coin::position::get_address_position;

fn entry(a: &str, v: i64) -> MerkleTreeEntry {
    MerkleTreeEntry::new(a.to_string(), v)
}

fn columns(rows: &[(&str, i64)]) -> (Vec<String>, Vec<i64>) {
    (
        rows.iter().map(|r| r.0.to_string()).collect(),
        rows.iter().map(|r| r.1).collect(),
    )
}

#[test]
fn aggregation_example() {
    let ledger = vec![entry("addrA", 100), entry("addrB", 50), entry("addrA", 200)];
    let (addresses, values) = columns(&[("addrA", 100)]);
    let acc = DeltaAccumulator::new("secrets.csv".to_string());
    assert_eq!(acc.aggregate(&ledger, &addresses, &values), Ok(100));
}

#[test]
fn aggregation_never_queries_absent_addresses() {
    let ledger = vec![entry("addrA", 100), entry("addrB", 50), entry("addrA", 200)];
    let (addresses, values) = columns(&[("addrA", 100)]);
    let acc = DeltaAccumulator::new(String::new());
    let mut run = acc.start_aggregation(&ledger, &addresses, &values);
    let mut queried = Vec::new();
    let total = loop {
        match run.next_action() {
            Action::Prove(e, position) => {
                queried.push((e.entry_address(), e.entry_value(), position));
                run.record(Ok(MembershipProof::new(true)));
            }
            Action::Finish(t) => break t,
            Action::Abort(e) => panic!("aborted: {:?}", e),
        }
    };
    assert_eq!(queried, vec![("addrA".to_string(), 100, 0)]);
    assert_eq!(total, 100);
}

#[test]
fn cache_answers_repeated_entries() {
    let ledger = vec![entry("addrA", 100), entry("addrC", 5), entry("addrA", 100)];
    let (addresses, values) = columns(&[("addrC", 5), ("addrA", 100)]);
    let acc = DeltaAccumulator::new(String::new());
    let mut run = acc.start_aggregation(&ledger, &addresses, &values);
    let mut calls = 0;
    let total = loop {
        match run.next_action() {
            Action::Prove(e, position) => {
                calls += 1;
                if e.entry_address() == "addrA" {
                    assert_eq!(position, 1);
                }
                run.record(Ok(MembershipProof::new(true)));
            }
            Action::Finish(t) => break t,
            Action::Abort(e) => panic!("aborted: {:?}", e),
        }
    };
    assert_eq!(calls, 2);
    assert_eq!(total, 205);
    assert_eq!(acc.aggregate(&ledger, &addresses, &values), Ok(205));
}

#[test]
fn refuted_and_failed_entries_add_nothing() {
    let ledger = vec![entry("a", 1), entry("b", 2), entry("c", 4)];
    let (addresses, values) = columns(&[("a", 1), ("b", 2), ("c", 4)]);
    let acc = DeltaAccumulator::new(String::new());
    let mut run = acc.start_aggregation(&ledger, &addresses, &values);
    let total = loop {
        match run.next_action() {
            Action::Prove(e, _) => {
                let reply = match e.entry_value() {
                    1 => Ok(MembershipProof::new(true)),
                    2 => Ok(MembershipProof::new(false)),
                    _ => Err(ProofError::Failed),
                };
                run.record(reply);
            }
            Action::Finish(t) => break t,
            Action::Abort(e) => panic!("aborted: {:?}", e),
        }
    };
    assert_eq!(total, 1);
}

#[test]
fn unreachable_backend_aborts() {
    let ledger = vec![entry("a", 1), entry("b", 2)];
    let (addresses, values) = columns(&[("a", 1), ("b", 2)]);
    let acc = DeltaAccumulator::new(String::new());
    let mut run = acc.start_aggregation(&ledger, &addresses, &values);
    match run.next_action() {
        Action::Prove(_, _) => run.record(Err(ProofError::Unavailable)),
        other => panic!("unexpected {:?}", other),
    }
    assert!(matches!(
        run.next_action(),
        Action::Abort(AggregateError::BackendUnavailable)
    ));
}

#[test]
fn overflowing_total_is_an_error() {
    let ledger = vec![entry("a", i64::MAX), entry("b", 1)];
    let (addresses, values) = columns(&[("a", i64::MAX), ("b", 1)]);
    let acc = DeltaAccumulator::new(String::new());
    assert_eq!(
        acc.aggregate(&ledger, &addresses, &values),
        Err(AggregateError::Overflow)
    );
}

#[test]
fn total_near_the_maximum_is_kept() {
    let ledger = vec![entry("a", i64::MAX - 1), entry("b", 1), entry("c", -3)];
    let (addresses, values) = columns(&[("a", i64::MAX - 1), ("b", 1)]);
    let acc = DeltaAccumulator::new(String::new());
    assert_eq!(acc.aggregate(&ledger, &addresses, &values), Ok(i64::MAX));
    let ledger = vec![entry("a", i64::MAX), entry("b", 1), entry("c", -3)];
    let (addresses, values) = columns(&[("a", i64::MAX), ("b", 1), ("c", -3), ("d", 0)]);
    assert_eq!(acc.aggregate(&ledger, &addresses, &values), Ok(i64::MAX - 2));
}

#[test]
fn secret_set_must_form_a_tree() {
    let ledger = vec![entry("a", 1)];
    let (addresses, values) = columns(&[("a", 1), ("b", 2), ("c", 3)]);
    let acc = DeltaAccumulator::new(String::new());
    assert_eq!(
        acc.aggregate(&ledger, &addresses, &values),
        Err(AggregateError::InvalidSecretSet)
    );
}

#[test]
fn grouping_keeps_first_appearance_order() {
    let ledger = vec![entry("b", 1), entry("a", 2), entry("b", 3)];
    let acc = DeltaAccumulator::new(String::new());
    let groups = acc.precompute_matching_entries(&ledger);
    assert_eq!(groups.len(), 2);
    assert_eq!(groups[0].0, "b");
    assert_eq!(groups[0].1, vec![entry("b", 1), entry("b", 3)]);
    assert_eq!(groups[1].0, "a");
    assert_eq!(groups[1].1, vec![entry("a", 2)]);
    let matching = acc.get_all_matching_address_entries(&ledger, "b");
    assert_eq!(matching, vec![entry("b", 1), entry("b", 3)]);
    assert!(acc.get_all_matching_address_entries(&ledger, "z").is_empty());
}

#[test]
fn address_positions() {
    let (addresses, values) = columns(&[("a", 1), ("b", 2), ("a", 3)]);
    assert_eq!(
        get_address_position(&addresses, &values, "a".to_string(), Some(3)).unwrap(),
        2
    );
    assert_eq!(
        get_address_position(&addresses, &values, "a".to_string(), None).unwrap(),
        0
    );
    match get_address_position(&addresses, &values, "a".to_string(), Some(2)) {
        Err(AddressPositionError::NoMatchingIndexForValue(a, v)) => {
            assert_eq!(a, "a");
            assert_eq!(v, 2);
        }
        other => panic!("unexpected {:?}", other),
    }
    match get_address_position(&addresses, &values, "z".to_string(), None) {
        Err(AddressPositionError::NoMatchingAddress(a)) => assert_eq!(a, "z"),
        other => panic!("unexpected {:?}", other),
    }
}

#[test]
fn local_prover_checks_the_leaf() {
    let (addresses, values) = columns(&[("a", 1), ("b", 2)]);
    let tree = MerkleTree::construct(&serialize_rows(&addresses, &values)).unwrap();
    assert_eq!(
        prove_member_in_tree(&tree, &entry("b", 2), 1),
        Ok(MembershipProof::new(true))
    );
    assert_eq!(
        prove_member_in_tree(&tree, &entry("b", 2), 0),
        Ok(MembershipProof::new(false))
    );
    assert_eq!(
        prove_member_in_tree(&tree, &entry("b", 2), 2),
        Err(ProofError::Failed)
    );
    assert!(MembershipProof::new(true).is_member());
}
