use credible_coin::accumulator::serialize_rows;
use credible_coin::membership::{prove_membership, update_coin, MembershipError};
use credible_coin::merkle::{Error, MerkleTree};

fn ledger() -> (Vec<String>, Vec<i64>) {
    (
        vec!["a".to_string(), "b".to_string(), "a".to_string(), "c".to_string()],
        vec![1, 2, 3, 4],
    )
}

fn tree_of(addresses: &Vec<String>, values: &Vec<i64>) -> MerkleTree {
    MerkleTree::construct(&serialize_rows(addresses, values)).unwrap()
}

#[test]
fn membership_with_and_without_value() {
    let (addresses, values) = ledger();
    let tree = tree_of(&addresses, &values);
    let a = "a".to_string();
    assert!(prove_membership(&addresses, &values, &a, Some(1), &tree).is_ok());
    assert!(prove_membership(&addresses, &values, &a, Some(3), &tree).is_ok());
    assert!(prove_membership(&addresses, &values, &a, None, &tree).is_ok());
    assert!(matches!(
        prove_membership(&addresses, &values, &a, Some(2), &tree),
        Err(MembershipError::Position(_))
    ));
    match prove_membership(&addresses, &values, &"z".to_string(), None, &tree) {
        Err(MembershipError::AddressNotFound(s)) => assert_eq!(s, "z"),
        other => panic!("unexpected {:?}", other),
    }
}

#[test]
fn membership_fails_against_another_tree() {
    let (addresses, values) = ledger();
    let other = tree_of(&addresses, &vec![9, 9, 9, 9]);
    assert!(matches!(
        prove_membership(&addresses, &values, &"b".to_string(), None, &other),
        Err(MembershipError::VerificationFailed)
    ));
    let small = tree_of(&vec!["x".to_string()], &vec![0]);
    assert!(matches!(
        prove_membership(&addresses, &values, &"c".to_string(), None, &small),
        Err(MembershipError::Proof(Error::IndexIsNotALeaf))
    ));
}

#[test]
fn update_rebuilds_the_tree() {
    let (addresses, values) = ledger();
    let tree = tree_of(&addresses, &values);
    let (new_values, new_tree) = update_coin(&addresses, &values, &"a".to_string(), 7, &tree).unwrap();
    assert_eq!(new_values, vec![7, 2, 7, 4]);
    assert_eq!(new_tree.root_hash(), tree_of(&addresses, &new_values).root_hash());
    assert_ne!(new_tree.root_hash(), tree.root_hash());
    assert!(prove_membership(&addresses, &new_values, &"a".to_string(), Some(7), &new_tree).is_ok());
    assert!(update_coin(&addresses, &values, &"z".to_string(), 7, &tree).is_err());
}
