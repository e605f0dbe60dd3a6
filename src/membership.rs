//! Proving that an address of a ledger is in the Merkle tree built over
//! that ledger.

use vstd::prelude::*;
use crate::codec::{entry_bytes, serialize_pair};
use crate::errors::AddressPositionError;
use crate::accumulator::serialize_rows;
use crate::merkle::{blocks_view, is_pow2, lemma_proof_round_trip, proves, verify_merkle_proof, Error, MerkleTree};
use crate::position::{column_view, first_entry_row, get_address_position, has_address_row, has_entry_row};

verus! {

/// The value on the last row holding address `a`, if any: the value an
/// address-to-value map filled row by row would keep.
pub open spec fn last_value(addresses: Seq<Seq<char>>, values: Seq<i64>, a: Seq<char>) -> Option<i64>
    decreases addresses.len(),
{
    if addresses.len() == 0 || values.len() == 0 {
        None
    } else if addresses.last() == a {
        Some(values.last())
    } else {
        last_value(addresses.drop_last(), values.drop_last(), a)
    }
}

/// The value whose membership is checked: the one given, else the value on
/// the address's last row.
pub open spec fn checked_value(
    addresses: Seq<Seq<char>>,
    values: Seq<i64>,
    a: Seq<char>,
    value: Option<i64>,
) -> i64 {
    match value {
        Some(v) => v,
        None => last_value(addresses, values, a)->Some_0,
    }
}

/// Membership of address `a` is shown in `tree`: the address is on some row,
/// and the first row holding it with the checked value is a leaf whose proof
/// leads from the pair's bytes to the root.
pub open spec fn membership_shown(
    addresses: Seq<Seq<char>>,
    values: Seq<i64>,
    a: Seq<char>,
    value: Option<i64>,
    tree: MerkleTree,
) -> bool {
    let v = checked_value(addresses, values, a, value);
    &&& has_address_row(addresses, a)
    &&& has_entry_row(addresses, values, a, v)
    &&& forall|i: int|
        first_entry_row(addresses, values, a, v, i) ==> i < tree.leaf_count() && proves(
            tree.proof_for(i),
            entry_bytes(a, v),
            tree.root(),
        )
}

/// The values after setting every row holding address `a` to `v`.
pub open spec fn replaced_values(addresses: Seq<Seq<char>>, values: Seq<i64>, a: Seq<char>, v: i64) -> Seq<i64> {
    Seq::new(values.len(), |i: int| if addresses[i] == a { v } else { values[i] })
}

/// Why membership of an address could not be shown.
#[derive(Debug)]
pub enum MembershipError {
    /// No row holds the address.
    AddressNotFound(String),
    /// No row holds the address with the value.
    Position(AddressPositionError),
    /// The row is not a leaf of the tree.
    Proof(Error),
    /// The proof does not lead to the tree's root.
    VerificationFailed,
}

proof fn lemma_last_value_found(addresses: Seq<Seq<char>>, values: Seq<i64>, a: Seq<char>)
    requires
        addresses.len() == values.len(),
    ensures
        last_value(addresses, values, a) is Some <==> has_address_row(addresses, a),
    decreases addresses.len(),
{
    if addresses.len() > 0 {
        lemma_last_value_found(addresses.drop_last(), values.drop_last(), a);
        if has_address_row(addresses, a) && addresses.last() != a {
            let i = choose|i: int| 0 <= i < addresses.len() && addresses[i] == a;
            assert(addresses.drop_last()[i] == a);
        }
        if has_address_row(addresses.drop_last(), a) {
            let i = choose|i: int| 0 <= i < addresses.len() - 1 && addresses.drop_last()[i] == a;
            assert(addresses[i] == a);
        }
        if addresses.last() == a {
            assert(addresses[addresses.len() - 1] == a);
        }
    }
}

/// The value on the last row holding `address`.
fn value_of_address(addresses: &Vec<String>, values: &Vec<i64>, address: &String) -> (r: Option<i64>)
    requires
        addresses@.len() == values@.len(),
    ensures
        r == last_value(column_view(addresses@), values@, address@),
{
    let ghost cols = column_view(addresses@);
    let mut latest: Option<i64> = None;
    let mut i: usize = 0;
    while i < addresses.len()
        invariant
            addresses@.len() == values@.len(),
            cols == column_view(addresses@),
            i <= addresses@.len(),
            latest == last_value(cols.take(i as int), values@.take(i as int), address@),
        decreases addresses@.len() - i,
    {
        proof {
            assert(cols.take(i + 1).drop_last() == cols.take(i as int));
            assert(values@.take(i + 1).drop_last() == values@.take(i as int));
            assert(cols.take(i + 1).last() == addresses@[i as int]@);
        }
        if addresses[i] == *address {
            latest = Some(values[i]);
        }
        i = i + 1;
    }
    assert(cols.take(cols.len() as int) == cols);
    assert(values@.take(values@.len() as int) == values@);
    latest
}

/// Shows that `public_address` is in the tree built over the ledger's rows.
/// The value checked is `value` when given, else the value on the address's
/// last row; the row is the first holding the address with that value, and
/// the proof for that leaf must lead from the pair's bytes to the root.
pub fn prove_membership(
    addresses: &Vec<String>,
    values: &Vec<i64>,
    public_address: &String,
    value: Option<i64>,
    tree: &MerkleTree,
) -> (r: Result<(), MembershipError>)
    requires
        addresses@.len() == values@.len(),
        tree.wf(),
    ensures
        r is Ok == membership_shown(column_view(addresses@), values@, public_address@, value, *tree),
        ({
            let cols = column_view(addresses@);
            let a = public_address@;
            let v = checked_value(cols, values@, a, value);
            if !has_address_row(cols, a) {
                r matches Err(MembershipError::AddressNotFound(s)) && s@ == a
            } else if !has_entry_row(cols, values@, a, v) {
                r matches Err(MembershipError::Position(_))
            } else {
                forall|i: int|
                    first_entry_row(cols, values@, a, v, i) ==> if i >= tree.leaf_count() {
                        r matches Err(MembershipError::Proof(Error::IndexIsNotALeaf))
                    } else if proves(tree.proof_for(i), entry_bytes(a, v), tree.root()) {
                        r matches Ok(())
                    } else {
                        r matches Err(MembershipError::VerificationFailed)
                    }
            }
        }),
{
    let ghost cols = column_view(addresses@);
    proof {
        lemma_last_value_found(cols, values@, public_address@);
    }
    let map_value = match value_of_address(addresses, values, public_address) {
        Some(v) => v,
        None => {
            return Err(MembershipError::AddressNotFound(public_address.clone()));
        },
    };
    let checked = match value {
        Some(v) => v,
        None => map_value,
    };
    let index = match get_address_position(addresses, values, public_address.clone(), Some(checked)) {
        Ok(i) => i,
        Err(e) => {
            return Err(MembershipError::Position(e));
        },
    };
    let proof = match tree.get_merkle_proof_by_index(index) {
        Ok(p) => p,
        Err(e) => {
            return Err(MembershipError::Proof(e));
        },
    };
    let bytes = serialize_pair(public_address, checked);
    let root = tree.root_hash();
    if !verify_merkle_proof(&proof, &bytes, &root) {
        return Err(MembershipError::VerificationFailed);
    }
    Ok(())
}

/// Sets every row holding `address` to `value`.
fn replace_values(addresses: &Vec<String>, values: &Vec<i64>, address: &String, value: i64) -> (r: Vec<i64>)
    requires
        addresses@.len() == values@.len(),
    ensures
        r@ == replaced_values(column_view(addresses@), values@, address@, value),
{
    let ghost cols = column_view(addresses@);
    let mut out: Vec<i64> = Vec::new();
    let mut i: usize = 0;
    while i < values.len()
        invariant
            addresses@.len() == values@.len(),
            cols == column_view(addresses@),
            i <= values@.len(),
            out@ == replaced_values(cols, values@, address@, value).take(i as int),
        decreases values@.len() - i,
    {
        if addresses[i] == *address {
            out.push(value);
        } else {
            out.push(values[i]);
        }
        proof {
            assert(out@ =~= replaced_values(cols, values@, address@, value).take(i + 1));
        }
        i = i + 1;
    }
    assert(replaced_values(cols, values@, address@, value).take(values@.len() as int) =~= replaced_values(
        cols,
        values@,
        address@,
        value,
    ));
    out
}

/// Updates the value of `public_address`: checks that the address's current
/// pair is in `tree`, sets every row holding the address to `new_value`,
/// rebuilds the tree over the updated rows, and checks the new pair in it.
/// Returns the updated values and the new tree.
pub fn update_coin(
    addresses: &Vec<String>,
    values: &Vec<i64>,
    public_address: &String,
    new_value: u32,
    tree: &MerkleTree,
) -> (r: Result<(Vec<i64>, MerkleTree), MembershipError>)
    requires
        addresses@.len() == values@.len(),
        tree.wf(),
    ensures
        ({
            let cols = column_view(addresses@);
            let a = public_address@;
            let updated = replaced_values(cols, values@, a, new_value as i64);
            match r {
                Ok((vals, t)) => membership_shown(cols, values@, a, None, *tree) && is_pow2(
                    addresses@.len(),
                ) && vals@ == updated && t.built_from(
                    Seq::new(addresses@.len(), |i: int| entry_bytes(cols[i], updated[i])),
                ),
                Err(_) => !membership_shown(cols, values@, a, None, *tree) || !is_pow2(
                    addresses@.len(),
                ),
            }
        }),
{
    let ghost cols = column_view(addresses@);
    let ghost a = public_address@;
    let value = new_value as i64;
    match prove_membership(addresses, values, public_address, None, tree) {
        Ok(()) => {},
        Err(e) => {
            return Err(e);
        },
    }
    let new_values = replace_values(addresses, values, public_address, value);
    let blocks = serialize_rows(addresses, &new_values);
    let ghost bv = blocks_view(blocks@);
    let ghost expected = Seq::new(
        addresses@.len(),
        |i: int| entry_bytes(cols[i], replaced_values(cols, values@, a, value)[i]),
    );
    assert(bv =~= expected);
    let new_tree = match MerkleTree::construct(blocks.as_slice()) {
        Ok(t) => t,
        Err(e) => {
            return Err(MembershipError::Proof(e));
        },
    };
    proof {
        let k = choose|k: int| 0 <= k < cols.len() && cols[k] == a;
        assert(new_values@[k] == value);
        assert(has_entry_row(cols, new_values@, a, value));
        assert forall|i: int| first_entry_row(cols, new_values@, a, value, i) implies i
            < new_tree.leaf_count() && proves(new_tree.proof_for(i), entry_bytes(a, value), new_tree.root()) by {
            lemma_proof_round_trip(&new_tree, bv, i);
        }
        assert(membership_shown(cols, new_values@, a, Some(value), new_tree));
    }
    match prove_membership(addresses, &new_values, public_address, Some(value), &new_tree) {
        Ok(()) => Ok((new_values, new_tree)),
        Err(e) => Err(e),
    }
}

} // verus!
