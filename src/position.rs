//! Row lookup in a ledger or secret set held as two columns: addresses and
//! values, row by row.

use vstd::prelude::*;
use crate::codec::{decimal, decimal_string};
use crate::entry::MerkleTreeEntry;
use crate::errors::AddressPositionError;

verus! {

/// The address column as text.
pub open spec fn column_view(addresses: Seq<String>) -> Seq<Seq<char>> {
    addresses.map_values(|a: String| a@)
}

/// Row `i` is the first row holding address `a`.
pub open spec fn first_address_row(addresses: Seq<Seq<char>>, a: Seq<char>, i: int) -> bool {
    &&& 0 <= i < addresses.len()
    &&& addresses[i] == a
    &&& forall|j: int| 0 <= j < i ==> addresses[j] != a
}

/// Row `i` is the first row holding address `a` with value `v`.
pub open spec fn first_entry_row(
    addresses: Seq<Seq<char>>,
    values: Seq<i64>,
    a: Seq<char>,
    v: i64,
    i: int,
) -> bool {
    &&& 0 <= i < addresses.len()
    &&& addresses[i] == a
    &&& values[i] == v
    &&& forall|j: int| 0 <= j < i ==> !(addresses[j] == a && values[j] == v)
}

/// Some row holds address `a` with value `v`.
pub open spec fn has_entry_row(addresses: Seq<Seq<char>>, values: Seq<i64>, a: Seq<char>, v: i64) -> bool {
    exists|i: int| 0 <= i < addresses.len() && addresses[i] == a && values[i] == v
}

/// Some row holds address `a`.
pub open spec fn has_address_row(addresses: Seq<Seq<char>>, a: Seq<char>) -> bool {
    exists|i: int| 0 <= i < addresses.len() && addresses[i] == a
}

/// The first row that holds both `address` and `value`.
fn find_matching_indices(
    first_vector: &Vec<String>,
    address: &String,
    second_vector: &Vec<i64>,
    value: i64,
) -> (r: Result<usize, AddressPositionError>)
    requires
        first_vector@.len() == second_vector@.len(),
    ensures
        match r {
            Ok(i) => first_entry_row(column_view(first_vector@), second_vector@, address@, value, i as int),
            Err(AddressPositionError::NoMatchingIndices { address: a, value: v }) => !has_entry_row(
                column_view(first_vector@),
                second_vector@,
                address@,
                value,
            ) && a@ == address@ && v@ == decimal(value as int),
            Err(_) => false,
        },
{
    let mut i: usize = 0;
    while i < first_vector.len()
        invariant
            first_vector@.len() == second_vector@.len(),
            i <= first_vector@.len(),
            forall|j: int|
                0 <= j < i ==> !(#[trigger] column_view(first_vector@)[j] == address@
                    && second_vector@[j] == value),
        decreases first_vector@.len() - i,
    {
        if first_vector[i] == *address && second_vector[i] == value {
            assert(column_view(first_vector@)[i as int] == address@);
            return Ok(i);
        }
        i = i + 1;
    }
    assert(!has_entry_row(column_view(first_vector@), second_vector@, address@, value));
    Err(
        AddressPositionError::NoMatchingIndices {
            address: address.clone(),
            value: decimal_string(value),
        },
    )
}

/// The row of `public_address` in the two columns. With a value, the row
/// must hold that value too; without one, the first row with the address
/// is taken.
pub fn get_address_position(
    addresses: &Vec<String>,
    values: &Vec<i64>,
    public_address: String,
    value: Option<i64>,
) -> (r: Result<usize, AddressPositionError>)
    requires
        addresses@.len() == values@.len(),
    ensures
        match value {
            Some(v) => match r {
                Ok(i) => first_entry_row(column_view(addresses@), values@, public_address@, v, i as int),
                Err(AddressPositionError::NoMatchingIndexForValue(a, w)) => !has_entry_row(
                    column_view(addresses@),
                    values@,
                    public_address@,
                    v,
                ) && a@ == public_address@ && w == v,
                Err(_) => false,
            },
            None => match r {
                Ok(i) => first_address_row(column_view(addresses@), public_address@, i as int),
                Err(AddressPositionError::NoMatchingAddress(a)) => !has_address_row(
                    column_view(addresses@),
                    public_address@,
                ) && a@ == public_address@,
                Err(_) => false,
            },
        },
{
    match value {
        Some(val) => match find_matching_indices(addresses, &public_address, values, val) {
            Ok(i) => Ok(i),
            Err(_) => Err(AddressPositionError::NoMatchingIndexForValue(public_address, val)),
        },
        None => {
            let mut i: usize = 0;
            while i < addresses.len()
                invariant
                    value is None,
                    i <= addresses@.len(),
                    forall|j: int| 0 <= j < i ==> #[trigger] column_view(addresses@)[j] != public_address@,
                decreases addresses@.len() - i,
            {
                if addresses[i] == public_address {
                    assert(column_view(addresses@)[i as int] == public_address@);
                    return Ok(i);
                }
                i = i + 1;
            }
            assert(!has_address_row(column_view(addresses@), public_address@));
            Err(AddressPositionError::NoMatchingAddress(public_address))
        },
    }
}

/// Pairs the two columns row by row into entries.
pub fn into_merkle_tree_entries(set: (Vec<String>, Vec<i64>)) -> (r: Vec<MerkleTreeEntry>)
    requires
        set.0@.len() == set.1@.len(),
    ensures
        r@.len() == set.0@.len(),
        forall|i: int| 0 <= i < r@.len() ==> #[trigger] r@[i]@ == (set.0@[i]@, set.1@[i]),
{
    let (addresses, values) = set;
    MerkleTreeEntry::create_entries_vector(addresses, values)
}

} // verus!
