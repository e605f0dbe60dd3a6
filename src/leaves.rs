//! Leaf hashes for a ledger or secret set held as two columns.

use vstd::prelude::*;
use crate::codec::entry_bytes;
use crate::coin::Coin;
use crate::entry::{leaf_hash_of, MerkleTreeEntry};

verus! {

/// The leaf hash of each row: the digest of the row's serialized
/// (address, value) pair, computed through coins.
pub fn load_merkle_leaves(addresses: Vec<String>, values: Vec<i64>) -> (r: Vec<[u8; 32]>)
    requires
        addresses@.len() == values@.len(),
    ensures
        r@.len() == addresses@.len(),
        forall|i: int|
            0 <= i < r@.len() ==> (#[trigger] r@[i])@ == leaf_hash_of(entry_bytes(addresses@[i]@, values@[i])),
{
    let ghost a = addresses@;
    let ghost v = values@;
    let coins = Coin::create_coin_vector(addresses, values);
    let mut leaves: Vec<[u8; 32]> = Vec::new();
    let mut i: usize = 0;
    while i < coins.len()
        invariant
            coins@.len() == a.len(),
            forall|j: int| 0 <= j < coins@.len() ==> #[trigger] coins@[j]@ == (a[j]@, v[j]),
            i <= coins@.len(),
            leaves@.len() == i,
            forall|j: int| 0 <= j < i ==> (#[trigger] leaves@[j])@ == leaf_hash_of(entry_bytes(a[j]@, v[j])),
        decreases coins@.len() - i,
    {
        leaves.push(Coin::hash_bytes(coins[i].serialize_coin()));
        i = i + 1;
    }
    leaves
}

/// The leaf hash of each row: the digest of the row's serialized
/// (address, value) pair, computed through entries.
pub fn load_merkle_leaves_from_csv(addresses: Vec<String>, values: Vec<i64>) -> (r: Vec<[u8; 32]>)
    requires
        addresses@.len() == values@.len(),
    ensures
        r@.len() == addresses@.len(),
        forall|i: int|
            0 <= i < r@.len() ==> (#[trigger] r@[i])@ == leaf_hash_of(entry_bytes(addresses@[i]@, values@[i])),
{
    let ghost a = addresses@;
    let ghost v = values@;
    let entries = MerkleTreeEntry::create_entries_vector(addresses, values);
    let mut leaves: Vec<[u8; 32]> = Vec::new();
    let mut i: usize = 0;
    while i < entries.len()
        invariant
            entries@.len() == a.len(),
            forall|j: int| 0 <= j < entries@.len() ==> #[trigger] entries@[j]@ == (a[j]@, v[j]),
            i <= entries@.len(),
            leaves@.len() == i,
            forall|j: int| 0 <= j < i ==> (#[trigger] leaves@[j])@ == leaf_hash_of(entry_bytes(a[j]@, v[j])),
        decreases entries@.len() - i,
    {
        leaves.push(MerkleTreeEntry::hash_bytes(entries[i].serialize_entry()));
        i = i + 1;
    }
    leaves
}

} // verus!
