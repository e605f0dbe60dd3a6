//! Ledger and secret-set records: an address with a signed value.

use vstd::prelude::*;
use crate::codec::{entry_bytes, entry_text, serialize_pair, combine_address_and_value};

verus! {

/// What rs_merkle's SHA-256 hasher returns for the given bytes.
pub uninterp spec fn leaf_hash_of(data: Seq<u8>) -> Seq<u8>;

/// Relies on `rs_merkle::algorithms::Sha256::hash` (its `Hasher` impl): the
/// SHA-256 digest of the bytes, a function of the bytes alone.
#[verifier::external_body]
pub(crate) fn rs_merkle_hash(data: &[u8]) -> (r: [u8; 32])
    ensures
        r@ == leaf_hash_of(data@),
{
    <rs_merkle::algorithms::Sha256 as rs_merkle::Hasher>::hash(data)
}

/// The (address, value) pairs of a sequence of entries.
pub open spec fn rows_view(entries: Seq<MerkleTreeEntry>) -> Seq<(Seq<char>, i64)> {
    entries.map_values(|e: MerkleTreeEntry| e@)
}

/// One (address, value) record, from the public ledger or from an
/// exchange's secret set. Equality is equality of both fields.
#[derive(Debug, Eq, Hash, Default)]
pub struct MerkleTreeEntry {
    coin_address: String,
    value: i64,
}

impl View for MerkleTreeEntry {
    type V = (Seq<char>, i64);

    closed spec fn view(&self) -> (Seq<char>, i64) {
        (self.coin_address@, self.value)
    }
}

impl PartialEq for MerkleTreeEntry {
    fn eq(&self, other: &MerkleTreeEntry) -> (r: bool)
        ensures
            r == (self@ == other@),
    {
        self.value == other.value && self.coin_address == other.coin_address
    }
}

impl vstd::std_specs::cmp::PartialEqSpecImpl for MerkleTreeEntry {
    open spec fn obeys_eq_spec() -> bool {
        true
    }

    open spec fn eq_spec(&self, other: &MerkleTreeEntry) -> bool {
        self@ == other@
    }
}

impl Clone for MerkleTreeEntry {
    fn clone(&self) -> (r: MerkleTreeEntry)
        ensures
            r@ == self@,
    {
        MerkleTreeEntry { coin_address: self.coin_address.clone(), value: self.value }
    }
}

impl MerkleTreeEntry {
    /// Builds an entry from an address and a value.
    pub fn new(coin_address: String, value: i64) -> (r: MerkleTreeEntry)
        ensures
            r@ == (coin_address@, value),
    {
        MerkleTreeEntry { coin_address, value }
    }

    /// The entry's value.
    pub fn entry_value(&self) -> (r: i64)
        ensures
            r == self@.1,
    {
        self.value
    }

    /// A copy of the entry's address.
    pub fn entry_address(&self) -> (r: String)
        ensures
            r@ == self@.0,
    {
        self.coin_address.clone()
    }

    /// The entry's address, borrowed.
    pub fn address_ref(&self) -> (r: &String)
        ensures
            r@ == self@.0,
    {
        &self.coin_address
    }

    /// Pairs the two columns row by row into entries.
    pub fn create_entries_vector(addresses: Vec<String>, values: Vec<i64>) -> (r: Vec<
        MerkleTreeEntry,
    >)
        requires
            addresses@.len() == values@.len(),
        ensures
            r@.len() == addresses@.len(),
            forall|i: int| 0 <= i < r@.len() ==> #[trigger] r@[i]@ == (addresses@[i]@, values@[i]),
    {
        let mut entries: Vec<MerkleTreeEntry> = Vec::new();
        let mut i: usize = 0;
        while i < addresses.len()
            invariant
                i <= addresses@.len(),
                addresses@.len() == values@.len(),
                entries@.len() == i,
                forall|j: int| 0 <= j < i ==> #[trigger] entries@[j]@ == (addresses@[j]@, values@[j]),
            decreases addresses@.len() - i,
        {
            entries.push(MerkleTreeEntry::new(addresses[i].clone(), values[i]));
            i = i + 1;
        }
        entries
    }

    /// The text `address ++ decimal(value)` that the entry is serialized from.
    pub fn combined_text(&self) -> (r: String)
        ensures
            r@ == entry_text(self@.0, self@.1),
    {
        combine_address_and_value(&self.coin_address, self.value)
    }

    /// Serializes the entry: the binary encoding of `address ++ decimal(value)`.
    pub fn serialize_entry(&self) -> (r: Vec<u8>)
        ensures
            r@ == entry_bytes(self@.0, self@.1),
    {
        serialize_pair(&self.coin_address, self.value)
    }

    /// The SHA-256 digest of the given bytes, as rs_merkle computes it.
    pub fn hash_bytes(bytevector: Vec<u8>) -> (r: [u8; 32])
        ensures
            r@ == leaf_hash_of(bytevector@),
    {
        rs_merkle_hash(bytevector.as_slice())
    }
}

} // verus!
