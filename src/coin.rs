//! Other record shapes built on the entry codec: a coin, a ledger delta, and
//! a tree node wrapping a coin.

use vstd::prelude::*;
use crate::codec::{entry_bytes, serialize_pair};
use crate::entry::{leaf_hash_of, rs_merkle_hash};

verus! {

/// A coin: an address holding a value.
#[derive(Debug)]
pub struct Coin {
    coin_address: String,
    value: i64,
}

impl View for Coin {
    type V = (Seq<char>, i64);

    closed spec fn view(&self) -> (Seq<char>, i64) {
        (self.coin_address@, self.value)
    }
}

impl Clone for Coin {
    fn clone(&self) -> (r: Coin)
        ensures
            r@ == self@,
    {
        Coin { coin_address: self.coin_address.clone(), value: self.value }
    }
}

impl Coin {
    /// A coin from an address and a value.
    pub fn new(coin_address: String, value: i64) -> (r: Coin)
        ensures
            r@ == (coin_address@, value),
    {
        Coin { coin_address, value }
    }

    /// The coin's value.
    pub fn coin_value(&self) -> (r: i64)
        ensures
            r == self@.1,
    {
        self.value
    }

    /// A copy of the coin's address.
    pub fn coin_address(&self) -> (r: String)
        ensures
            r@ == self@.0,
    {
        self.coin_address.clone()
    }

    /// Pairs the two columns row by row into coins.
    pub fn create_coin_vector(addresses: Vec<String>, values: Vec<i64>) -> (r: Vec<Coin>)
        requires
            addresses@.len() == values@.len(),
        ensures
            r@.len() == addresses@.len(),
            forall|i: int| 0 <= i < r@.len() ==> #[trigger] r@[i]@ == (addresses@[i]@, values@[i]),
    {
        let mut coins: Vec<Coin> = Vec::new();
        let mut i: usize = 0;
        while i < addresses.len()
            invariant
                i <= addresses@.len(),
                addresses@.len() == values@.len(),
                coins@.len() == i,
                forall|j: int| 0 <= j < i ==> #[trigger] coins@[j]@ == (addresses@[j]@, values@[j]),
            decreases addresses@.len() - i,
        {
            coins.push(Coin::new(addresses[i].clone(), values[i]));
            i = i + 1;
        }
        coins
    }

    /// Serializes the coin: the binary encoding of `address ++ decimal(value)`.
    pub fn serialize_coin(&self) -> (r: Vec<u8>)
        ensures
            r@ == entry_bytes(self@.0, self@.1),
    {
        serialize_pair(&self.coin_address, self.value)
    }

    /// The SHA-256 digest of the given bytes, as rs_merkle computes it.
    pub fn hash_bytes(bytevector: Vec<u8>) -> (r: [u8; 32])
        ensures
            r@ == leaf_hash_of(bytevector@),
    {
        rs_merkle_hash(bytevector.as_slice())
    }
}

/// An address with the change of its value, as the public ledger records it.
#[derive(Debug)]
pub struct Delta {
    address: String,
    delta_value: i64,
}

impl View for Delta {
    type V = (Seq<char>, i64);

    closed spec fn view(&self) -> (Seq<char>, i64) {
        (self.address@, self.delta_value)
    }
}

impl Delta {
    /// A delta from an address and a value.
    pub fn new(address: String, value: i64) -> (r: Delta)
        ensures
            r@ == (address@, value),
    {
        Delta { address, delta_value: value }
    }

    /// The delta's value.
    pub fn delta_value(&self) -> (r: i64)
        ensures
            r == self@.1,
    {
        self.delta_value
    }

    /// A copy of the delta's address.
    pub fn address(&self) -> (r: String)
        ensures
            r@ == self@.0,
    {
        self.address.clone()
    }

    /// Serializes the delta: the binary encoding of `address ++ decimal(value)`.
    pub fn serialize_entry(&self) -> (r: Vec<u8>)
        ensures
            r@ == entry_bytes(self@.0, self@.1),
    {
        serialize_pair(&self.address, self.delta_value)
    }

    /// The SHA-256 digest of the given bytes, as rs_merkle computes it.
    pub fn hash_bytes(bytevector: Vec<u8>) -> (r: [u8; 32])
        ensures
            r@ == leaf_hash_of(bytevector@),
    {
        rs_merkle_hash(bytevector.as_slice())
    }
}

/// A tree node wrapping a coin.
#[derive(Debug)]
pub struct MerkleNode {
    pub coin: Coin,
}

impl MerkleNode {
    /// A node for the coin.
    pub fn new(coin: Coin) -> (r: MerkleNode)
        ensures
            r.coin@ == coin@,
    {
        MerkleNode { coin }
    }

    /// The node's bytes: its coin serialized.
    pub fn into_bytevec(node: &MerkleNode) -> (r: Vec<u8>)
        ensures
            r@ == entry_bytes(node.coin@.0, node.coin@.1),
    {
        node.coin.serialize_coin()
    }
}

/// Wraps each coin in a node, in order.
pub fn from_vec_coins_to_vec_nodes(vec_coin: Vec<Coin>) -> (r: Vec<MerkleNode>)
    ensures
        r@.len() == vec_coin@.len(),
        forall|i: int| 0 <= i < r@.len() ==> (#[trigger] r@[i]).coin@ == vec_coin@[i]@,
{
    let mut vec_nodes: Vec<MerkleNode> = Vec::new();
    let mut i: usize = 0;
    while i < vec_coin.len()
        invariant
            i <= vec_coin@.len(),
            vec_nodes@.len() == i,
            forall|j: int| 0 <= j < i ==> (#[trigger] vec_nodes@[j]).coin@ == vec_coin@[j]@,
        decreases vec_coin@.len() - i,
    {
        vec_nodes.push(MerkleNode { coin: vec_coin[i].clone() });
        i = i + 1;
    }
    vec_nodes
}

} // verus!
