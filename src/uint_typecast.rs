//! Integer columns turned into their in-memory byte representation, one
//! fixed-size block per integer, ready to be hashed as leaves.

use vstd::prelude::*;
use crate::codec::{be_bytes, le_bytes};

verus! {

/// `bytes` is how an `n`-byte integer `x` sits in memory: little endian or
/// big endian, as the platform has it.
pub open spec fn native_bytes(bytes: Seq<u8>, x: nat, n: nat) -> bool {
    bytes == le_bytes(x, n) || bytes == be_bytes(x, n)
}

/// Relies on `u16::to_ne_bytes`: the integer's memory representation in the
/// platform's byte order, which is little or big endian.
#[verifier::external_body]
fn u16_native_bytes(x: u16) -> (r: [u8; 2])
    ensures
        native_bytes(r@, x as nat, 2),
{
    x.to_ne_bytes()
}

/// Relies on `u32::to_ne_bytes`: the integer's memory representation in the
/// platform's byte order, which is little or big endian.
#[verifier::external_body]
fn u32_native_bytes(x: u32) -> (r: [u8; 4])
    ensures
        native_bytes(r@, x as nat, 4),
{
    x.to_ne_bytes()
}

/// Relies on `u64::to_ne_bytes`: the integer's memory representation in the
/// platform's byte order, which is little or big endian.
#[verifier::external_body]
fn u64_native_bytes(x: u64) -> (r: [u8; 8])
    ensures
        native_bytes(r@, x as nat, 8),
{
    x.to_ne_bytes()
}

/// Relies on `u128::to_ne_bytes`: the integer's memory representation in the
/// platform's byte order, which is little or big endian.
#[verifier::external_body]
fn u128_native_bytes(x: u128) -> (r: [u8; 16])
    ensures
        native_bytes(r@, x as nat, 16),
{
    x.to_ne_bytes()
}

/// The memory representation of each integer of the slice, in order.
pub fn u16_slice_to_byte_vector(slice: &[u16]) -> (r: Vec<[u8; 2]>)
    ensures
        r@.len() == slice@.len(),
        forall|i: int| 0 <= i < r@.len() ==> native_bytes((#[trigger] r@[i])@, slice@[i] as nat, 2),
{
    let mut bytes: Vec<[u8; 2]> = Vec::new();
    let mut i: usize = 0;
    while i < slice.len()
        invariant
            i <= slice@.len(),
            bytes@.len() == i,
            forall|j: int| 0 <= j < i ==> native_bytes((#[trigger] bytes@[j])@, slice@[j] as nat, 2),
        decreases slice@.len() - i,
    {
        bytes.push(u16_native_bytes(slice[i]));
        i = i + 1;
    }
    bytes
}

/// The memory representation of each integer of the vector, in order.
pub fn u16_vector_to_byte_vector(slice: &Vec<u16>) -> (r: Vec<[u8; 2]>)
    ensures
        r@.len() == slice@.len(),
        forall|i: int| 0 <= i < r@.len() ==> native_bytes((#[trigger] r@[i])@, slice@[i] as nat, 2),
{
    let mut bytes: Vec<[u8; 2]> = Vec::new();
    let mut i: usize = 0;
    while i < slice.len()
        invariant
            i <= slice@.len(),
            bytes@.len() == i,
            forall|j: int| 0 <= j < i ==> native_bytes((#[trigger] bytes@[j])@, slice@[j] as nat, 2),
        decreases slice@.len() - i,
    {
        bytes.push(u16_native_bytes(slice[i]));
        i = i + 1;
    }
    bytes
}

/// The memory representation of each integer of the slice, in order.
pub fn u32_slice_to_byte_vector(slice: &[u32]) -> (r: Vec<[u8; 4]>)
    ensures
        r@.len() == slice@.len(),
        forall|i: int| 0 <= i < r@.len() ==> native_bytes((#[trigger] r@[i])@, slice@[i] as nat, 4),
{
    let mut bytes: Vec<[u8; 4]> = Vec::new();
    let mut i: usize = 0;
    while i < slice.len()
        invariant
            i <= slice@.len(),
            bytes@.len() == i,
            forall|j: int| 0 <= j < i ==> native_bytes((#[trigger] bytes@[j])@, slice@[j] as nat, 4),
        decreases slice@.len() - i,
    {
        bytes.push(u32_native_bytes(slice[i]));
        i = i + 1;
    }
    bytes
}

/// The memory representation of each integer of the vector, in order.
pub fn u32_vector_to_byte_vector(slice: &Vec<u32>) -> (r: Vec<[u8; 4]>)
    ensures
        r@.len() == slice@.len(),
        forall|i: int| 0 <= i < r@.len() ==> native_bytes((#[trigger] r@[i])@, slice@[i] as nat, 4),
{
    let mut bytes: Vec<[u8; 4]> = Vec::new();
    let mut i: usize = 0;
    while i < slice.len()
        invariant
            i <= slice@.len(),
            bytes@.len() == i,
            forall|j: int| 0 <= j < i ==> native_bytes((#[trigger] bytes@[j])@, slice@[j] as nat, 4),
        decreases slice@.len() - i,
    {
        bytes.push(u32_native_bytes(slice[i]));
        i = i + 1;
    }
    bytes
}

/// The memory representation of each integer of the slice, in order.
pub fn u64_slice_to_byte_vector(slice: &[u64]) -> (r: Vec<[u8; 8]>)
    ensures
        r@.len() == slice@.len(),
        forall|i: int| 0 <= i < r@.len() ==> native_bytes((#[trigger] r@[i])@, slice@[i] as nat, 8),
{
    let mut bytes: Vec<[u8; 8]> = Vec::new();
    let mut i: usize = 0;
    while i < slice.len()
        invariant
            i <= slice@.len(),
            bytes@.len() == i,
            forall|j: int| 0 <= j < i ==> native_bytes((#[trigger] bytes@[j])@, slice@[j] as nat, 8),
        decreases slice@.len() - i,
    {
        bytes.push(u64_native_bytes(slice[i]));
        i = i + 1;
    }
    bytes
}

/// The memory representation of each integer of the vector, in order.
pub fn u64_vector_to_byte_vector(slice: &Vec<u64>) -> (r: Vec<[u8; 8]>)
    ensures
        r@.len() == slice@.len(),
        forall|i: int| 0 <= i < r@.len() ==> native_bytes((#[trigger] r@[i])@, slice@[i] as nat, 8),
{
    let mut bytes: Vec<[u8; 8]> = Vec::new();
    let mut i: usize = 0;
    while i < slice.len()
        invariant
            i <= slice@.len(),
            bytes@.len() == i,
            forall|j: int| 0 <= j < i ==> native_bytes((#[trigger] bytes@[j])@, slice@[j] as nat, 8),
        decreases slice@.len() - i,
    {
        bytes.push(u64_native_bytes(slice[i]));
        i = i + 1;
    }
    bytes
}

/// The memory representation of each integer of the slice, in order.
pub fn u128_slice_to_byte_vector(slice: &[u128]) -> (r: Vec<[u8; 16]>)
    ensures
        r@.len() == slice@.len(),
        forall|i: int| 0 <= i < r@.len() ==> native_bytes((#[trigger] r@[i])@, slice@[i] as nat, 16),
{
    let mut bytes: Vec<[u8; 16]> = Vec::new();
    let mut i: usize = 0;
    while i < slice.len()
        invariant
            i <= slice@.len(),
            bytes@.len() == i,
            forall|j: int| 0 <= j < i ==> native_bytes((#[trigger] bytes@[j])@, slice@[j] as nat, 16),
        decreases slice@.len() - i,
    {
        bytes.push(u128_native_bytes(slice[i]));
        i = i + 1;
    }
    bytes
}

/// The memory representation of each integer of the vector, in order.
pub fn u128_vector_to_byte_vector(slice: &Vec<u128>) -> (r: Vec<[u8; 16]>)
    ensures
        r@.len() == slice@.len(),
        forall|i: int| 0 <= i < r@.len() ==> native_bytes((#[trigger] r@[i])@, slice@[i] as nat, 16),
{
    let mut bytes: Vec<[u8; 16]> = Vec::new();
    let mut i: usize = 0;
    while i < slice.len()
        invariant
            i <= slice@.len(),
            bytes@.len() == i,
            forall|j: int| 0 <= j < i ==> native_bytes((#[trigger] bytes@[j])@, slice@[j] as nat, 16),
        decreases slice@.len() - i,
    {
        bytes.push(u128_native_bytes(slice[i]));
        i = i + 1;
    }
    bytes
}

} // verus!
