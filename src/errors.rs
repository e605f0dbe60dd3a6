//! Error types shared by the library.

use vstd::prelude::*;

verus! {

/// Failures while validating shell arguments.
#[derive(Debug, Clone, Copy, PartialEq, Eq, Structural)]
pub enum CliError {
    /// The number of arguments differs from the number expected.
    UnexpectedNumberOfArguments {
        /// How many arguments were expected.
        expected: usize,
        /// How many arguments were given.
        actual: usize,
    },
    /// The argument at this position is empty.
    EmptyArgument {
        /// Index of the empty argument.
        arg_position: usize,
    },
}

/// Failures while looking up the row of an address in a ledger or secret set.
#[derive(Debug)]
pub enum AddressPositionError {
    /// No row holds this address with this value.
    NoMatchingIndexForValue(String, i64),
    /// No row holds this address.
    NoMatchingAddress(String),
    /// No row holds this address with this value (value in decimal).
    NoMatchingIndices {
        /// The address looked for.
        address: String,
        /// The value looked for, in decimal.
        value: String,
    },
}

} // verus!
