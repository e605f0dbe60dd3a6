//! Byte and text encodings used to turn entries into hash inputs.

use vstd::prelude::*;
use vstd::string::StringExecFns;
use vstd::utf8::encode_utf8;

verus! {

/// The `n` least significant bytes of `x`, least significant first.
pub open spec fn le_bytes(x: nat, n: nat) -> Seq<u8>
    decreases n,
{
    if n == 0 {
        Seq::empty()
    } else {
        seq![(x % 256) as u8] + le_bytes(x / 256, (n - 1) as nat)
    }
}

/// The `n` least significant bytes of `x`, most significant first.
pub open spec fn be_bytes(x: nat, n: nat) -> Seq<u8> {
    le_bytes(x, n).reverse()
}

/// The character of a decimal digit.
pub open spec fn digit_char(d: nat) -> char {
    seq!['0', '1', '2', '3', '4', '5', '6', '7', '8', '9'][(d % 10) as int]
}

/// Base-ten digits of `n`, most significant first, without leading zeros.
pub open spec fn decimal_digits(n: nat) -> Seq<char>
    decreases n,
{
    if n < 10 {
        seq![digit_char(n)]
    } else {
        decimal_digits(n / 10).push(digit_char(n % 10))
    }
}

/// Decimal rendering of a signed integer, with a leading `-` when negative.
pub open spec fn decimal(v: int) -> Seq<char> {
    if v < 0 {
        seq!['-'] + decimal_digits((-v) as nat)
    } else {
        decimal_digits(v as nat)
    }
}

/// The binary encoding of a string: its UTF-8 length as eight little-endian
/// bytes, then its UTF-8 bytes.
pub open spec fn encoded_str(s: Seq<char>) -> Seq<u8> {
    le_bytes(encode_utf8(s).len(), 8) + encode_utf8(s)
}

/// The text hashed for an entry: the address followed directly by the
/// decimal value, with no separator.
pub open spec fn entry_text(address: Seq<char>, value: i64) -> Seq<char> {
    address + decimal(value as int)
}

/// The bytes an entry is serialized to.
pub open spec fn entry_bytes(address: Seq<char>, value: i64) -> Seq<u8> {
    encoded_str(entry_text(address, value))
}

/// The one-character text of a decimal digit.
fn digit_str(d: u64) -> (r: &'static str)
    requires
        d < 10,
    ensures
        r@ == seq![digit_char(d as nat)],
{
    proof {
        reveal_strlit("0");
        reveal_strlit("1");
        reveal_strlit("2");
        reveal_strlit("3");
        reveal_strlit("4");
        reveal_strlit("5");
        reveal_strlit("6");
        reveal_strlit("7");
        reveal_strlit("8");
        reveal_strlit("9");
    }
    match d {
        0 => "0",
        1 => "1",
        2 => "2",
        3 => "3",
        4 => "4",
        5 => "5",
        6 => "6",
        7 => "7",
        8 => "8",
        _ => "9",
    }
}

/// Appends the decimal digits of `n` to `s`.
fn append_digits(s: &mut String, n: u64)
    ensures
        final(s)@ == old(s)@ + decimal_digits(n as nat),
    decreases n,
{
    if n >= 10 {
        append_digits(s, n / 10);
    }
    s.append(digit_str(n % 10));
    assert(s@ =~= old(s)@ + decimal_digits(n as nat));
}

/// The decimal rendering of `v`, with a leading `-` when negative.
pub(crate) fn decimal_string(v: i64) -> (r: String)
    ensures
        r@ == decimal(v as int),
{
    let mut text = String::new();
    if v < 0 {
        proof {
            reveal_strlit("-");
        }
        text.append("-");
        let magnitude = (0i128 - v as i128) as u64;
        append_digits(&mut text, magnitude);
        assert(text@ =~= decimal(v as int));
    } else {
        append_digits(&mut text, v as u64);
        assert(text@ =~= decimal(v as int));
    }
    text
}

/// Relies on `bincode::serialize` (fixed-width integers, little endian) on a
/// `str`: the length as a `u64`, then the UTF-8 bytes. Writing into a `Vec`
/// with no size limit does not fail.
#[verifier::external_body]
fn bincode_str(s: &str) -> (r: Vec<u8>)
    ensures
        r@ == encoded_str(s@),
{
    bincode::serialize(s).unwrap()
}

/// The text `address ++ decimal(value)` that stands for an entry.
pub fn combine_address_and_value(address: &String, value: i64) -> (r: String)
    ensures
        r@ == entry_text(address@, value),
{
    let mut text = address.clone();
    let digits = decimal_string(value);
    text.append(digits.as_str());
    text
}

/// Serializes an (address, value) pair: the binary encoding of
/// `address ++ decimal(value)`.
pub fn serialize_pair(address: &String, value: i64) -> (r: Vec<u8>)
    ensures
        r@ == entry_bytes(address@, value),
{
    let text = combine_address_and_value(address, value);
    bincode_str(text.as_str())
}

} // verus!
