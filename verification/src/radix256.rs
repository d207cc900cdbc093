//! Base-256 positional numeral system.
//!
//! Converts an unsigned integer to a byte vector. Each byte in the vector
//! represents a base-256 digit of the integer. The byte vector is big
//! endian, thus the most significant byte is in position 0. The output is
//! not given in a human readable alphabet but the digits in the byte
//! vector are just plain `u8` in the inclusive range of 0 to 255.

use crate::bignum::{be_val, lemma_be_val_leading_zeros, lemma_canonical_unique, trimmed, Bignum};
use vstd::prelude::*;
use vstd::slice::slice_to_vec;

verus! {

/// Trait for number to radix256 bytes.
pub trait ToRadix256Bytes {
    /// The big-endian base-256 digit sequence the conversion returns.
    spec fn radix256_spec(&self) -> Seq<u8>;

    /// Number to radix256 bytes.
    fn to_radix256_bytes(&self) -> (r: Vec<u8>)
        ensures
            r@ == self.radix256_spec(),
    ;
}

/// Trait for number from radix256 bytes.
pub trait FromRadix256Bytes<T> {
    /// True when decoding the given digit sequence succeeds.
    spec fn radix256_ok(b: Seq<u8>) -> bool;

    /// How the decoded number relates to the input digit sequence.
    spec fn radix256_matches(t: &T, b: Seq<u8>) -> bool;

    /// Number from radix256 bytes. Leading zero bytes are allowed.
    fn from_radix256_bytes(bytes: &[u8]) -> (r: Result<T, String>)
        ensures
            r is Ok <==> Self::radix256_ok(bytes@),
            r matches Ok(t) ==> Self::radix256_matches(&t, bytes@),
    ;
}

impl ToRadix256Bytes for Bignum {
    /// A `Bignum` already holds its canonical big-endian base-256 digits;
    /// zero comes out as the empty sequence.
    open spec fn radix256_spec(&self) -> Seq<u8> {
        self.digits@
    }

    fn to_radix256_bytes(&self) -> (r: Vec<u8>) {
        slice_to_vec(self.digits.as_slice())
    }
}

impl FromRadix256Bytes<Bignum> for Bignum {
    /// Every byte sequence is a valid big-endian digit string.
    open spec fn radix256_ok(b: Seq<u8>) -> bool {
        true
    }

    /// The decoded number is well formed and denotes the integer the
    /// digits stand for.
    open spec fn radix256_matches(t: &Bignum, b: Seq<u8>) -> bool {
        t.wf() && t.value() == be_val(b)
    }

    fn from_radix256_bytes(bytes: &[u8]) -> (r: Result<Bignum, String>) {
        let v = slice_to_vec(bytes);
        let t = trimmed(&v);
        Ok(Bignum { digits: t })
    }
}

/// Round-trip law for the radix-256 codec, leading zeros included: a byte
/// sequence made of any number of zero bytes followed by the digits of a
/// well-formed number denotes exactly that number's value, so decoding it
/// recovers the number.
pub proof fn lemma_radix256_round_trip(n: Bignum, z: Seq<u8>)
    requires
        n.wf(),
        forall|i: int| 0 <= i < z.len() ==> z[i] == 0,
    ensures
        be_val(z + n.radix256_spec()) == n.value(),
{
    lemma_be_val_leading_zeros(z, n.digits@);
}

/// Two well-formed numbers with the same value have the same digits: the
/// encoded form is unique, so decoding pins the number down completely.
pub proof fn lemma_radix256_unique(a: Bignum, b: Bignum)
    requires
        a.wf(),
        b.wf(),
        a.value() == b.value(),
    ensures
        a.radix256_spec() == b.radix256_spec(),
{
    lemma_canonical_unique(a.digits@, b.digits@);
}

} // verus!
