//! URL-safe btt64 encoding for byte sequences, a URL-safe radix-64 number
//! format, and a non-printable radix-256 number format, all built over a
//! shared 64-symbol alphabet.

pub mod bignum;
pub mod btt64;
pub mod common;
pub mod radix256;
pub mod radix64;
