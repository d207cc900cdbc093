//! The shared 64-symbol alphabet and its inverse lookup.
//!
//! The alphabet holds, in order, the decimal digits, the lowercase letters,
//! the uppercase letters, `-` and `_`: 64 distinct printable ASCII bytes, so
//! every 6-bit index maps to exactly one symbol and back.

use vstd::prelude::*;
use vstd::utf8::{
    encode_utf8, is_leading_byte_width_1, partial_valid_utf8, partial_valid_utf8_extend_ascii_block,
    valid_utf8,
};

verus! {

/// The symbol at a given index of the alphabet, as an ASCII byte value:
/// indices 0..=9 map to `0`..=`9`, 10..=35 to `a`..=`z`, 36..=61 to
/// `A`..=`Z`, 62 to `-` and 63 to `_`.
pub open spec fn sym(i: int) -> u8
    recommends
        0 <= i < 64,
{
    if 0 <= i < 10 {
        (48 + i) as u8
    } else if i < 36 {
        (87 + i) as u8
    } else if i < 62 {
        (29 + i) as u8
    } else if i == 62 {
        45u8
    } else {
        95u8
    }
}

/// The index of a byte in the alphabet, or -1 when the byte is not one of
/// the 64 symbols.
pub open spec fn sym_index(b: u8) -> int {
    if 48 <= b <= 57 {
        b - 48
    } else if 97 <= b <= 122 {
        b - 87
    } else if 65 <= b <= 90 {
        b - 29
    } else if b == 45 {
        62
    } else if b == 95 {
        63
    } else {
        -1
    }
}

/// True when the byte is one of the 64 alphabet symbols.
pub open spec fn is_sym(b: u8) -> bool {
    sym_index(b) >= 0
}

/// Looking a symbol up by index and then looking its index up again gives
/// the index back, and every symbol is a printable ASCII byte.
pub proof fn lemma_sym_index_of_sym(i: int)
    requires
        0 <= i < 64,
    ensures
        sym_index(sym(i)) == i,
        sym(i) < 128,
{
}

/// A byte recognised as a symbol is the symbol at its reported index.
pub proof fn lemma_sym_of_sym_index(b: u8)
    requires
        sym_index(b) >= 0,
    ensures
        0 <= sym_index(b) < 64,
        sym(sym_index(b)) == b,
{
}

/// The alphabet symbol at a given index, as an ASCII byte.
pub fn idx_to_char(i: u8) -> (c: u8)
    requires
        i < 64,
    ensures
        c == sym(i as int),
        c < 128,
{
    if i < 10 {
        48 + i
    } else if i < 36 {
        87 + i
    } else if i < 62 {
        29 + i
    } else if i == 62 {
        45
    } else {
        95
    }
}

/// True when every byte of the sequence is an alphabet symbol.
pub open spec fn all_syms(s: Seq<u8>) -> bool {
    forall|i: int| 0 <= i < s.len() ==> is_sym(s[i])
}

/// Bytes that are all below 128 form a valid UTF-8 sequence.
pub proof fn lemma_ascii_valid_utf8(b: Seq<u8>)
    requires
        forall|i: int| 0 <= i < b.len() ==> b[i] < 128,
    ensures
        valid_utf8(b),
{
    assert(b.subrange(0, 0) =~= Seq::<u8>::empty());
    assert(valid_utf8(b.subrange(0, 0)));
    assert(partial_valid_utf8(b, 0));
    assert forall|i: int| 0 <= 0 <= i < b.len() as int <= b.len() implies #[trigger] is_leading_byte_width_1(
        b[i],
    ) by {
        assert(b[i] < 128);
    }
    partial_valid_utf8_extend_ascii_block(b, 0, b.len() as int);
    assert(b.subrange(0, b.len() as int) =~= b);
}

/// Relies on `String::from_utf8`: the returned string holds exactly the
/// given bytes, and the error comes exactly when the bytes are not valid
/// UTF-8.
#[verifier::external_body]
pub(crate) fn string_from_utf8(v: Vec<u8>) -> (r: Option<String>)
    ensures
        match r {
            Some(s) => encode_utf8(s@) == v@,
            None => !valid_utf8(v@),
        },
{
    match String::from_utf8(v) {
        Ok(s) => Some(s),
        Err(_) => None,
    }
}

/// A vector of ASCII bytes, turned into the string holding exactly those
/// bytes.
pub(crate) fn ascii_to_string(v: Vec<u8>) -> (s: String)
    requires
        forall|i: int| 0 <= i < v@.len() ==> v@[i] < 128,
    ensures
        encode_utf8(s@) == v@,
{
    let ghost bytes = v@;
    proof {
        lemma_ascii_valid_utf8(bytes);
    }
    let r = string_from_utf8(v);
    r.unwrap()
}

/// The index of a byte in the alphabet, or an error when the byte is not
/// one of the 64 symbols.
pub fn char_to_idx(d: u8) -> (r: Result<u8, String>)
    ensures
        match r {
            Ok(i) => i < 64 && sym_index(d) == i as int,
            Err(_) => sym_index(d) == -1,
        },
{
    if 48 <= d && d <= 57 {
        Ok(d - 48)
    } else if 97 <= d && d <= 122 {
        Ok(d - 87)
    } else if 65 <= d && d <= 90 {
        Ok(d - 29)
    } else if d == 45 {
        Ok(62)
    } else if d == 95 {
        Ok(63)
    } else {
        Err("Invalid input".to_string())
    }
}

} // verus!
