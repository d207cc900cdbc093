//! Binary-to-Text module.
//!
//! Packs arbitrary byte sequences into strings over the shared 64-symbol
//! alphabet, three bytes to four symbols: the first symbol of each group
//! carries the top two bits of every byte of the group, the following
//! symbols carry the low six bits of one byte each. A final group of one
//! or two bytes keeps the same packing and simply emits fewer symbols.
//! Decoding validates every symbol, the canonical bit pattern of a partial
//! group's first symbol, and the group length; a trailing group of one
//! symbol cannot stand for a whole byte and is rejected.

use crate::common::{
    all_syms, ascii_to_string, char_to_idx, idx_to_char, is_sym, lemma_sym_index_of_sym,
    string_from_utf8, sym, sym_index,
};
use vstd::prelude::*;
use vstd::string::{StrSliceExecFns, StringSliceAdditionalSpecFns};
use vstd::utf8::{encode_utf8, valid_utf8};

verus! {

/// The packed first symbol index of a group of one to three bytes: the top
/// two bits of byte `i` sit at bit positions `5 - 2*i` and `4 - 2*i`.
pub open spec fn blk_idx0(b: Seq<u8>) -> u8
    recommends
        1 <= b.len() <= 3,
{
    let x0 = (b[0] & 0xc0) >> 2u8;
    let x1: u8 = if b.len() > 1 {
        (b[1] & 0xc0) >> 4u8
    } else {
        0u8
    };
    let x2: u8 = if b.len() > 2 {
        (b[2] & 0xc0) >> 6u8
    } else {
        0u8
    };
    x0 | x1 | x2
}

/// The symbol bytes that encode one group of one to three bytes: the
/// packed first symbol, then the low six bits of each byte.
pub open spec fn blk_enc(b: Seq<u8>) -> Seq<u8>
    recommends
        1 <= b.len() <= 3,
{
    seq![sym(blk_idx0(b) as int)] + b.map(|i: int, x: u8| sym((x & 0x3f) as int))
}

/// The whole encoding: consecutive groups of up to three bytes, no
/// separators and no padding.
pub open spec fn spec_btt64_encode(bs: Seq<u8>) -> Seq<u8>
    decreases bs.len(),
{
    if bs.len() == 0 {
        Seq::empty()
    } else if bs.len() <= 3 {
        blk_enc(bs)
    } else {
        blk_enc(bs.take(3)) + spec_btt64_encode(bs.skip(3))
    }
}

/// The bits the first symbol of a group may use, by group symbol count.
pub open spec fn blk_mask(n: int) -> u8 {
    if n == 2 {
        0x30u8
    } else if n == 3 {
        0x3cu8
    } else {
        0x3fu8
    }
}

/// True when a final group of one to four symbols decodes: at least two
/// symbols, every one in the alphabet, and no bit of the first symbol
/// outside the mask its count allows.
pub open spec fn blk_dec_ok(s: Seq<u8>) -> bool
    recommends
        1 <= s.len() <= 4,
{
    &&& s.len() >= 2
    &&& all_syms(s)
    &&& (sym_index(s[0]) as u8) & blk_mask(s.len() as int) == (sym_index(s[0]) as u8)
}

/// The bytes of one decoded group: byte `i` takes its top two bits from
/// the first symbol and its low six bits from symbol `i + 1`.
pub open spec fn blk_dec(s: Seq<u8>) -> Seq<u8>
    recommends
        blk_dec_ok(s),
{
    Seq::new(
        (s.len() - 1) as nat,
        |i: int|
            (((sym_index(s[0]) as u8) << (((i + 1) * 2) as u8)) & 0xc0) | (sym_index(
                s[i + 1],
            ) as u8),
    )
}

/// The whole decoding: groups of four symbols, a final group of two or
/// three allowed, or failure on any malformed group.
pub open spec fn spec_btt64_decode(s: Seq<u8>) -> Option<Seq<u8>>
    decreases s.len(),
{
    if s.len() == 0 {
        Some(Seq::empty())
    } else if s.len() <= 4 {
        if blk_dec_ok(s) {
            Some(blk_dec(s))
        } else {
            None
        }
    } else {
        if blk_dec_ok(s.take(4)) {
            match spec_btt64_decode(s.skip(4)) {
                Some(rest) => Some(blk_dec(s.take(4)) + rest),
                None => None,
            }
        } else {
            None
        }
    }
}

/// Encoding one group and decoding it gives the group back, and the
/// encoded group is well formed in every way the decoder checks.
pub proof fn lemma_blk_round_trip(b: Seq<u8>)
    requires
        1 <= b.len() <= 3,
    ensures
        blk_enc(b).len() == b.len() + 1,
        all_syms(blk_enc(b)),
        blk_dec_ok(blk_enc(b)),
        blk_dec(blk_enc(b)) =~= b,
{
    let e = blk_enc(b);
    let i0 = blk_idx0(b);
    let b0 = b[0];
    let b1: u8 = if b.len() > 1 {
        b[1]
    } else {
        0u8
    };
    let b2: u8 = if b.len() > 2 {
        b[2]
    } else {
        0u8
    };
    assert(i0 == ((b0 & 0xc0) >> 2u8) | ((b1 & 0xc0) >> 4u8) | ((b2 & 0xc0) >> 6u8)) by {
        assert((0u8 & 0xc0) >> 4u8 == 0 && (0u8 & 0xc0) >> 6u8 == 0) by (bit_vector);
    }
    assert(i0 <= 63 && (((i0 << 2u8) & 0xc0) | (b0 & 0x3f)) == b0 && (b0 & 0x3f) <= 63 && (((i0
        << 4u8) & 0xc0) | (b1 & 0x3f)) == b1 && (b1 & 0x3f) <= 63 && (((i0 << 6u8) & 0xc0) | (b2
        & 0x3f)) == b2 && (b2 & 0x3f) <= 63) by (bit_vector)
        requires
            i0 == ((b0 & 0xc0) >> 2u8) | ((b1 & 0xc0) >> 4u8) | ((b2 & 0xc0) >> 6u8),
    ;
    if b.len() == 1 {
        assert(blk_mask(2) == 0x30);
        assert((i0 & 0x30u8) == i0) by (bit_vector)
            requires
                i0 == ((b0 & 0xc0) >> 2u8) | ((0u8 & 0xc0) >> 4u8) | ((0u8 & 0xc0) >> 6u8),
        ;
    } else if b.len() == 2 {
        assert(blk_mask(3) == 0x3c);
        assert((i0 & 0x3cu8) == i0) by (bit_vector)
            requires
                i0 == ((b0 & 0xc0) >> 2u8) | ((b1 & 0xc0) >> 4u8) | ((0u8 & 0xc0) >> 6u8),
        ;
    } else {
        assert(blk_mask(4) == 0x3f);
        assert((i0 & 0x3fu8) == i0) by (bit_vector)
            requires
                i0 == ((b0 & 0xc0) >> 2u8) | ((b1 & 0xc0) >> 4u8) | ((b2 & 0xc0) >> 6u8),
        ;
    }
    lemma_sym_index_of_sym(i0 as int);
    assert forall|j: int| 0 <= j < e.len() implies #[trigger] is_sym(e[j]) by {
        if j == 0 {
            lemma_sym_index_of_sym(i0 as int);
        } else {
            assert(e[j] == sym((b[j - 1] & 0x3f) as int));
            lemma_sym_index_of_sym((b[j - 1] & 0x3f) as int);
        }
    }
    assert forall|i: int| 0 <= i < b.len() implies blk_dec(e)[i] == b[i] by {
        assert(e[i + 1] == sym((b[i] & 0x3f) as int));
        lemma_sym_index_of_sym((b[i] & 0x3f) as int);
    }
}

/// The encoding splits at any group boundary: the symbols of a byte
/// sequence are the symbols of its first `i` bytes followed by the
/// symbols of the rest, for `i` a multiple of three.
pub proof fn lemma_encode_split(bs: Seq<u8>, i: int)
    requires
        0 <= i <= bs.len(),
        i % 3 == 0,
    ensures
        spec_btt64_encode(bs) == spec_btt64_encode(bs.take(i)) + spec_btt64_encode(bs.skip(i)),
    decreases i,
{
    if i == 0 {
        assert(bs.take(0) =~= Seq::<u8>::empty());
        assert(bs.skip(0) =~= bs);
        assert(spec_btt64_encode(bs.take(0)) + spec_btt64_encode(bs) =~= spec_btt64_encode(bs));
    } else {
        if bs.len() <= 3 {
            assert(i == 3 == bs.len());
            assert(bs.take(i) =~= bs);
            assert(bs.skip(i) =~= Seq::<u8>::empty());
            assert(spec_btt64_encode(bs.take(i)) + spec_btt64_encode(bs.skip(i))
                =~= spec_btt64_encode(bs));
        } else {
            lemma_encode_split(bs.skip(3), i - 3);
            assert(bs.skip(3).take(i - 3) =~= bs.take(i).skip(3));
            assert(bs.skip(3).skip(i - 3) =~= bs.skip(i));
            assert(bs.take(i).take(3) =~= bs.take(3));
            if i == 3 {
                assert(bs.take(i).skip(3) =~= Seq::<u8>::empty());
                assert(spec_btt64_encode(bs.take(i)) == blk_enc(bs.take(3)));
                assert(blk_enc(bs.take(3)) + (spec_btt64_encode(Seq::<u8>::empty())
                    + spec_btt64_encode(bs.skip(3))) =~= blk_enc(bs.take(3))
                    + spec_btt64_encode(bs.skip(3)));
            } else {
                assert(spec_btt64_encode(bs.take(i)) == blk_enc(bs.take(3)) + spec_btt64_encode(
                    bs.take(i).skip(3),
                ));
                assert(blk_enc(bs.take(3)) + (spec_btt64_encode(bs.take(i).skip(3))
                    + spec_btt64_encode(bs.skip(i))) =~= (blk_enc(bs.take(3)) + spec_btt64_encode(
                    bs.take(i).skip(3),
                )) + spec_btt64_encode(bs.skip(i)));
            }
        }
    }
}

/// The decoding splits at any group boundary that is a multiple of four
/// symbols: the whole decodes exactly when both parts decode, to the
/// concatenation of their bytes.
pub proof fn lemma_decode_split(s: Seq<u8>, i: int)
    requires
        0 <= i <= s.len(),
        i % 4 == 0,
    ensures
        spec_btt64_decode(s) == match (spec_btt64_decode(s.take(i)), spec_btt64_decode(s.skip(i))) {
            (Some(a), Some(b)) => Some(a + b),
            _ => None,
        },
    decreases i,
{
    if i == 0 {
        assert(s.take(0) =~= Seq::<u8>::empty());
        assert(s.skip(0) =~= s);
        if spec_btt64_decode(s) is Some {
            assert(Seq::<u8>::empty() + spec_btt64_decode(s).unwrap() =~= spec_btt64_decode(
                s,
            ).unwrap());
        }
    } else {
        if s.len() <= 4 {
            assert(i == 4 == s.len());
            assert(s.take(i) =~= s);
            assert(s.skip(i) =~= Seq::<u8>::empty());
            if spec_btt64_decode(s) is Some {
                assert(spec_btt64_decode(s).unwrap() + Seq::<u8>::empty() =~= spec_btt64_decode(
                    s,
                ).unwrap());
            }
        } else {
            lemma_decode_split(s.skip(4), i - 4);
            assert(s.skip(4).take(i - 4) =~= s.take(i).skip(4));
            assert(s.skip(4).skip(i - 4) =~= s.skip(i));
            assert(s.take(i).take(4) =~= s.take(4));
            if i == 4 {
                assert(s.take(i) =~= s.take(4));
                assert(s.take(4).len() == 4);
                if blk_dec_ok(s.take(4)) {
                    assert(spec_btt64_decode(s.take(i)) == Some(blk_dec(s.take(4))));
                }
            } else {
                assert(s.take(i).len() > 4);
                if blk_dec_ok(s.take(4)) {
                    match spec_btt64_decode(s.take(i).skip(4)) {
                        Some(a2) => {
                            match spec_btt64_decode(s.skip(i)) {
                                Some(b) => {
                                    assert((blk_dec(s.take(4)) + a2) + b =~= blk_dec(s.take(4)) + (
                                    a2 + b));
                                }
                                None => {}
                            }
                        }
                        None => {}
                    }
                }
            }
        }
    }
}

/// Round-trip law: decoding an encoded byte sequence gives the sequence
/// back, for every byte sequence including the empty one.
pub proof fn lemma_btt64_round_trip(bs: Seq<u8>)
    ensures
        spec_btt64_decode(spec_btt64_encode(bs)) == Some(bs),
    decreases bs.len(),
{
    if bs.len() == 0 {
        assert(spec_btt64_decode(spec_btt64_encode(bs)) == Some(Seq::<u8>::empty()));
        assert(Seq::<u8>::empty() =~= bs);
    } else if bs.len() <= 3 {
        lemma_blk_round_trip(bs);
        assert(blk_dec(blk_enc(bs)) == bs);
    } else {
        lemma_blk_round_trip(bs.take(3));
        lemma_btt64_round_trip(bs.skip(3));
        let e = spec_btt64_encode(bs);
        let e0 = blk_enc(bs.take(3));
        let rest = spec_btt64_encode(bs.skip(3));
        assert(e == e0 + rest);
        assert(e0.len() == 4);
        assert(rest.len() >= 2) by {
            assert(bs.skip(3).len() >= 1);
        }
        assert(e.take(4) =~= e0);
        assert(e.skip(4) =~= rest);
        lemma_decode_split(e, 4);
        assert(blk_dec(e0) + bs.skip(3) =~= bs) by {
            assert(blk_dec(e0) == bs.take(3));
            assert(bs.take(3) + bs.skip(3) =~= bs);
        }
    }
}

/// A symbol outside the alphabet anywhere in the text makes decoding
/// fail.
pub proof fn lemma_btt64_rejects_invalid_symbol(s: Seq<u8>)
    requires
        !all_syms(s),
    ensures
        spec_btt64_decode(s) is None,
    decreases s.len(),
{
    let j = choose|j: int| 0 <= j < s.len() && !is_sym(s[j]);
    if s.len() == 0 {
        assert(false);
    } else if s.len() <= 4 {
        assert(!blk_dec_ok(s));
    } else {
        if j < 4 {
            assert(!is_sym(s.take(4)[j]));
            assert(!blk_dec_ok(s.take(4)));
        } else {
            assert(!is_sym(s.skip(4)[j - 4]));
            assert(!all_syms(s.skip(4)));
            lemma_btt64_rejects_invalid_symbol(s.skip(4));
        }
    }
}

/// Text whose length leaves a single trailing symbol cannot decode: one
/// symbol never stands for a whole byte.
pub proof fn lemma_btt64_rejects_lone_tail(s: Seq<u8>)
    requires
        s.len() % 4 == 1,
    ensures
        spec_btt64_decode(s) is None,
    decreases s.len(),
{
    if s.len() == 1 {
        assert(!blk_dec_ok(s));
    } else {
        assert(s.len() > 4);
        lemma_btt64_rejects_lone_tail(s.skip(4));
    }
}

/// Round-trip law for text payloads: the UTF-8 bytes of any string
/// encode to symbols that decode back to exactly those bytes, those bytes
/// are valid UTF-8, and no other string has the same bytes -- so decoding
/// an encoded string as text recovers the original string.
pub proof fn lemma_btt64_text_round_trip(s: Seq<char>)
    ensures
        spec_btt64_decode(spec_btt64_encode(encode_utf8(s))) == Some(encode_utf8(s)),
        valid_utf8(encode_utf8(s)),
        forall|t: Seq<char>| encode_utf8(t) == encode_utf8(s) ==> t == s,
{
    lemma_btt64_round_trip(encode_utf8(s));
    vstd::utf8::encode_utf8_valid_utf8(s);
    assert forall|t: Seq<char>| encode_utf8(t) == encode_utf8(s) implies t == s by {
        vstd::utf8::encode_utf8_decode_utf8(t);
        vstd::utf8::encode_utf8_decode_utf8(s);
    }
}

/// Conversion to string.
pub trait ToBtt64String {
    /// The byte sequence the encoding reads.
    spec fn btt64_source(&self) -> Seq<u8>;

    /// Conversion to string.
    fn to_btt64_string(&self) -> (r: String)
        ensures
            encode_utf8(r@) == spec_btt64_encode(self.btt64_source()),
    ;
}

/// Conversion from string.
pub trait FromBtt64String<T> {
    /// True when decoding the given symbol bytes succeeds.
    spec fn btt64_ok(s: Seq<u8>) -> bool;

    /// How the decoded value relates to the input symbol bytes.
    spec fn btt64_matches(t: &T, s: Seq<u8>) -> bool;

    /// Conversion from string. May fail with error.
    fn from_btt64_string(s: &str) -> (r: Result<T, String>)
        ensures
            r is Ok <==> Self::btt64_ok(encode_utf8(s@)),
            r matches Ok(t) ==> Self::btt64_matches(&t, encode_utf8(s@)),
    ;
}

/// The symbol bytes that encode one group of up to three bytes of the
/// given data.
fn encode_block_syms(data: &[u8], offset: usize, byte_count: usize) -> (r: Vec<u8>)
    requires
        1 <= byte_count <= 3,
        offset + byte_count <= data@.len(),
    ensures
        r@ == blk_enc(data@.subrange(offset as int, offset + byte_count)),
        forall|j: int| 0 <= j < r@.len() ==> r@[j] < 128,
{
    let ghost b = data@.subrange(offset as int, offset + byte_count);
    let d0 = data[offset];
    let d1: u8 = if byte_count > 1 {
        data[offset + 1]
    } else {
        0
    };
    let d2: u8 = if byte_count > 2 {
        data[offset + 2]
    } else {
        0
    };
    let idx0: u8 = ((d0 & 0xc0) >> 2u8) | ((d1 & 0xc0) >> 4u8) | ((d2 & 0xc0) >> 6u8);
    proof {
        assert((0u8 & 0xc0) >> 4u8 == 0 && (0u8 & 0xc0) >> 6u8 == 0) by (bit_vector);
        assert(idx0 == blk_idx0(b));
        assert(idx0 <= 63) by (bit_vector)
            requires
                idx0 == ((d0 & 0xc0) >> 2u8) | ((d1 & 0xc0) >> 4u8) | ((d2 & 0xc0) >> 6u8),
        ;
    }
    let mut r: Vec<u8> = Vec::new();
    r.push(idx_to_char(idx0));
    let mut i: usize = 0;
    while i < byte_count
        invariant
            i <= byte_count,
            1 <= byte_count <= 3,
            idx0 == blk_idx0(b),
            idx0 < 64,
            b.len() == byte_count,
            d0 == b[0],
            byte_count > 1 ==> d1 == b[1],
            byte_count > 2 ==> d2 == b[2],
            r@.len() == i + 1,
            r@[0] == sym(idx0 as int),
            forall|j: int| 0 <= j < i ==> r@[j + 1] == sym((b[j] & 0x3f) as int),
            forall|j: int| 0 <= j < r@.len() ==> r@[j] < 128,
        decreases byte_count - i,
    {
        let cur: u8 = if i == 0 {
            d0
        } else if i == 1 {
            d1
        } else {
            d2
        };
        let low = cur & 0x3f;
        proof {
            assert((cur & 0x3f) < 64) by (bit_vector);
            assert(b[i as int] == cur);
        }
        r.push(idx_to_char(low));
        i = i + 1;
    }
    proof {
        assert(r@ =~= blk_enc(b));
    }
    r
}

/// The four-or-fewer-symbol group of the given data as a string of
/// alphabet symbols.
pub fn encode_block_vec_u8(data: &[u8], offset: usize, byte_count: usize) -> (r: String)
    requires
        1 <= byte_count <= 3,
        offset + byte_count <= data@.len(),
    ensures
        encode_utf8(r@) == blk_enc(data@.subrange(offset as int, offset + byte_count)),
{
    let syms = encode_block_syms(data, offset, byte_count);
    ascii_to_string(syms)
}

impl ToBtt64String for Vec<u8> {
    /// The vector's own bytes.
    open spec fn btt64_source(&self) -> Seq<u8> {
        self@
    }

    fn to_btt64_string(&self) -> (r: String) {
        let blk_len: usize = 3;
        let blk_count = self.len() / blk_len;
        let rest_count = self.len() % blk_len;
        let mut msg: Vec<u8> = Vec::new();
        let mut i: usize = 0;
        proof {
            assert(self@.take(0) =~= Seq::<u8>::empty());
        }
        while i < blk_count
            invariant
                blk_len == 3,
                self@.len() <= usize::MAX,
                blk_count == self@.len() / 3,
                i <= blk_count,
                msg@ == spec_btt64_encode(self@.take(3 * i)),
                forall|j: int| 0 <= j < msg@.len() ==> msg@[j] < 128,
            decreases blk_count - i,
        {
            let mut s = encode_block_syms(self.as_slice(), i * blk_len, blk_len);
            let ghost old_msg = msg@;
            msg.append(&mut s);
            i = i + 1;
            proof {
                let t = self@.take(3 * i);
                lemma_encode_split(t, 3 * (i - 1));
                assert(t.take(3 * (i - 1)) =~= self@.take(3 * (i - 1)));
                assert(t.skip(3 * (i - 1)) =~= self@.subrange(3 * (i - 1), 3 * i));
                assert(spec_btt64_encode(self@.subrange(3 * (i - 1), 3 * i)) == blk_enc(
                    self@.subrange(3 * (i - 1), 3 * i),
                ));
            }
        }
        if rest_count > 0 {
            let mut s = encode_block_syms(self.as_slice(), blk_count * blk_len, rest_count);
            msg.append(&mut s);
            proof {
                lemma_encode_split(self@, 3 * blk_count as int);
                assert(self@.take(3 * blk_count as int) =~= self@.take(3 * blk_count as int));
                assert(self@.skip(3 * blk_count as int) =~= self@.subrange(
                    3 * blk_count as int,
                    self@.len() as int,
                ));
                assert(spec_btt64_encode(self@.skip(3 * blk_count as int)) == blk_enc(
                    self@.skip(3 * blk_count as int),
                ));
            }
        } else {
            proof {
                assert(self@.take(3 * blk_count as int) =~= self@);
            }
        }
        ascii_to_string(msg)
    }
}

impl ToBtt64String for String {
    /// The UTF-8 bytes of the string.
    open spec fn btt64_source(&self) -> Seq<u8> {
        encode_utf8(self@)
    }

    fn to_btt64_string(&self) -> (r: String) {
        let v = self.as_str().as_bytes_vec();
        v.to_btt64_string()
    }
}

impl ToBtt64String for &str {
    /// The UTF-8 bytes of the string slice.
    open spec fn btt64_source(&self) -> Seq<u8> {
        encode_utf8((*self)@)
    }

    fn to_btt64_string(&self) -> (r: String) {
        let v = (*self).as_bytes_vec();
        v.to_btt64_string()
    }
}

/// One group of two to four symbols, decoded to its bytes, or an error
/// when a symbol is unknown or the first symbol uses bits outside the
/// group's mask.
pub fn decode_block_vec_u8(chars: &Vec<u8>, offset: usize, char_count: usize) -> (r: Result<
    Vec<u8>,
    String,
>)
    requires
        2 <= char_count <= 4,
        offset + char_count <= chars@.len(),
    ensures
        match r {
            Ok(d) => blk_dec_ok(chars@.subrange(offset as int, offset + char_count)) && d@
                == blk_dec(chars@.subrange(offset as int, offset + char_count)),
            Err(_) => !blk_dec_ok(chars@.subrange(offset as int, offset + char_count)),
        },
{
    let ghost sub = chars@.subrange(offset as int, offset + char_count);
    let clen = chars.len();
    let mut idx: Vec<u8> = Vec::with_capacity(char_count);
    let mut i: usize = 0;
    while i < char_count
        invariant
            i <= char_count,
            2 <= char_count <= 4,
            clen == chars@.len(),
            offset + char_count <= chars@.len(),
            sub == chars@.subrange(offset as int, offset + char_count),
            idx@.len() == i,
            forall|j: int| 0 <= j < i ==> #[trigger] is_sym(sub[j]),
            forall|j: int| 0 <= j < i ==> idx@[j] == sym_index(sub[j]),
        decreases char_count - i,
    {
        match char_to_idx(chars[offset + i]) {
            Ok(t) => {
                proof {
                    assert(sub[i as int] == chars@[offset + i]);
                }
                idx.push(t);
            }
            Err(_) => {
                proof {
                    assert(sub[i as int] == chars@[offset + i]);
                    assert(!is_sym(sub[i as int]));
                    assert(!all_syms(sub));
                }
                return Err("Invalid input".to_string());
            }
        }
        i = i + 1;
    }
    let mask: u8 = if char_count == 2 {
        0x30
    } else if char_count == 3 {
        0x3c
    } else {
        0x3f
    };
    if idx[0] & mask != idx[0] {
        return Err("Invalid input".to_string());
    }
    let mut data: Vec<u8> = Vec::with_capacity(char_count - 1);
    let mut i: usize = 0;
    while i < char_count - 1
        invariant
            i <= char_count - 1,
            2 <= char_count <= 4,
            idx@.len() == char_count,
            blk_dec_ok(sub),
            sub.len() == char_count,
            forall|j: int| 0 <= j < char_count ==> idx@[j] == sym_index(sub[j]),
            data@.len() == i,
            forall|j: int| 0 <= j < i ==> data@[j] == blk_dec(sub)[j],
        decreases char_count - i,
    {
        let sh: u8 = ((i + 1) * 2) as u8;
        let d = ((idx[0] << sh) & 0xc0) | idx[i + 1];
        data.push(d);
        i = i + 1;
    }
    proof {
        assert(data@ =~= blk_dec(sub));
    }
    Ok(data)
}

impl FromBtt64String<Vec<u8>> for Vec<u8> {
    /// Decoding succeeds exactly when the symbol groups all decode.
    open spec fn btt64_ok(s: Seq<u8>) -> bool {
        spec_btt64_decode(s) is Some
    }

    /// The decoded bytes are the decoding of the symbol bytes.
    open spec fn btt64_matches(t: &Vec<u8>, s: Seq<u8>) -> bool {
        spec_btt64_decode(s) == Some(t@)
    }

    fn from_btt64_string(s: &str) -> (r: Result<Vec<u8>, String>) {
        let chars = s.as_bytes_vec();
        let blk_len: usize = 4;
        let blk_count = chars.len() / blk_len;
        let rest_count = chars.len() % blk_len;
        if rest_count == 1 {
            proof {
                lemma_btt64_rejects_lone_tail(chars@);
            }
            return Err("Invalid input".to_string());
        }
        let mut data: Vec<u8> = Vec::new();
        let mut i: usize = 0;
        proof {
            assert(chars@.take(0) =~= Seq::<u8>::empty());
        }
        while i < blk_count
            invariant
                blk_len == 4,
                chars@.len() <= usize::MAX,
                chars@ == encode_utf8(s@),
                blk_count == chars@.len() / 4,
                rest_count == chars@.len() % 4,
                rest_count != 1,
                i <= blk_count,
                spec_btt64_decode(chars@.take(4 * i)) == Some(data@),
            decreases blk_count - i,
        {
            let ghost old_data = data@;
            match decode_block_vec_u8(&chars, i * blk_len, blk_len) {
                Ok(mut tmp) => {
                    proof {
                        let t = chars@.take(4 * (i + 1));
                        lemma_decode_split(t, 4 * i as int);
                        assert(t.take(4 * i as int) =~= chars@.take(4 * i as int));
                        assert(t.skip(4 * i as int) =~= chars@.subrange(4 * i as int, 4 * (i + 1)));
                        assert(t.skip(4 * i as int).len() == 4);
                    }
                    data.append(&mut tmp);
                }
                Err(_) => {
                    proof {
                        let rest = chars@.skip(4 * i as int);
                        lemma_decode_split(chars@, 4 * i as int);
                        assert(rest.take(4) =~= chars@.subrange(4 * i as int, 4 * i + 4));
                        if rest.len() > 4 {
                            assert(spec_btt64_decode(rest) is None);
                        } else {
                            assert(rest =~= chars@.subrange(4 * i as int, 4 * i + 4));
                            assert(spec_btt64_decode(rest) is None);
                        }
                    }
                    return Err("Invalid input".to_string());
                }
            }
            i = i + 1;
        }
        if rest_count > 0 {
            match decode_block_vec_u8(&chars, blk_count * blk_len, rest_count) {
                Ok(mut tmp) => {
                    proof {
                        lemma_decode_split(chars@, 4 * blk_count as int);
                        assert(chars@.skip(4 * blk_count as int) =~= chars@.subrange(
                            4 * blk_count as int,
                            chars@.len() as int,
                        ));
                        assert(chars@.skip(4 * blk_count as int).len() == rest_count);
                    }
                    data.append(&mut tmp);
                }
                Err(_) => {
                    proof {
                        lemma_decode_split(chars@, 4 * blk_count as int);
                        assert(chars@.skip(4 * blk_count as int) =~= chars@.subrange(
                            4 * blk_count as int,
                            chars@.len() as int,
                        ));
                        assert(chars@.skip(4 * blk_count as int).len() == rest_count);
                    }
                    return Err("Invalid input".to_string());
                }
            }
        } else {
            proof {
                lemma_decode_split(chars@, 4 * blk_count as int);
                assert(chars@.skip(4 * blk_count as int) =~= Seq::<u8>::empty());
                assert(chars@.take(4 * blk_count as int) =~= chars@);
                assert(data@ + Seq::<u8>::empty() =~= data@);
            }
        }
        Ok(data)
    }
}

impl FromBtt64String<String> for String {
    /// Decoding succeeds exactly when the symbol groups decode and the
    /// decoded bytes are valid UTF-8.
    open spec fn btt64_ok(s: Seq<u8>) -> bool {
        &&& spec_btt64_decode(s) is Some
        &&& valid_utf8(spec_btt64_decode(s).unwrap())
    }

    /// The decoded string's UTF-8 bytes are the decoding of the symbol
    /// bytes.
    open spec fn btt64_matches(t: &String, s: Seq<u8>) -> bool {
        spec_btt64_decode(s) == Some(encode_utf8(t@))
    }

    fn from_btt64_string(s: &str) -> (r: Result<String, String>) {
        let decoded_bytes = match <Vec<u8> as FromBtt64String<Vec<u8>>>::from_btt64_string(s) {
            Ok(b) => b,
            Err(e) => {
                return Err(e);
            }
        };
        let ghost bytes = decoded_bytes@;
        match string_from_utf8(decoded_bytes) {
            Some(res) => {
                proof {
                    vstd::utf8::encode_utf8_valid_utf8(res@);
                }
                Ok(res)
            }
            None => Err("Invalid input".to_string()),
        }
    }
}

} // verus!

