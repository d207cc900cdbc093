//! Base-64 positional numeral system.
//!
//! A non-negative integer is written as its base-64 digits, most
//! significant digit first, each digit as one symbol of the shared
//! alphabet. There is no padding and no sign, and no superfluous leading
//! zero digit is ever produced; zero itself is the single symbol for
//! digit zero.

use crate::bignum::{
    be_val, canonical, div64, lemma_canonical_pos, mul64_add, reversed, Bignum,
};
use crate::common::{
    all_syms, ascii_to_string, char_to_idx, idx_to_char, is_sym, lemma_sym_index_of_sym, sym,
    sym_index,
};
use vstd::prelude::*;
use vstd::string::{StrSliceExecFns, StringSliceAdditionalSpecFns};
use vstd::utf8::encode_utf8;

verus! {

/// The radix-64 digit string of a non-negative integer: its base-64
/// digits, most significant first, each as an alphabet symbol byte.
pub open spec fn r64_digits(n: nat) -> Seq<u8>
    decreases n,
{
    if n < 64 {
        seq![sym(n as int)]
    } else {
        r64_digits(n / 64).push(sym((n % 64) as int))
    }
}

/// The integer denoted by a big-endian sequence of radix-64 symbol bytes.
pub open spec fn r64_val(s: Seq<u8>) -> int
    recommends
        all_syms(s),
    decreases s.len(),
{
    if s.len() == 0 {
        0
    } else {
        r64_val(s.drop_last()) * 64 + sym_index(s.last())
    }
}

/// Trait for number to radix64.
pub trait ToRadix64String {
    /// Validity of the number the conversion starts from.
    spec fn radix64_wf(&self) -> bool;

    /// The integer the number denotes.
    spec fn radix64_value(&self) -> nat;

    /// Number to radix64 string.
    fn to_radix64_string(&self) -> (r: String)
        requires
            self.radix64_wf(),
        ensures
            encode_utf8(r@) == r64_digits(self.radix64_value()),
    ;
}

/// Trait for number from radix64 string.
pub trait FromRadix64String<T> {
    /// True when decoding the given symbol bytes succeeds.
    spec fn radix64_ok(s: Seq<u8>) -> bool;

    /// How the decoded number relates to the input symbol bytes.
    spec fn radix64_matches(t: &T, s: Seq<u8>) -> bool;

    /// Number from radix64 string.
    fn from_radix64_string(s: &str) -> (r: Result<T, String>)
        ensures
            r is Ok <==> Self::radix64_ok(encode_utf8(s@)),
            r matches Ok(t) ==> Self::radix64_matches(&t, encode_utf8(s@)),
    ;
}

impl ToRadix64String for Bignum {
    open spec fn radix64_wf(&self) -> bool {
        self.wf()
    }

    open spec fn radix64_value(&self) -> nat {
        self.value()
    }

    fn to_radix64_string(&self) -> (r: String) {
        let ghost n0 = self.value();
        let mut syms: Vec<u8> = Vec::new();
        let mut cur: Vec<u8> = vstd::slice::slice_to_vec(self.digits.as_slice());
        if cur.len() == 0 {
            syms.push(idx_to_char(0));
            proof {
                assert(r64_digits(n0) =~= seq![sym(0)]);
            }
        } else {
            proof {
                lemma_canonical_pos(cur@);
                assert(syms@.reverse() =~= Seq::<u8>::empty());
                assert(r64_digits(n0) =~= r64_digits(be_val(cur@)) + syms@.reverse());
            }
            while cur.len() > 0
                invariant
                    canonical(cur@),
                    forall|j: int| 0 <= j < syms@.len() ==> syms@[j] < 128,
                    be_val(cur@) > 0 ==> r64_digits(n0) == r64_digits(be_val(cur@))
                        + syms@.reverse(),
                    cur@.len() == 0 ==> syms@.len() > 0 && r64_digits(n0) == syms@.reverse(),
                    cur@.len() > 0 ==> be_val(cur@) > 0,
                decreases be_val(cur@),
            {
                let ghost v_cur = be_val(cur@);
                let ghost old_syms = syms@;
                let (q, rem) = div64(&cur);
                syms.push(idx_to_char(rem));
                proof {
                    let vq = be_val(q@);
                    assert(vq * 64 + rem == v_cur);
                    assert(syms@.reverse() =~= seq![sym(rem as int)] + old_syms.reverse());
                    if vq == 0 {
                        assert(v_cur == rem < 64);
                        assert(r64_digits(v_cur) =~= seq![sym(v_cur as int)]);
                        assert(r64_digits(n0) =~= syms@.reverse());
                        if q@.len() > 0 {
                            lemma_canonical_pos(q@);
                            assert(false);
                        }
                    } else {
                        assert(v_cur >= 64);
                        assert(v_cur / 64 == vq as int && v_cur % 64 == rem as int)
                            by (nonlinear_arith)
                            requires
                                vq * 64 + rem == v_cur,
                                0 <= rem < 64,
                                vq >= 0,
                        ;
                        assert(r64_digits(v_cur) == r64_digits(vq).push(sym(rem as int)));
                        assert(r64_digits(vq).push(sym(rem as int)) + old_syms.reverse()
                            =~= r64_digits(vq) + syms@.reverse());
                        lemma_canonical_pos(q@);
                    }
                }
                cur = q;
            }
        }
        let msg = reversed(&syms);
        proof {
            assert(msg@ == r64_digits(n0));
            assert(forall|j: int|
                0 <= j < msg@.len() ==> msg@[j] == syms@[msg@.len() - 1 - j] && msg@[j] < 128);
        }
        ascii_to_string(msg)
    }
}

impl FromRadix64String<Bignum> for Bignum {
    /// Decoding succeeds exactly on non-empty strings of alphabet symbols
    /// whose digit positions stay within the supported exponent range.
    open spec fn radix64_ok(s: Seq<u8>) -> bool {
        s.len() >= 1 && s.len() - 1 <= u32::MAX && all_syms(s)
    }

    /// The decoded number is well formed and denotes the integer the digit
    /// string stands for.
    open spec fn radix64_matches(t: &Bignum, s: Seq<u8>) -> bool {
        t.wf() && t.value() == r64_val(s)
    }

    /// For implementation reasons, returns error if string length -1 is
    /// greater than `u32::MAX`.
    fn from_radix64_string(s: &str) -> (r: Result<Bignum, String>) {
        let chars = s.as_bytes_vec();
        if chars.len() == 0 {
            return Err("Invalid input".to_string());
        }
        if chars.len() - 1 > u32::MAX as usize {
            return Err("Invalid input".to_string());
        }
        let mut acc: Vec<u8> = Vec::new();
        let mut i: usize = 0;
        proof {
            assert(chars@.take(0) =~= Seq::<u8>::empty());
            assert(be_val(acc@) == 0);
            assert(r64_val(chars@.take(0)) == 0);
        }
        while i < chars.len()
            invariant
                i <= chars@.len(),
                chars@ == encode_utf8(s@),
                canonical(acc@),
                all_syms(chars@.take(i as int)),
                be_val(acc@) == r64_val(chars@.take(i as int)),
            decreases chars@.len() - i,
        {
            match char_to_idx(chars[i]) {
                Ok(idx) => {
                    let ghost old_acc = acc@;
                    let acc2 = mul64_add(&acc, idx);
                    acc = acc2;
                    proof {
                        assert(chars@.take(i + 1).drop_last() =~= chars@.take(i as int));
                        assert(chars@.take(i + 1).last() == chars@[i as int]);
                        assert(r64_val(chars@.take(i + 1)) == r64_val(chars@.take(i as int)) * 64
                            + sym_index(chars@[i as int]));
                        assert forall|j: int| 0 <= j < i + 1 implies #[trigger] is_sym(
                            chars@.take(i + 1)[j],
                        ) by {
                            if j < i {
                                assert(is_sym(chars@.take(i as int)[j]));
                            }
                        }
                    }
                    i = i + 1;
                }
                Err(_) => {
                    proof {
                        assert(chars@ == s.spec_bytes());
                        assert(s.spec_bytes() == encode_utf8(s@));
                        assert(!is_sym(encode_utf8(s@)[i as int]));
                        assert(!all_syms(encode_utf8(s@)));
                    }
                    return Err("Invalid input".to_string());
                }
            }
        }
        proof {
            assert(chars@.take(chars@.len() as int) =~= chars@);
        }
        Ok(Bignum { digits: acc })
    }
}

/// Round-trip law for the radix-64 codec: the digit string of a
/// non-negative integer is never empty, holds only alphabet symbols,
/// denotes the integer itself, and never starts with a superfluous zero
/// digit.
pub proof fn lemma_radix64_round_trip(n: nat)
    ensures
        r64_digits(n).len() >= 1,
        all_syms(r64_digits(n)),
        r64_val(r64_digits(n)) == n,
        n > 0 ==> r64_digits(n)[0] != sym(0),
    decreases n,
{
    if n < 64 {
        lemma_sym_index_of_sym(n as int);
        assert(r64_digits(n).drop_last() =~= Seq::<u8>::empty());
        assert(r64_val(Seq::<u8>::empty()) == 0);
        if n > 0 {
            lemma_sym_index_of_sym(0);
        }
    } else {
        lemma_radix64_round_trip(n / 64);
        let d = r64_digits(n / 64);
        let x = sym((n % 64) as int);
        assert(r64_digits(n) == d.push(x));
        assert(d.push(x).drop_last() =~= d);
        assert(d.push(x).last() == x);
        lemma_sym_index_of_sym((n % 64) as int);
        assert(r64_val(r64_digits(n)) == r64_val(d) * 64 + (n % 64));
        assert((n / 64) * 64 + n % 64 == n);
        assert forall|j: int| 0 <= j < r64_digits(n).len() implies #[trigger] is_sym(
            r64_digits(n)[j],
        ) by {
            if j < d.len() {
                assert(is_sym(d[j]));
            }
        }
        assert(r64_digits(n)[0] == d[0]);
        assert(n / 64 > 0);
        lemma_sym_index_of_sym(0);
    }
}

} // verus!
