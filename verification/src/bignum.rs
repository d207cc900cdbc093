//! Arbitrary-precision non-negative integers, held as their big-endian
//! base-256 digits.
//!
//! A [`Bignum`] stores one byte per base-256 digit, most significant first,
//! with no leading zero digit; the empty digit sequence stands for zero.
//! The module proves the small amount of arithmetic the codecs need:
//! division by 64 with remainder, and multiply-by-64-then-add.

use vstd::prelude::*;

verus! {

/// 256 raised to the given power.
pub open spec fn pow256(n: nat) -> nat
    decreases n,
{
    if n == 0 {
        1
    } else {
        256 * pow256((n - 1) as nat)
    }
}

/// The integer denoted by a big-endian sequence of base-256 digits.
pub open spec fn be_val(s: Seq<u8>) -> nat
    decreases s.len(),
{
    if s.len() == 0 {
        0
    } else {
        be_val(s.drop_last()) * 256 + s.last() as nat
    }
}

/// True when the digit sequence has no leading zero: the canonical form.
pub open spec fn canonical(s: Seq<u8>) -> bool {
    s.len() == 0 || s[0] != 0
}

/// Every power of 256 is positive.
pub proof fn lemma_pow256_pos(n: nat)
    ensures
        pow256(n) >= 1,
    decreases n,
{
    if n > 0 {
        lemma_pow256_pos((n - 1) as nat);
    }
}

/// A single digit denotes itself.
pub proof fn lemma_be_val_singleton(x: u8)
    ensures
        be_val(seq![x]) == x,
{
    assert(seq![x].drop_last() =~= Seq::<u8>::empty());
    assert(be_val(Seq::<u8>::empty()) == 0);
}

/// Appending a digit scales the denoted integer by 256 and adds the digit.
pub proof fn lemma_be_val_push(s: Seq<u8>, x: u8)
    ensures
        be_val(s.push(x)) == be_val(s) * 256 + x,
{
    assert(s.push(x).drop_last() =~= s);
    assert(s.push(x).last() == x);
}

/// Concatenating digit sequences scales the high part by 256 to the length
/// of the low part.
pub proof fn lemma_be_val_concat(a: Seq<u8>, b: Seq<u8>)
    ensures
        be_val(a + b) == be_val(a) * pow256(b.len()) + be_val(b),
    decreases b.len(),
{
    if b.len() == 0 {
        assert(a + b =~= a);
        assert(be_val(a) * pow256(b.len()) == be_val(a)) by (nonlinear_arith)
            requires
                pow256(b.len()) == 1,
        ;
    } else {
        let bd = b.drop_last();
        assert((a + b).drop_last() =~= a + bd);
        lemma_be_val_concat(a, bd);
        assert((a + b).last() == b.last());
        assert(be_val(a + b) == (be_val(a) * pow256(bd.len()) + be_val(bd)) * 256 + b.last());
        assert(pow256(b.len()) == 256 * pow256(bd.len()));
        assert(be_val(b) == be_val(bd) * 256 + b.last());
        assert(be_val(a + b) == be_val(a) * pow256(b.len()) + be_val(b)) by (nonlinear_arith)
            requires
                be_val(a + b) == (be_val(a) * pow256(bd.len()) + be_val(bd)) * 256 + b.last(),
                pow256(b.len()) == 256 * pow256(bd.len()),
                be_val(b) == be_val(bd) * 256 + b.last(),
        ;
        assert(be_val(a) * pow256(b.len()) >= 0) by (nonlinear_arith);
    }
}

/// A sequence of zero digits denotes zero.
pub proof fn lemma_be_val_zeros(z: Seq<u8>)
    requires
        forall|i: int| 0 <= i < z.len() ==> z[i] == 0,
    ensures
        be_val(z) == 0,
    decreases z.len(),
{
    if z.len() > 0 {
        lemma_be_val_zeros(z.drop_last());
    }
}

/// Leading zero digits do not change the denoted integer.
pub proof fn lemma_be_val_leading_zeros(z: Seq<u8>, s: Seq<u8>)
    requires
        forall|i: int| 0 <= i < z.len() ==> z[i] == 0,
    ensures
        be_val(z + s) == be_val(s),
{
    lemma_be_val_concat(z, s);
    lemma_be_val_zeros(z);
}

/// A canonical, non-empty digit sequence denotes at least 256 to the power
/// of one less than its length; in particular it is non-zero.
pub proof fn lemma_canonical_pos(s: Seq<u8>)
    requires
        s.len() > 0,
        s[0] != 0,
    ensures
        be_val(s) >= pow256((s.len() - 1) as nat),
        be_val(s) > 0,
{
    let first = seq![s[0]];
    let rest = s.skip(1);
    assert(s =~= first + rest);
    lemma_be_val_concat(first, rest);
    lemma_be_val_singleton(s[0]);
    lemma_pow256_pos(rest.len());
    assert(s[0] * pow256(rest.len()) >= pow256(rest.len())) by (nonlinear_arith)
        requires
            s[0] >= 1,
            pow256(rest.len()) >= 1,
    ;
    lemma_pow256_pos((s.len() - 1) as nat);
}

/// A digit sequence denotes less than 256 to the power of its length.
pub proof fn lemma_be_val_upper(s: Seq<u8>)
    ensures
        be_val(s) < pow256(s.len()),
    decreases s.len(),
{
    if s.len() == 0 {
    } else {
        lemma_be_val_upper(s.drop_last());
        assert(be_val(s.drop_last()) <= pow256((s.len() - 1) as nat) - 1);
        assert(be_val(s.drop_last()) * 256 <= (pow256((s.len() - 1) as nat) - 1) * 256);
    }
}

/// 256 to a smaller power is no larger.
pub proof fn lemma_pow256_le(m: nat, n: nat)
    requires
        m <= n,
    ensures
        pow256(m) <= pow256(n),
    decreases n,
{
    if m < n {
        lemma_pow256_le(m, (n - 1) as nat);
        lemma_pow256_pos((n - 1) as nat);
    }
}

/// Two canonical digit sequences denoting the same integer are the same
/// sequence: the canonical form is unique.
pub proof fn lemma_canonical_unique(a: Seq<u8>, b: Seq<u8>)
    requires
        canonical(a),
        canonical(b),
        be_val(a) == be_val(b),
    ensures
        a == b,
    decreases a.len(),
{
    if a.len() == 0 && b.len() == 0 {
        assert(a =~= b);
    } else if a.len() == 0 {
        lemma_canonical_pos(b);
        assert(false);
    } else if b.len() == 0 {
        lemma_canonical_pos(a);
        assert(false);
    } else {
        if a.len() < b.len() {
            lemma_be_val_upper(a);
            lemma_pow256_le(a.len(), (b.len() - 1) as nat);
            lemma_canonical_pos(b);
            assert(false);
        }
        if b.len() < a.len() {
            lemma_be_val_upper(b);
            lemma_pow256_le(b.len(), (a.len() - 1) as nat);
            lemma_canonical_pos(a);
            assert(false);
        }
        let ad = a.drop_last();
        let bd = b.drop_last();
        assert(be_val(a) == be_val(ad) * 256 + a.last());
        assert(be_val(b) == be_val(bd) * 256 + b.last());
        assert(be_val(ad) == be_val(bd) && a.last() == b.last()) by (nonlinear_arith)
            requires
                be_val(ad) * 256 + a.last() == be_val(bd) * 256 + b.last(),
                0 <= a.last() < 256,
                0 <= b.last() < 256,
        ;
        if a.len() == 1 {
            assert(a.len() == b.len());
            assert(a[0] == a.last() && b[0] == b.last());
            assert(a =~= b);
        } else {
            assert(ad[0] == a[0] && bd[0] == b[0]);
            lemma_canonical_unique(ad, bd);
            assert(a.len() == b.len());
            assert forall|i: int| 0 <= i < a.len() implies a[i] == b[i] by {
                if i < a.len() - 1 {
                    assert(a[i] == ad[i]);
                    assert(b[i] == bd[i]);
                } else {
                    assert(a[i] == a.last());
                    assert(b[i] == b.last());
                }
            }
            assert(a =~= b);
        }
    }
}

/// An arbitrary-precision non-negative integer: its big-endian base-256
/// digits, canonical (no leading zero digit; empty means zero).
#[derive(Clone, Debug, PartialEq, Eq)]
pub struct Bignum {
    /// Big-endian base-256 digits of the integer.
    pub digits: Vec<u8>,
}

impl Bignum {
    /// Validity: the digit sequence is canonical.
    pub open spec fn wf(&self) -> bool {
        canonical(self.digits@)
    }

    /// The integer this value denotes.
    pub open spec fn value(&self) -> nat {
        be_val(self.digits@)
    }

    /// True exactly when the digit sequence is canonical.
    pub fn is_well_formed(&self) -> (r: bool)
        ensures
            r == self.wf(),
    {
        self.digits.len() == 0 || self.digits[0] != 0
    }

    /// The integer with the given machine-word value.
    pub fn from_u64(n: u64) -> (r: Bignum)
        ensures
            r.wf(),
            r.value() == n,
    {
        let mut rev: Vec<u8> = Vec::new();
        let mut m: u64 = n;
        proof {
            assert(rev@.reverse() =~= Seq::<u8>::empty());
            assert(be_val(rev@.reverse()) == 0);
            assert(pow256(rev@.len()) == 1);
        }
        while m > 0
            invariant
                n == m * pow256(rev@.len()) + be_val(rev@.reverse()),
                m == 0 ==> rev@.len() == 0 || rev@.last() != 0,
            decreases m,
        {
            let b: u8 = (m % 256) as u8;
            let ghost old_rev = rev@;
            let ghost old_m = m;
            rev.push(b);
            m = m / 256;
            proof {
                assert(rev@.reverse() =~= seq![b] + old_rev.reverse());
                lemma_be_val_concat(seq![b], old_rev.reverse());
                lemma_be_val_singleton(b);
                assert(old_m == (old_m / 256) * 256 + old_m % 256);
                assert(old_m * pow256(old_rev.len()) == (old_m / 256) * (256 * pow256(
                    old_rev.len(),
                )) + (old_m % 256) * pow256(old_rev.len())) by (nonlinear_arith)
                    requires
                        old_m == (old_m / 256) * 256 + old_m % 256,
                ;
            }
        }
        let r = reversed(&rev);
        proof {
            if rev@.len() > 0 {
                assert(r@[0] == rev@.last());
            }
            assert(r@ =~= rev@.reverse());
        }
        Bignum { digits: r }
    }
}

/// The digits in reverse order.
pub(crate) fn reversed(v: &Vec<u8>) -> (r: Vec<u8>)
    ensures
        r@ == v@.reverse(),
{
    let mut r: Vec<u8> = Vec::new();
    let mut i: usize = v.len();
    while i > 0
        invariant
            i <= v@.len(),
            r@.len() == v@.len() - i,
            forall|j: int| 0 <= j < r@.len() ==> r@[j] == v@[v@.len() - 1 - j],
        decreases i,
    {
        i = i - 1;
        r.push(v[i]);
    }
    proof {
        assert(r@ =~= v@.reverse());
    }
    r
}

/// The same digits without their leading zeros: the canonical form.
pub(crate) fn trimmed(v: &Vec<u8>) -> (r: Vec<u8>)
    ensures
        canonical(r@),
        be_val(r@) == be_val(v@),
{
    let mut j: usize = 0;
    while j < v.len() && v[j] == 0
        invariant
            j <= v@.len(),
            forall|k: int| 0 <= k < j ==> v@[k] == 0,
        decreases v@.len() - j,
    {
        j = j + 1;
    }
    let mut r: Vec<u8> = Vec::new();
    let mut k: usize = j;
    while k < v.len()
        invariant
            j <= k <= v@.len(),
            r@ =~= v@.subrange(j as int, k as int),
        decreases v@.len() - k,
    {
        r.push(v[k]);
        k = k + 1;
    }
    proof {
        assert(r@ =~= v@.subrange(j as int, v@.len() as int));
        assert(v@ =~= v@.subrange(0, j as int) + v@.subrange(j as int, v@.len() as int));
        lemma_be_val_leading_zeros(v@.subrange(0, j as int), v@.subrange(j as int, v@.len() as int));
    }
    r
}

/// The quotient and remainder of dividing the denoted integer by 64; the
/// quotient comes back canonical.
pub(crate) fn div64(v: &Vec<u8>) -> (res: (Vec<u8>, u8))
    ensures
        res.1 < 64,
        canonical(res.0@),
        be_val(res.0@) * 64 + res.1 == be_val(v@),
{
    let mut q: Vec<u8> = Vec::new();
    let mut carry: u8 = 0;
    let mut i: usize = 0;
    while i < v.len()
        invariant
            i <= v@.len(),
            carry < 64,
            q@.len() == i,
            be_val(q@) * 64 + carry == be_val(v@.take(i as int)),
        decreases v@.len() - i,
    {
        let cur: u16 = (carry as u16) * 256 + (v[i] as u16);
        let qd: u8 = (cur / 64) as u8;
        let ghost old_q = q@;
        let ghost old_carry = carry;
        q.push(qd);
        carry = (cur % 64) as u8;
        i = i + 1;
        proof {
            assert(v@.take(i as int).drop_last() =~= v@.take(i - 1));
            assert(v@.take(i as int).last() == v@[i - 1]);
            assert(q@ =~= old_q.push(qd));
            lemma_be_val_push(old_q, qd);
            assert(cur == qd * 64 + carry);
            assert((be_val(old_q) * 256 + qd) * 64 + carry == (be_val(old_q) * 64 + old_carry)
                * 256 + v@[i - 1]) by (nonlinear_arith)
                requires
                    cur == qd * 64 + carry,
                    cur == old_carry * 256 + v@[i - 1],
            ;
        }
    }
    proof {
        assert(v@.take(v@.len() as int) =~= v@);
    }
    let qt = trimmed(&q);
    (qt, carry)
}

/// The denoted integer times 64 plus a digit below 64, canonical.
pub(crate) fn mul64_add(v: &Vec<u8>, d: u8) -> (r: Vec<u8>)
    requires
        d < 64,
        canonical(v@),
    ensures
        canonical(r@),
        be_val(r@) == be_val(v@) * 64 + d,
{
    let mut rev: Vec<u8> = Vec::new();
    let mut carry: u8 = d;
    let mut i: usize = v.len();
    proof {
        assert(v@.skip(i as int) =~= Seq::<u8>::empty());
        assert(rev@.reverse() =~= Seq::<u8>::empty());
        assert(be_val(Seq::<u8>::empty()) == 0);
        assert(pow256(0) == 1);
    }
    while i > 0
        invariant
            i <= v@.len(),
            carry < 64,
            canonical(v@),
            rev@.len() == v@.len() - i,
            be_val(v@.skip(i as int)) * 64 + d == carry * pow256(rev@.len()) + be_val(
                rev@.reverse(),
            ),
            i == 0 && carry == 0 && v@.len() > 0 ==> rev@.last() != 0,
        decreases i,
    {
        i = i - 1;
        let cur: u16 = (v[i] as u16) * 64 + (carry as u16);
        let low: u8 = (cur % 256) as u8;
        let ghost old_rev = rev@;
        let ghost old_carry = carry;
        rev.push(low);
        carry = (cur / 256) as u8;
        proof {
            assert(v@.skip(i as int) =~= seq![v@[i as int]] + v@.skip(i + 1));
            lemma_be_val_concat(seq![v@[i as int]], v@.skip(i + 1));
            lemma_be_val_singleton(v@[i as int]);
            assert(rev@.reverse() =~= seq![low] + old_rev.reverse());
            lemma_be_val_concat(seq![low], old_rev.reverse());
            lemma_be_val_singleton(low);
            assert(cur == carry * 256 + low);
            let p = pow256(old_rev.len());
            assert((v@[i as int] * pow256(v@.skip(i + 1).len()) + be_val(v@.skip(i + 1))) * 64 + d
                == carry * (256 * p) + (low * p + be_val(old_rev.reverse()))) by (nonlinear_arith)
                requires
                    p == pow256(old_rev.len()),
                    v@.skip(i + 1).len() == old_rev.len(),
                    be_val(v@.skip(i + 1)) * 64 + d == old_carry * p + be_val(old_rev.reverse()),
                    cur == carry * 256 + low,
                    cur == v@[i as int] * 64 + old_carry,
            ;
            if i == 0 && carry == 0 {
                assert(cur == v@[0] * 64 + old_carry);
                assert(v@[0] != 0);
                assert(cur >= 64) by (nonlinear_arith)
                    requires
                        cur == v@[0] * 64 + old_carry,
                        v@[0] >= 1,
                        old_carry >= 0,
                ;
                assert(low == cur);
            }
        }
    }
    proof {
        assert(v@.skip(0) =~= v@);
        assert(be_val(v@) * 64 + d == carry * pow256(rev@.len()) + be_val(rev@.reverse()));
    }
    if carry > 0 {
        let ghost old_rev = rev@;
        rev.push(carry);
        proof {
            assert(rev@.reverse() =~= seq![carry] + old_rev.reverse());
            lemma_be_val_concat(seq![carry], old_rev.reverse());
            lemma_be_val_singleton(carry);
            assert(old_rev.reverse().len() == old_rev.len());
            assert(be_val(rev@.reverse()) == carry * pow256(old_rev.len()) + be_val(
                old_rev.reverse(),
            ));
            assert(be_val(rev@.reverse()) == be_val(v@) * 64 + d);
            assert(rev@.last() != 0);
        }
    } else {
        proof {
            assert(be_val(rev@.reverse()) == be_val(v@) * 64 + d);
        }
    }
    let r = reversed(&rev);
    proof {
        if rev@.len() > 0 {
            assert(r@[0] == rev@.last());
        }
        assert(r@ =~= rev@.reverse());
        assert(be_val(r@) == be_val(v@) * 64 + d);
    }
    r
}

} // verus!
