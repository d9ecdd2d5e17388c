//! Exact rational numbers for combinatorial predicates.
//!
//! A value is held as plain data: a sign flag and the 64-bit limbs
//! (least significant first) of its numerator and denominator. The
//! arithmetic itself is done by malachite's `Rational`; the wrappers below
//! convert the limbs in, make one call, and convert the result back.

use malachite_base::num::arithmetic::traits::Sign;
use malachite_nz::natural::Natural;
use malachite_q::Rational;
use std::cmp::Ordering;
use vstd::prelude::*;

use crate::frac::{
    frac_add, frac_equiv, frac_mul, frac_neg, frac_of_int, frac_sub, frac_valid, Frac,
};

verus! {

/// The radix of one limb.
pub open spec fn limb_base() -> int {
    18446744073709551616
}

/// The natural number whose base-2^64 digits, least significant first, are `s`.
pub open spec fn limbs_value(s: Seq<u64>) -> nat
    decreases s.len(),
{
    if s.len() == 0 {
        0
    } else {
        (s[0] as nat + limb_base() * limbs_value(s.drop_first())) as nat
    }
}

/// The most significant limb, if any, is nonzero.
pub open spec fn no_trailing_zero(s: Seq<u64>) -> bool {
    s.len() == 0 || s.last() != 0
}

/// Without trailing zero limbs, a limb sequence is zero exactly when it is empty.
pub proof fn lemma_limbs_zero(s: Seq<u64>)
    requires
        no_trailing_zero(s),
    ensures
        (limbs_value(s) == 0) == (s.len() == 0),
    decreases s.len(),
{
    if s.len() > 0 {
        let rest = s.drop_first();
        if rest.len() == 0 {
            assert(s.last() == s[0]);
        } else {
            assert(rest.last() == s.last());
            lemma_limbs_zero(rest);
            assert(limb_base() * limbs_value(rest) > 0) by (nonlinear_arith)
                requires
                    limbs_value(rest) > 0,
                    limb_base() > 0,
            ;
        }
    }
}

/// Dropping a zero most significant limb keeps the value.
pub proof fn lemma_limbs_drop_zero(s: Seq<u64>)
    requires
        s.len() > 0,
        s.last() == 0,
    ensures
        limbs_value(s.drop_last()) == limbs_value(s),
    decreases s.len(),
{
    if s.len() == 1 {
        assert(s.drop_last() =~= Seq::<u64>::empty());
        assert(s.drop_first() =~= Seq::<u64>::empty());
        assert(s[0] == s.last());
        assert(limbs_value(s) == (s[0] as nat + limb_base() * limbs_value(s.drop_first())) as nat);
    } else {
        let rest = s.drop_first();
        assert(rest.last() == 0);
        lemma_limbs_drop_zero(rest);
        let t = s.drop_last();
        assert(t.drop_first() =~= rest.drop_last());
        assert(t[0] == s[0]);
        assert(limbs_value(t) == (t[0] as nat + limb_base() * limbs_value(t.drop_first())) as nat);
        assert(limbs_value(s) == (s[0] as nat + limb_base() * limbs_value(rest)) as nat);
    }
}

/// A single limb has its own value.
pub proof fn lemma_limbs_single(v: u64)
    ensures
        limbs_value(seq![v]) == v,
{
    let s = seq![v];
    assert(s.drop_first() =~= Seq::<u64>::empty());
    assert(limbs_value(s.drop_first()) == 0);
    assert(limbs_value(s) == (s[0] as nat + limb_base() * limbs_value(s.drop_first())) as nat);
}

/// An exact rational number.
pub struct ExactRational {
    negative: bool,
    numerator: Vec<u64>,
    denominator: Vec<u64>,
}

impl ExactRational {
    /// The representation invariant: canonical limbs, a nonzero
    /// denominator, and no negative zero.
    pub closed spec fn wf(&self) -> bool {
        &&& no_trailing_zero(self.numerator@)
        &&& no_trailing_zero(self.denominator@)
        &&& self.denominator@.len() > 0
        &&& (self.numerator@.len() == 0 ==> !self.negative)
    }

    /// The number this value denotes.
    pub closed spec fn frac(&self) -> Frac {
        let n = limbs_value(self.numerator@) as int;
        Frac { num: if self.negative { -n } else { n }, den: limbs_value(self.denominator@) as int }
    }

    /// A well formed value has a positive denominator, and its numerator is
    /// zero exactly when it is the number zero.
    pub proof fn lemma_wf(&self)
        requires
            self.wf(),
        ensures
            frac_valid(self.frac()),
    {
        lemma_limbs_zero(self.denominator@);
    }

    /// The rational zero.
    pub fn zero() -> (r: ExactRational)
        ensures
            r.wf(),
            r.frac() == frac_of_int(0),
    {
        let mut den: Vec<u64> = Vec::new();
        den.push(1);
        proof {
            lemma_limbs_single(1);
            assert(den@ =~= seq![1u64]);
        }
        let r = ExactRational { negative: false, numerator: Vec::new(), denominator: den };
        assert(r.numerator@.len() == 0);
        r
    }

    /// The rational equal to the integer `v`.
    pub fn from_i64(v: i64) -> (r: ExactRational)
        ensures
            r.wf(),
            r.frac() == frac_of_int(v as int),
    {
        let mut den: Vec<u64> = Vec::new();
        den.push(1);
        let mut num: Vec<u64> = Vec::new();
        let negative = v < 0;
        if v != 0 {
            let magnitude: u64 = if v < 0 {
                ((-(v as i128)) as u64)
            } else {
                v as u64
            };
            num.push(magnitude);
            proof {
                lemma_limbs_single(magnitude);
                assert(num@ =~= seq![magnitude]);
            }
        }
        proof {
            lemma_limbs_single(1);
            assert(den@ =~= seq![1u64]);
        }
        ExactRational { negative, numerator: num, denominator: den }
    }

    /// Builds a rational from a sign flag and the limbs of its numerator
    /// and denominator. Zero limbs at the most significant end are dropped
    /// and zero is never negative. Returns `None` exactly when the
    /// denominator is zero.
    pub fn from_limbs(negative: bool, numerator: Vec<u64>, denominator: Vec<u64>) -> (r: Option<
        ExactRational,
    >)
        ensures
            r is None <==> limbs_value(denominator@) == 0,
            r matches Some(q) ==> q.wf() && q.frac() == (Frac {
                num: if negative {
                    -(limbs_value(numerator@) as int)
                } else {
                    limbs_value(numerator@) as int
                },
                den: limbs_value(denominator@) as int,
            }),
    {
        let num = strip_high_zeros(numerator);
        let den = strip_high_zeros(denominator);
        proof {
            lemma_limbs_zero(num@);
            lemma_limbs_zero(den@);
        }
        if den.len() == 0 {
            None
        } else {
            let neg = negative && num.len() > 0;
            Some(ExactRational { negative: neg, numerator: num, denominator: den })
        }
    }

    /// Whether the value is below zero.
    pub fn is_negative(&self) -> (b: bool)
        requires
            self.wf(),
        ensures
            b == (self.frac().num < 0),
    {
        proof {
            lemma_limbs_zero(self.numerator@);
        }
        self.negative
    }

    /// The limbs of the numerator's magnitude, least significant first.
    pub fn numerator_limbs(&self) -> (v: Vec<u64>)
        ensures
            self.wf() ==> no_trailing_zero(v@),
            limbs_value(v@) as int == if self.frac().num < 0 {
                -self.frac().num
            } else {
                self.frac().num
            },
    {
        self.numerator.clone()
    }

    /// The limbs of the denominator, least significant first.
    pub fn denominator_limbs(&self) -> (v: Vec<u64>)
        ensures
            self.wf() ==> no_trailing_zero(v@) && v@.len() > 0,
            limbs_value(v@) as int == self.frac().den,
    {
        self.denominator.clone()
    }

    /// Whether the value is zero.
    pub fn is_zero(&self) -> (b: bool)
        requires
            self.wf(),
        ensures
            b == (self.frac().num == 0),
    {
        proof {
            lemma_limbs_zero(self.numerator@);
        }
        self.numerator.len() == 0
    }

    /// The negation.
    pub fn neg(&self) -> (r: ExactRational)
        requires
            self.wf(),
        ensures
            r.wf(),
            r.frac() == frac_neg(self.frac()),
    {
        let negative = if self.numerator.len() == 0 {
            false
        } else {
            !self.negative
        };
        proof {
            lemma_limbs_zero(self.numerator@);
        }
        ExactRational {
            negative,
            numerator: self.numerator.clone(),
            denominator: self.denominator.clone(),
        }
    }

    /// A copy of this value.
    pub fn copy(&self) -> (r: ExactRational)
        ensures
            r.wf() == self.wf(),
            r.frac() == self.frac(),
    {
        ExactRational {
            negative: self.negative,
            numerator: self.numerator.clone(),
            denominator: self.denominator.clone(),
        }
    }

    /// Exact sum.
    pub fn add(&self, other: &ExactRational) -> (r: ExactRational)
        requires
            self.wf(),
            other.wf(),
        ensures
            r.wf(),
            frac_equiv(r.frac(), frac_add(self.frac(), other.frac())),
    {
        rational_add(self, other)
    }

    /// Exact difference `self - other`.
    pub fn sub(&self, other: &ExactRational) -> (r: ExactRational)
        requires
            self.wf(),
            other.wf(),
        ensures
            r.wf(),
            frac_equiv(r.frac(), frac_sub(self.frac(), other.frac())),
    {
        rational_sub(self, other)
    }

    /// Exact product.
    pub fn mul(&self, other: &ExactRational) -> (r: ExactRational)
        requires
            self.wf(),
            other.wf(),
        ensures
            r.wf(),
            frac_equiv(r.frac(), frac_mul(self.frac(), other.frac())),
    {
        rational_mul(self, other)
    }

    /// Whether two values denote the same number.
    pub fn equals(&self, other: &ExactRational) -> (b: bool)
        requires
            self.wf(),
            other.wf(),
        ensures
            b == frac_equiv(self.frac(), other.frac()),
    {
        rational_eq(self, other)
    }
}

/// Removes zero limbs from the most significant end.
fn strip_high_zeros(v: Vec<u64>) -> (r: Vec<u64>)
    ensures
        no_trailing_zero(r@),
        limbs_value(r@) == limbs_value(v@),
{
    let mut r = v;
    while r.len() > 0 && r[r.len() - 1] == 0
        invariant
            limbs_value(r@) == limbs_value(v@),
        decreases r.len(),
    {
        proof {
            lemma_limbs_drop_zero(r@);
        }
        r.pop();
    }
    r
}

/// Sum by malachite's `Rational` `+` (on references). The contract claims
/// that the result is a well formed value (malachite keeps the denominator
/// positive, returns limbs without high zero limbs, and never makes zero
/// negative) whose value equals the sum of the operands' values.
#[verifier::external_body]
fn rational_add(a: &ExactRational, b: &ExactRational) -> (r: ExactRational)
    requires
        a.wf(),
        b.wf(),
    ensures
        r.wf(),
        frac_equiv(r.frac(), frac_add(a.frac(), b.frac())),
{
    let x = Rational::from_sign_and_naturals(!a.negative, Natural::from_limbs_asc(&a.numerator), Natural::from_limbs_asc(&a.denominator));
    let y = Rational::from_sign_and_naturals(!b.negative, Natural::from_limbs_asc(&b.numerator), Natural::from_limbs_asc(&b.denominator));
    let s = &x + &y;
    ExactRational { negative: s.sign() == Ordering::Less, numerator: s.numerator_ref().to_limbs_asc(), denominator: s.denominator_ref().to_limbs_asc() }
}

/// Difference by malachite's `Rational` `-` (on references). The contract
/// claims a well formed result whose value is `a - b`.
#[verifier::external_body]
fn rational_sub(a: &ExactRational, b: &ExactRational) -> (r: ExactRational)
    requires
        a.wf(),
        b.wf(),
    ensures
        r.wf(),
        frac_equiv(r.frac(), frac_sub(a.frac(), b.frac())),
{
    let x = Rational::from_sign_and_naturals(!a.negative, Natural::from_limbs_asc(&a.numerator), Natural::from_limbs_asc(&a.denominator));
    let y = Rational::from_sign_and_naturals(!b.negative, Natural::from_limbs_asc(&b.numerator), Natural::from_limbs_asc(&b.denominator));
    let s = &x - &y;
    ExactRational { negative: s.sign() == Ordering::Less, numerator: s.numerator_ref().to_limbs_asc(), denominator: s.denominator_ref().to_limbs_asc() }
}

/// Product by malachite's `Rational` `*` (on references). The contract
/// claims a well formed result whose value is `a * b`.
#[verifier::external_body]
fn rational_mul(a: &ExactRational, b: &ExactRational) -> (r: ExactRational)
    requires
        a.wf(),
        b.wf(),
    ensures
        r.wf(),
        frac_equiv(r.frac(), frac_mul(a.frac(), b.frac())),
{
    let x = Rational::from_sign_and_naturals(!a.negative, Natural::from_limbs_asc(&a.numerator), Natural::from_limbs_asc(&a.denominator));
    let y = Rational::from_sign_and_naturals(!b.negative, Natural::from_limbs_asc(&b.numerator), Natural::from_limbs_asc(&b.denominator));
    let s = &x * &y;
    ExactRational { negative: s.sign() == Ordering::Less, numerator: s.numerator_ref().to_limbs_asc(), denominator: s.denominator_ref().to_limbs_asc() }
}

/// Equality by malachite's `Rational` `==`. Both operands are first
/// reduced by `from_sign_and_naturals`, so `==` compares values: the
/// contract claims the result is true exactly when the two denote the same
/// number.
#[verifier::external_body]
fn rational_eq(a: &ExactRational, b: &ExactRational) -> (r: bool)
    requires
        a.wf(),
        b.wf(),
    ensures
        r == frac_equiv(a.frac(), b.frac()),
{
    let x = Rational::from_sign_and_naturals(!a.negative, Natural::from_limbs_asc(&a.numerator), Natural::from_limbs_asc(&a.denominator));
    let y = Rational::from_sign_and_naturals(!b.negative, Natural::from_limbs_asc(&b.numerator), Natural::from_limbs_asc(&b.denominator));
    x == y
}

} // verus!
