//! Mathematical model of rational numbers: a numerator over a positive
//! denominator, compared by cross multiplication.

use vstd::prelude::*;

verus! {

/// A rational number `num / den` in the specification world.
pub struct Frac {
    pub num: int,
    pub den: int,
}

/// A model value is valid when its denominator is positive.
pub open spec fn frac_valid(x: Frac) -> bool {
    x.den > 0
}

/// `x` and `y` denote the same rational number.
pub open spec fn frac_equiv(x: Frac, y: Frac) -> bool {
    x.num * y.den == y.num * x.den
}

/// The integer `v` as a fraction.
pub open spec fn frac_of_int(v: int) -> Frac {
    Frac { num: v, den: 1 }
}

/// `x + y`, over the product of the denominators.
pub open spec fn frac_add(x: Frac, y: Frac) -> Frac {
    Frac { num: x.num * y.den + y.num * x.den, den: x.den * y.den }
}

/// `x - y`, over the product of the denominators.
pub open spec fn frac_sub(x: Frac, y: Frac) -> Frac {
    Frac { num: x.num * y.den - y.num * x.den, den: x.den * y.den }
}

/// `x * y`.
pub open spec fn frac_mul(x: Frac, y: Frac) -> Frac {
    Frac { num: x.num * y.num, den: x.den * y.den }
}

/// `-x`.
pub open spec fn frac_neg(x: Frac) -> Frac {
    Frac { num: -x.num, den: x.den }
}

/// Sign of a valid rational: -1, 0 or 1.
pub open spec fn frac_sign(x: Frac) -> int {
    if x.num > 0 {
        1
    } else if x.num < 0 {
        -1
    } else {
        0
    }
}

/// A product of positive integers is positive.
pub proof fn lemma_mul_pos(a: int, b: int)
    requires
        a > 0,
        b > 0,
    ensures
        a * b > 0,
{
    assert(a * b > 0) by (nonlinear_arith)
        requires
            a > 0,
            b > 0,
    ;
}

/// The operations keep denominators positive.
pub proof fn lemma_ops_valid(x: Frac, y: Frac)
    requires
        frac_valid(x),
        frac_valid(y),
    ensures
        frac_valid(frac_add(x, y)),
        frac_valid(frac_sub(x, y)),
        frac_valid(frac_mul(x, y)),
        frac_valid(frac_neg(x)),
{
    lemma_mul_pos(x.den, y.den);
}

/// Every fraction is equivalent to itself.
pub proof fn lemma_equiv_refl(x: Frac)
    ensures
        frac_equiv(x, x),
{
}

/// Equivalence is symmetric.
pub proof fn lemma_equiv_symm(x: Frac, y: Frac)
    requires
        frac_equiv(x, y),
    ensures
        frac_equiv(y, x),
{
}

/// Equivalence is transitive through a valid middle value.
pub proof fn lemma_equiv_trans(x: Frac, y: Frac, z: Frac)
    requires
        frac_valid(y),
        frac_equiv(x, y),
        frac_equiv(y, z),
    ensures
        frac_equiv(x, z),
{
    assert((x.num * z.den - z.num * x.den) * y.den == 0) by (nonlinear_arith)
        requires
            x.num * y.den == y.num * x.den,
            y.num * z.den == z.num * y.den,
    ;
    assert(x.num * z.den - z.num * x.den == 0) by (nonlinear_arith)
        requires
            (x.num * z.den - z.num * x.den) * y.den == 0,
            y.den > 0,
    ;
}

/// Equivalent valid rationals have the same sign.
pub proof fn lemma_equiv_sign(x: Frac, y: Frac)
    requires
        frac_valid(x),
        frac_valid(y),
        frac_equiv(x, y),
    ensures
        frac_sign(x) == frac_sign(y),
{
    assert(x.num > 0 <==> y.num > 0) by (nonlinear_arith)
        requires
            x.num * y.den == y.num * x.den,
            x.den > 0,
            y.den > 0,
    ;
    assert(x.num < 0 <==> y.num < 0) by (nonlinear_arith)
        requires
            x.num * y.den == y.num * x.den,
            x.den > 0,
            y.den > 0,
    ;
}

/// A value equivalent to zero is zero.
pub proof fn lemma_equiv_zero(x: Frac, y: Frac)
    requires
        frac_valid(x),
        frac_equiv(x, y),
        x.num == 0,
    ensures
        y.num == 0,
        frac_equiv(frac_of_int(0), y),
{
    assert(y.num * x.den == 0);
    assert(y.num == 0) by (nonlinear_arith)
        requires
            y.num * x.den == 0,
            x.den > 0,
    ;
}

/// A value with a zero numerator is equivalent to zero.
pub proof fn lemma_zero_equiv(y: Frac)
    requires
        y.num == 0,
    ensures
        frac_equiv(frac_of_int(0), y),
{
    assert(0 * y.den == 0);
}

/// Sums of equivalent valid fractions are equivalent.
pub proof fn lemma_add_congruence(x: Frac, x2: Frac, y: Frac, y2: Frac)
    requires
        frac_equiv(x, x2),
        frac_equiv(y, y2),
    ensures
        frac_equiv(frac_add(x, y), frac_add(x2, y2)),
{
    lemma_cross_terms(x.num, x.den, x2.num, x2.den, y.num, y.den, y2.num, y2.den);
}

/// Differences of equivalent valid fractions are equivalent.
pub proof fn lemma_sub_congruence(x: Frac, x2: Frac, y: Frac, y2: Frac)
    requires
        frac_equiv(x, x2),
        frac_equiv(y, y2),
    ensures
        frac_equiv(frac_sub(x, y), frac_sub(x2, y2)),
{
    lemma_cross_terms(x.num, x.den, x2.num, x2.den, y.num, y.den, y2.num, y2.den);
}

/// With `a/b ~ a2/b2` and `c/d ~ c2/d2`, the cross terms of the sums agree.
proof fn lemma_cross_terms(a: int, b: int, a2: int, b2: int, c: int, d: int, c2: int, d2: int)
    requires
        a * b2 == a2 * b,
        c * d2 == c2 * d,
    ensures
        (a * d) * (b2 * d2) == (a2 * d2) * (b * d),
        (c * b) * (b2 * d2) == (c2 * b2) * (b * d),
        (a * d + c * b) * (b2 * d2) == (a2 * d2 + c2 * b2) * (b * d),
        (a * d - c * b) * (b2 * d2) == (a2 * d2 - c2 * b2) * (b * d),
{
    assert((a * d) * (b2 * d2) == (a * b2) * (d * d2)) by (nonlinear_arith);
    assert((a2 * d2) * (b * d) == (a2 * b) * (d * d2)) by (nonlinear_arith);
    assert((c * b) * (b2 * d2) == (c * d2) * (b * b2)) by (nonlinear_arith);
    assert((c2 * b2) * (b * d) == (c2 * d) * (b * b2)) by (nonlinear_arith);
    assert((a * d + c * b) * (b2 * d2) == (a * d) * (b2 * d2) + (c * b) * (b2 * d2))
        by (nonlinear_arith);
    assert((a2 * d2 + c2 * b2) * (b * d) == (a2 * d2) * (b * d) + (c2 * b2) * (b * d))
        by (nonlinear_arith);
    assert((a * d - c * b) * (b2 * d2) == (a * d) * (b2 * d2) - (c * b) * (b2 * d2))
        by (nonlinear_arith);
    assert((a2 * d2 - c2 * b2) * (b * d) == (a2 * d2) * (b * d) - (c2 * b2) * (b * d))
        by (nonlinear_arith);
}

/// Products of equivalent valid fractions are equivalent.
pub proof fn lemma_mul_congruence(x: Frac, x2: Frac, y: Frac, y2: Frac)
    requires
        frac_equiv(x, x2),
        frac_equiv(y, y2),
    ensures
        frac_equiv(frac_mul(x, y), frac_mul(x2, y2)),
{
    let (a, b, a2, b2) = (x.num, x.den, x2.num, x2.den);
    let (c, d, c2, d2) = (y.num, y.den, y2.num, y2.den);
    assert((a * c) * (b2 * d2) == (a * b2) * (c * d2)) by (nonlinear_arith);
    assert((a2 * c2) * (b * d) == (a2 * b) * (c2 * d)) by (nonlinear_arith);
}

/// Negations of equivalent fractions are equivalent.
pub proof fn lemma_neg_congruence(x: Frac, x2: Frac)
    requires
        frac_equiv(x, x2),
    ensures
        frac_equiv(frac_neg(x), frac_neg(x2)),
{
    assert((-x.num) * x2.den == -(x.num * x2.den)) by (nonlinear_arith);
    assert((-x2.num) * x.den == -(x2.num * x.den)) by (nonlinear_arith);
}

/// A computed value `r` equivalent to an operation on `x, y`, whose
/// operands are in turn equivalent to `sx, sy`, is equivalent to the same
/// operation on `sx, sy`.
pub proof fn lemma_add_chain(r: Frac, x: Frac, y: Frac, sx: Frac, sy: Frac)
    requires
        frac_valid(x),
        frac_valid(y),
        frac_equiv(r, frac_add(x, y)),
        frac_equiv(x, sx),
        frac_equiv(y, sy),
    ensures
        frac_equiv(r, frac_add(sx, sy)),
{
    lemma_ops_valid(x, y);
    lemma_add_congruence(x, sx, y, sy);
    lemma_equiv_trans(r, frac_add(x, y), frac_add(sx, sy));
}

/// A value equivalent to `x - y` is equivalent to `sx - sy` when `x ~ sx`
/// and `y ~ sy`.
pub proof fn lemma_sub_chain(r: Frac, x: Frac, y: Frac, sx: Frac, sy: Frac)
    requires
        frac_valid(x),
        frac_valid(y),
        frac_equiv(r, frac_sub(x, y)),
        frac_equiv(x, sx),
        frac_equiv(y, sy),
    ensures
        frac_equiv(r, frac_sub(sx, sy)),
{
    lemma_ops_valid(x, y);
    lemma_sub_congruence(x, sx, y, sy);
    lemma_equiv_trans(r, frac_sub(x, y), frac_sub(sx, sy));
}

/// A value equivalent to `x * y` is equivalent to `sx * sy` when `x ~ sx`
/// and `y ~ sy`.
pub proof fn lemma_mul_chain(r: Frac, x: Frac, y: Frac, sx: Frac, sy: Frac)
    requires
        frac_valid(x),
        frac_valid(y),
        frac_equiv(r, frac_mul(x, y)),
        frac_equiv(x, sx),
        frac_equiv(y, sy),
    ensures
        frac_equiv(r, frac_mul(sx, sy)),
{
    lemma_ops_valid(x, y);
    lemma_mul_congruence(x, sx, y, sy);
    lemma_equiv_trans(r, frac_mul(x, y), frac_mul(sx, sy));
}

/// Adding two values to an accumulator gives the same representation in
/// either order.
pub proof fn lemma_add_swap(b: Frac, t1: Frac, t2: Frac)
    ensures
        frac_add(frac_add(b, t2), t1) == frac_add(frac_add(b, t1), t2),
{
    lemma_add_swap_ints(b.num, b.den, t1.num, t1.den, t2.num, t2.den);
}

proof fn lemma_add_swap_ints(bn: int, bd: int, an: int, ad: int, cn: int, cd: int)
    ensures
        (bn * cd + cn * bd) * ad + an * (bd * cd) == (bn * ad + an * bd) * cd + cn * (bd * ad),
        (bd * cd) * ad == (bd * ad) * cd,
{
    assert((bn * cd + cn * bd) * ad == bn * cd * ad + cn * bd * ad) by (nonlinear_arith);
    assert((bn * ad + an * bd) * cd == bn * ad * cd + an * bd * cd) by (nonlinear_arith);
    assert(bn * cd * ad == bn * ad * cd) by (nonlinear_arith);
    assert(cn * bd * ad == cn * (bd * ad)) by (nonlinear_arith);
    assert(an * (bd * cd) == an * bd * cd) by (nonlinear_arith);
    assert((bd * cd) * ad == (bd * ad) * cd) by (nonlinear_arith);
}

/// Multiplication regroups without changing the representation.
pub proof fn lemma_mul_assoc(a: Frac, b: Frac, c: Frac)
    ensures
        frac_mul(frac_mul(a, b), c) == frac_mul(a, frac_mul(b, c)),
{
    assert((a.num * b.num) * c.num == a.num * (b.num * c.num)) by (nonlinear_arith);
    assert((a.den * b.den) * c.den == a.den * (b.den * c.den)) by (nonlinear_arith);
}

/// `x` raised to the power `n`.
pub open spec fn frac_pow(x: Frac, n: nat) -> Frac
    decreases n,
{
    if n == 0 {
        frac_of_int(1)
    } else {
        frac_mul(frac_pow(x, (n - 1) as nat), x)
    }
}

/// A power of a valid value is valid.
pub proof fn lemma_pow_valid(x: Frac, n: nat)
    requires
        frac_valid(x),
    ensures
        frac_valid(frac_pow(x, n)),
    decreases n,
{
    if n > 0 {
        lemma_pow_valid(x, (n - 1) as nat);
        lemma_ops_valid(frac_pow(x, (n - 1) as nat), x);
    }
}

/// Multiplication commutes without changing the representation.
pub proof fn lemma_mul_comm(a: Frac, b: Frac)
    ensures
        frac_mul(a, b) == frac_mul(b, a),
{
    assert(a.num * b.num == b.num * a.num) by (nonlinear_arith);
    assert(a.den * b.den == b.den * a.den) by (nonlinear_arith);
}

/// Negating one factor negates the product.
pub proof fn lemma_mul_neg_right(a: Frac, b: Frac)
    ensures
        frac_mul(a, frac_neg(b)) == frac_neg(frac_mul(a, b)),
{
    assert(a.num * (-b.num) == -(a.num * b.num)) by (nonlinear_arith);
}

/// The sum of two negations is the negation of the sum.
pub proof fn lemma_add_neg(a: Frac, b: Frac)
    ensures
        frac_add(frac_neg(a), frac_neg(b)) == frac_neg(frac_add(a, b)),
{
    assert((-a.num) * b.den + (-b.num) * a.den == -(a.num * b.den + b.num * a.den)) by (nonlinear_arith);
}

/// Adding zero leaves the representation unchanged.
pub proof fn lemma_add_zero_right(x: Frac)
    ensures
        frac_add(x, frac_of_int(0)) == x,
{
}

/// Addition regroups without changing the representation.
pub proof fn lemma_add_assoc(a: Frac, b: Frac, c: Frac)
    ensures
        frac_add(frac_add(a, b), c) == frac_add(a, frac_add(b, c)),
{
    lemma_add_assoc_ints(a.num, a.den, b.num, b.den, c.num, c.den);
}

proof fn lemma_add_assoc_ints(an: int, ad: int, bn: int, bd: int, cn: int, cd: int)
    ensures
        (an * bd + bn * ad) * cd + cn * (ad * bd) == an * (bd * cd) + (bn * cd + cn * bd) * ad,
        (ad * bd) * cd == ad * (bd * cd),
{
    assert((an * bd + bn * ad) * cd == an * bd * cd + bn * ad * cd) by (nonlinear_arith);
    assert((bn * cd + cn * bd) * ad == bn * cd * ad + cn * bd * ad) by (nonlinear_arith);
    assert(an * (bd * cd) == an * bd * cd) by (nonlinear_arith);
    assert(bn * ad * cd == bn * cd * ad) by (nonlinear_arith);
    assert(cn * (ad * bd) == cn * bd * ad) by (nonlinear_arith);
    assert((ad * bd) * cd == ad * (bd * cd)) by (nonlinear_arith);
}

/// Addition commutes without changing the representation.
pub proof fn lemma_add_comm(a: Frac, b: Frac)
    ensures
        frac_add(a, b) == frac_add(b, a),
{
    assert(a.den * b.den == b.den * a.den) by (nonlinear_arith);
}

/// Adding a value whose numerator is zero gives an equivalent value.
pub proof fn lemma_add_zero_num(x: Frac, z: Frac)
    requires
        z.num == 0,
    ensures
        frac_equiv(frac_add(x, z), x),
{
    assert((x.num * z.den + 0 * x.den) * x.den == x.num * (x.den * z.den)) by (nonlinear_arith);
}

/// Multiplication distributes over addition, up to equivalence.
pub proof fn lemma_mul_distrib(c: Frac, a: Frac, b: Frac)
    ensures
        frac_equiv(frac_mul(c, frac_add(a, b)), frac_add(frac_mul(c, a), frac_mul(c, b))),
{
    lemma_distrib_ints(c.num, c.den, a.num, a.den, b.num, b.den);
}

proof fn lemma_distrib_ints(cn: int, cd: int, an: int, ad: int, bn: int, bd: int)
    ensures
        (cn * (an * bd + bn * ad)) * ((cd * ad) * (cd * bd)) == ((cn * an) * (cd * bd) + (cn * bn) * (
        cd * ad)) * (cd * (ad * bd)),
{
    let ln = cn * (an * bd + bn * ad);
    let ld = cd * (ad * bd);
    let p = cn * an * bd;
    let q = cn * bn * ad;
    assert(ln == p + q) by (nonlinear_arith)
        requires
            ln == cn * (an * bd + bn * ad),
            p == cn * an * bd,
            q == cn * bn * ad,
    ;
    assert((cn * an) * (cd * bd) == cd * p) by (nonlinear_arith)
        requires
            p == cn * an * bd,
    ;
    assert((cn * bn) * (cd * ad) == cd * q) by (nonlinear_arith)
        requires
            q == cn * bn * ad,
    ;
    assert(cd * (p + q) == cd * p + cd * q) by (nonlinear_arith);
    assert((cd * ad) * (cd * bd) == cd * ld) by (nonlinear_arith)
        requires
            ld == cd * (ad * bd),
    ;
    assert(ln * (cd * ld) == (cd * ln) * ld) by (nonlinear_arith);
}

/// Multiplication distributes over addition from the right, up to
/// equivalence.
pub proof fn lemma_mul_distrib_right(a: Frac, b: Frac, c: Frac)
    ensures
        frac_equiv(frac_mul(frac_add(a, b), c), frac_add(frac_mul(a, c), frac_mul(b, c))),
{
    lemma_mul_comm(frac_add(a, b), c);
    lemma_mul_distrib(c, a, b);
    lemma_mul_comm(c, a);
    lemma_mul_comm(c, b);
}

/// Powers add their exponents: `x^(a + b) = x^a x^b`.
pub proof fn lemma_pow_add(x: Frac, a: nat, b: nat)
    ensures
        frac_pow(x, a + b) == frac_mul(frac_pow(x, a), frac_pow(x, b)),
    decreases b,
{
    if b == 0 {
        let p = frac_pow(x, a);
        assert(p.num * 1 == p.num && p.den * 1 == p.den);
    } else {
        lemma_pow_add(x, a, (b - 1) as nat);
        lemma_mul_assoc(frac_pow(x, a), frac_pow(x, (b - 1) as nat), x);
        assert(frac_pow(x, a + b) == frac_mul(frac_pow(x, (a + b - 1) as nat), x));
    }
}

/// Subtracting is adding the negation.
pub proof fn lemma_sub_as_add(a: Frac, b: Frac)
    ensures
        frac_sub(a, b) == frac_add(a, frac_neg(b)),
{
    assert((-b.num) * a.den == -(b.num * a.den)) by (nonlinear_arith);
}

} // verus!
