//! Evaluation of polynomials respects their arithmetic.

use vstd::prelude::*;

use crate::frac::{
    frac_add, frac_equiv, frac_mul, frac_neg, frac_of_int, frac_pow, frac_sub, frac_valid, lemma_add_congruence,
    lemma_equiv_refl, lemma_equiv_symm, lemma_equiv_trans, lemma_mul_assoc, lemma_mul_comm,
    lemma_mul_congruence, lemma_mul_distrib_right, lemma_ops_valid, lemma_pow_add, lemma_pow_valid, Frac,
};
use crate::poly::{
    collected_by_y, map_coeff, mul_target, pair_product, pair_sums_to, support_pairs, term_value, BiPoly, ExpPair,
};
use crate::sums::{
    lemma_sum_add, lemma_sum_congruence, lemma_sum_empty, lemma_sum_ext, lemma_sum_insert, lemma_sum_partition, lemma_sum_product,
    lemma_sum_reindex, lemma_sum_scale, lemma_sum_union, lemma_sum_valid, lemma_sum_zero_terms, pairs_of, set_sum,
    with_key,
};

verus! {

/// Each term of a well formed polynomial has a valid value.
proof fn lemma_term_valid(p: BiPoly, x: Frac, y: Frac, k: (u32, u32))
    requires
        p.wf(),
        frac_valid(x),
        frac_valid(y),
    ensures
        frac_valid(p.term_fn(x, y)(k)),
        frac_valid(map_coeff(p.terms_view(), k)),
{
    if p.support().contains(k) {
        p.terms_view()[k].lemma_wf();
    }
    lemma_pow_valid(x, k.0 as nat);
    lemma_pow_valid(y, k.1 as nat);
    lemma_ops_valid(map_coeff(p.terms_view(), k), frac_pow(x, k.0 as nat));
    lemma_ops_valid(frac_mul(map_coeff(p.terms_view(), k), frac_pow(x, k.0 as nat)), frac_pow(y, k.1 as nat));
}

/// The value of a polynomial is its sum of terms over any finite set of
/// exponents that holds its support.
proof fn lemma_eval_over(p: BiPoly, u: Set<(u32, u32)>, x: Frac, y: Frac)
    requires
        p.wf(),
        frac_valid(x),
        frac_valid(y),
        u.finite(),
        p.support().subset_of(u),
    ensures
        frac_equiv(p.eval_spec(x, y), set_sum(u, p.term_fn(x, y))),
        frac_valid(p.eval_spec(x, y)),
        frac_valid(set_sum(u, p.term_fn(x, y))),
{
    let tf = p.term_fn(x, y);
    assert forall|k: (u32, u32)| u.contains(k) implies frac_valid(#[trigger] tf(k)) by {
        lemma_term_valid(p, x, y, k);
    }
    assert forall|k: (u32, u32)| u.contains(k) && !p.support().contains(k) implies (#[trigger] tf(k)).num == 0 by {
        let a = frac_pow(x, k.0 as nat);
        let b = frac_pow(y, k.1 as nat);
        assert(map_coeff(p.terms_view(), k) == frac_of_int(0));
        assert(0 * a.num == 0);
        assert(0 * b.num == 0);
    }
    p.lemma_support_finite();
    lemma_sum_zero_terms(p.support(), u, tf);
    lemma_sum_valid(u, tf);
    lemma_sum_valid(p.support(), tf);
    lemma_equiv_symm(set_sum(u, tf), set_sum(p.support(), tf));
}

/// `((a + b) X) Y` is equivalent to `(a X) Y + (b X) Y`.
proof fn lemma_term_split(a: Frac, b: Frac, xp: Frac, yp: Frac)
    requires
        frac_valid(a),
        frac_valid(b),
        frac_valid(xp),
        frac_valid(yp),
    ensures
        frac_equiv(
            frac_mul(frac_mul(frac_add(a, b), xp), yp),
            frac_add(frac_mul(frac_mul(a, xp), yp), frac_mul(frac_mul(b, xp), yp)),
        ),
{
    let ax = frac_mul(a, xp);
    let bx = frac_mul(b, xp);
    lemma_mul_distrib_right(a, b, xp);
    lemma_equiv_refl(yp);
    lemma_mul_congruence(frac_mul(frac_add(a, b), xp), frac_add(ax, bx), yp, yp);
    lemma_mul_distrib_right(ax, bx, yp);
    lemma_ops_valid(a, b);
    lemma_ops_valid(a, xp);
    lemma_ops_valid(b, xp);
    lemma_ops_valid(ax, bx);
    lemma_ops_valid(frac_add(ax, bx), yp);
    lemma_equiv_trans(
        frac_mul(frac_mul(frac_add(a, b), xp), yp),
        frac_mul(frac_add(ax, bx), yp),
        frac_add(frac_mul(ax, yp), frac_mul(bx, yp)),
    );
}

/// Evaluation respects addition: a polynomial whose coefficients are the
/// sums of those of `p` and `q` (what `BiPoly::add` returns) takes at
/// every point the sum of their values.
pub proof fn law_eval_add(p: BiPoly, q: BiPoly, r: BiPoly, x: Frac, y: Frac)
    requires
        p.wf(),
        q.wf(),
        r.wf(),
        frac_valid(x),
        frac_valid(y),
        forall|i: u32, j: u32|
            frac_equiv(#[trigger] r.coeff_spec(i, j), frac_add(p.coeff_spec(i, j), q.coeff_spec(i, j))),
    ensures
        frac_equiv(r.eval_spec(x, y), frac_add(p.eval_spec(x, y), q.eval_spec(x, y))),
{
    p.lemma_support_finite();
    q.lemma_support_finite();
    r.lemma_support_finite();
    let u = p.support().union(q.support()).union(r.support());
    let tp = p.term_fn(x, y);
    let tq = q.term_fn(x, y);
    let tr = r.term_fn(x, y);
    let tpq = |k: (u32, u32)| frac_add(tp(k), tq(k));
    lemma_eval_over(p, u, x, y);
    lemma_eval_over(q, u, x, y);
    lemma_eval_over(r, u, x, y);
    assert forall|k: (u32, u32)| u.contains(k) implies frac_valid(#[trigger] tr(k)) && frac_valid(tpq(k))
        && frac_equiv(tr(k), tpq(k)) by {
        lemma_term_valid(p, x, y, k);
        lemma_term_valid(q, x, y, k);
        lemma_term_valid(r, x, y, k);
        lemma_ops_valid(tp(k), tq(k));
        let a = map_coeff(p.terms_view(), k);
        let b = map_coeff(q.terms_view(), k);
        let c = map_coeff(r.terms_view(), k);
        let xp = frac_pow(x, k.0 as nat);
        let yp = frac_pow(y, k.1 as nat);
        lemma_pow_valid(x, k.0 as nat);
        lemma_pow_valid(y, k.1 as nat);
        assert(c == r.coeff_spec(k.0, k.1));
        assert(frac_equiv(c, frac_add(a, b)));
        lemma_equiv_refl(xp);
        lemma_equiv_refl(yp);
        lemma_mul_congruence(c, frac_add(a, b), xp, xp);
        lemma_mul_congruence(frac_mul(c, xp), frac_mul(frac_add(a, b), xp), yp, yp);
        lemma_term_split(a, b, xp, yp);
        lemma_ops_valid(a, b);
        lemma_ops_valid(frac_add(a, b), xp);
        lemma_ops_valid(frac_mul(frac_add(a, b), xp), yp);
        lemma_equiv_trans(tr(k), frac_mul(frac_mul(frac_add(a, b), xp), yp), tpq(k));
    }
    lemma_sum_congruence(u, tr, tpq);
    lemma_sum_add(u, tp, tq);
    // eval(r) ~ sum(u, tr) ~ sum(u, tp + tq) == sum(u, tp) + sum(u, tq) ~ eval(p) + eval(q)
    assert forall|k: (u32, u32)| u.contains(k) implies frac_valid(#[trigger] tpq(k)) by {
        lemma_term_valid(p, x, y, k);
        lemma_term_valid(q, x, y, k);
        lemma_ops_valid(tp(k), tq(k));
    }
    lemma_sum_valid(u, tpq);
    lemma_equiv_trans(r.eval_spec(x, y), set_sum(u, tr), set_sum(u, tpq));
    lemma_equiv_symm(p.eval_spec(x, y), set_sum(u, tp));
    lemma_equiv_symm(q.eval_spec(x, y), set_sum(u, tq));
    lemma_add_congruence(set_sum(u, tp), p.eval_spec(x, y), set_sum(u, tq), q.eval_spec(x, y));
    lemma_ops_valid(set_sum(u, tp), set_sum(u, tq));
    lemma_equiv_trans(
        r.eval_spec(x, y),
        frac_add(set_sum(u, tp), set_sum(u, tq)),
        frac_add(p.eval_spec(x, y), q.eval_spec(x, y)),
    );
}

/// Evaluation respects scaling: a polynomial whose coefficients are those
/// of `p` times `s` (what `BiPoly::scale` returns) takes at every point
/// the value of `p` times `s`.
pub proof fn law_eval_scale(p: BiPoly, s: Frac, r: BiPoly, x: Frac, y: Frac)
    requires
        p.wf(),
        r.wf(),
        frac_valid(s),
        frac_valid(x),
        frac_valid(y),
        forall|i: u32, j: u32| frac_equiv(#[trigger] r.coeff_spec(i, j), frac_mul(p.coeff_spec(i, j), s)),
    ensures
        frac_equiv(r.eval_spec(x, y), frac_mul(p.eval_spec(x, y), s)),
{
    p.lemma_support_finite();
    r.lemma_support_finite();
    let u = p.support().union(r.support());
    let tp = p.term_fn(x, y);
    let tr = r.term_fn(x, y);
    let ts = |k: (u32, u32)| frac_mul(s, tp(k));
    lemma_eval_over(p, u, x, y);
    lemma_eval_over(r, u, x, y);
    assert forall|k: (u32, u32)| u.contains(k) implies frac_valid(#[trigger] tr(k)) && frac_valid(ts(k))
        && frac_equiv(tr(k), ts(k)) by {
        lemma_term_valid(p, x, y, k);
        lemma_term_valid(r, x, y, k);
        lemma_ops_valid(s, tp(k));
        let a = map_coeff(p.terms_view(), k);
        let c = map_coeff(r.terms_view(), k);
        let xp = frac_pow(x, k.0 as nat);
        let yp = frac_pow(y, k.1 as nat);
        assert(c == r.coeff_spec(k.0, k.1));
        assert(frac_equiv(c, frac_mul(a, s)));
        lemma_equiv_refl(xp);
        lemma_equiv_refl(yp);
        // (a s) X Y == s ((a X) Y)
        lemma_mul_comm(a, s);
        lemma_mul_assoc(s, a, xp);
        lemma_mul_assoc(s, frac_mul(a, xp), yp);
        lemma_mul_congruence(c, frac_mul(s, a), xp, xp);
        lemma_mul_congruence(frac_mul(c, xp), frac_mul(frac_mul(s, a), xp), yp, yp);
    }
    lemma_sum_congruence(u, tr, ts);
    assert forall|k: (u32, u32)| u.contains(k) implies frac_valid(#[trigger] tp(k)) by {
        lemma_term_valid(p, x, y, k);
    }
    lemma_sum_scale(u, tp, s);
    assert forall|k: (u32, u32)| u.contains(k) implies frac_valid(#[trigger] ts(k)) by {
        lemma_term_valid(p, x, y, k);
        lemma_ops_valid(s, tp(k));
    }
    lemma_sum_valid(u, ts);
    lemma_equiv_trans(r.eval_spec(x, y), set_sum(u, tr), set_sum(u, ts));
    lemma_equiv_trans(r.eval_spec(x, y), set_sum(u, ts), frac_mul(s, set_sum(u, tp)));
    lemma_equiv_symm(p.eval_spec(x, y), set_sum(u, tp));
    lemma_equiv_refl(s);
    lemma_mul_congruence(s, s, set_sum(u, tp), p.eval_spec(x, y));
    lemma_ops_valid(s, set_sum(u, tp));
    lemma_equiv_trans(r.eval_spec(x, y), frac_mul(s, set_sum(u, tp)), frac_mul(s, p.eval_spec(x, y)));
    lemma_mul_comm(s, p.eval_spec(x, y));
}

proof fn lemma_rearrange_ints(a: int, b: int, c: int, d: int, e: int, f: int)
    ensures
        ((a * b) * c) * ((d * e) * f) == ((b * e) * (c * f)) * (a * d),
{
    assert(((a * b) * c) * ((d * e) * f) == ((b * e) * (c * f)) * (a * d)) by (nonlinear_arith);
}

proof fn lemma_rearrange3_ints(a: int, b: int, c: int)
    ensures
        (a * b) * c == (b * c) * a,
{
    assert((a * b) * c == (b * c) * a) by (nonlinear_arith);
}

/// The exponents of a pair, added.
pub open spec fn pair_key(ab: ExpPair) -> (u32, u32) {
    ((ab.0.0 + ab.1.0) as u32, (ab.0.1 + ab.1.1) as u32)
}

/// The product of the values of two terms is the value of their product
/// term: `(c X^a Y^b)(d X^e Y^f) = (X^(a+e) Y^(b+f)) (c d)`.
proof fn lemma_term_product(
    c: Frac,
    d: Frac,
    x: Frac,
    y: Frac,
    a: (u32, u32),
    b: (u32, u32),
)
    requires
        a.0 + b.0 <= u32::MAX,
        a.1 + b.1 <= u32::MAX,
    ensures
        frac_mul(
            frac_mul(frac_mul(c, frac_pow(x, a.0 as nat)), frac_pow(y, a.1 as nat)),
            frac_mul(frac_mul(d, frac_pow(x, b.0 as nat)), frac_pow(y, b.1 as nat)),
        ) == frac_mul(
            frac_mul(frac_pow(x, (a.0 + b.0) as nat), frac_pow(y, (a.1 + b.1) as nat)),
            frac_mul(c, d),
        ),
{
    let xa = frac_pow(x, a.0 as nat);
    let xb = frac_pow(x, b.0 as nat);
    let ya = frac_pow(y, a.1 as nat);
    let yb = frac_pow(y, b.1 as nat);
    lemma_pow_add(x, a.0 as nat, b.0 as nat);
    lemma_pow_add(y, a.1 as nat, b.1 as nat);
    lemma_rearrange_ints(c.num, xa.num, ya.num, d.num, xb.num, yb.num);
    lemma_rearrange_ints(c.den, xa.den, ya.den, d.den, xb.den, yb.den);
}

/// Evaluation respects multiplication: a polynomial whose coefficients are
/// the convolution of those of `p` and `q` (what `BiPoly::mul` returns)
/// takes at every point the product of their values.
pub proof fn law_eval_mul(p: BiPoly, q: BiPoly, r: BiPoly, x: Frac, y: Frac)
    requires
        p.wf(),
        q.wf(),
        r.wf(),
        frac_valid(x),
        frac_valid(y),
        forall|a: (u32, u32), b: (u32, u32)|
            #![trigger p.support().contains(a), q.support().contains(b)]
            p.support().contains(a) && q.support().contains(b) ==> a.0 + b.0 <= u32::MAX && a.1 + b.1
                <= u32::MAX,
        forall|i: u32, j: u32|
            frac_equiv(#[trigger] r.coeff_spec(i, j), mul_target(p.terms_view(), q.terms_view(), (i, j))),
    ensures
        frac_equiv(r.eval_spec(x, y), frac_mul(p.eval_spec(x, y), q.eval_spec(x, y))),
{
    let pm = p.terms_view();
    let qm = q.terms_view();
    p.lemma_support_finite();
    q.lemma_support_finite();
    r.lemma_support_finite();
    let ps = p.support();
    let qs = q.support();
    let tp = p.term_fn(x, y);
    let tq = q.term_fn(x, y);
    let tr = r.term_fn(x, y);
    let t = pairs_of(ps, qs);
    let f = |ab: ExpPair| frac_mul(tp(ab.0), tq(ab.1));
    let key = |ab: ExpPair| pair_key(ab);
    let pg = |ab: ExpPair| pair_product(pm, qm, ab);
    // eval(p) eval(q) ~ sum over all pairs of the term products
    assert forall|a: (u32, u32)| ps.contains(a) implies frac_valid(#[trigger] tp(a)) by {
        lemma_term_valid(p, x, y, a);
    }
    assert forall|b: (u32, u32)| qs.contains(b) implies frac_valid(#[trigger] tq(b)) by {
        lemma_term_valid(q, x, y, b);
    }
    lemma_sum_product(ps, qs, tp, tq);
    assert(t =~= support_pairs(ps, qs));
    // regroup by the exponent of the product term
    lemma_sum_partition(t, key, f);
    let ks = t.map(key);
    let g = |k: (u32, u32)| set_sum(with_key(t, key, k), f);
    // each group sums to the product's term
    assert forall|k: (u32, u32)| ks.contains(k) implies frac_valid(#[trigger] g(k)) && frac_valid(tr(k))
        && frac_equiv(g(k), tr(k)) by {
        let w = with_key(t, key, k);
        assert(w =~= support_pairs(ps, qs).filter(|ab: ExpPair| pair_sums_to(ab, k)));
        let xk = frac_pow(x, k.0 as nat);
        let yk = frac_pow(y, k.1 as nat);
        let mk = frac_mul(xk, yk);
        lemma_pow_valid(x, k.0 as nat);
        lemma_pow_valid(y, k.1 as nat);
        lemma_ops_valid(xk, yk);
        let h = |ab: ExpPair| frac_mul(mk, pg(ab));
        assert forall|ab: ExpPair| w.contains(ab) implies #[trigger] f(ab) == h(ab) && frac_valid(pg(ab)) by {
            assert(ps.contains(ab.0) && qs.contains(ab.1));
            lemma_term_product(map_coeff(pm, ab.0), map_coeff(qm, ab.1), x, y, ab.0, ab.1);
            lemma_term_valid(p, x, y, ab.0);
            lemma_term_valid(q, x, y, ab.1);
            lemma_ops_valid(map_coeff(pm, ab.0), map_coeff(qm, ab.1));
        }
        crate::sums::lemma_sum_ext(w, f, h);
        assert forall|ab: ExpPair| w.contains(ab) implies frac_valid(#[trigger] pg(ab)) by {
            assert(ps.contains(ab.0) && qs.contains(ab.1));
            lemma_term_valid(p, x, y, ab.0);
            lemma_term_valid(q, x, y, ab.1);
            lemma_ops_valid(map_coeff(pm, ab.0), map_coeff(qm, ab.1));
        }
        assert(w.finite());
        lemma_sum_scale(w, pg, mk);
        // set_sum(w, pg) is the convolution at k, equivalent to r's coefficient
        let conv = set_sum(w, pg);
        assert(conv == mul_target(pm, qm, k));
        let rk = map_coeff(r.terms_view(), k);
        assert(rk == r.coeff_spec(k.0, k.1));
        lemma_sum_valid(w, pg);
        lemma_term_valid(r, x, y, k);
        lemma_equiv_refl(mk);
        lemma_equiv_symm(rk, conv);
        lemma_mul_congruence(mk, mk, conv, rk);
        lemma_ops_valid(mk, conv);
        lemma_equiv_trans(g(k), frac_mul(mk, conv), frac_mul(mk, rk));
        lemma_mul_assoc(xk, yk, rk);
        lemma_rearrange3_ints(rk.num, xk.num, yk.num);
        lemma_rearrange3_ints(rk.den, xk.den, yk.den);
        assert(frac_mul(mk, rk) == tr(k));
        assert forall|ab: ExpPair| w.contains(ab) implies frac_valid(#[trigger] f(ab)) by {
            lemma_term_valid(p, x, y, ab.0);
            lemma_term_valid(q, x, y, ab.1);
            lemma_ops_valid(tp(ab.0), tq(ab.1));
        }
        lemma_sum_valid(w, f);
    }
    // every term of r lies among the exponents of the products
    assert forall|k: (u32, u32)| r.support().contains(k) implies ks.contains(k) by {
        if !ks.contains(k) {
            let w = support_pairs(ps, qs).filter(|ab: ExpPair| pair_sums_to(ab, k));
            assert forall|ab: ExpPair| !w.contains(ab) by {
                if w.contains(ab) {
                    assert(t.contains(ab) && key(ab) == k);
                }
            }
            assert(w =~= Set::<ExpPair>::empty());
            lemma_sum_empty(pg);
            r.terms_view()[k].lemma_wf();
            assert(r.coeff_spec(k.0, k.1) == r.terms_view()[k].frac());
        }
    }
    lemma_eval_over(r, ks, x, y);
    lemma_sum_congruence(ks, g, tr);
    lemma_sum_valid(ks, g);
    // chain: eval(r) ~ sum(ks, tr) ~ sum(ks, g) == sum(t, f) ~ eval(p) eval(q)
    lemma_equiv_symm(set_sum(ks, g), set_sum(ks, tr));
    lemma_equiv_trans(r.eval_spec(x, y), set_sum(ks, tr), set_sum(ks, g));
    lemma_equiv_symm(frac_mul(p.eval_spec(x, y), q.eval_spec(x, y)), set_sum(t, f));
    lemma_equiv_trans(r.eval_spec(x, y), set_sum(t, f), frac_mul(p.eval_spec(x, y), q.eval_spec(x, y)));
}

/// The value of a polynomial at a point is a valid rational.
pub proof fn lemma_eval_valid(p: BiPoly, x: Frac, y: Frac)
    requires
        p.wf(),
        frac_valid(x),
        frac_valid(y),
    ensures
        frac_valid(p.eval_spec(x, y)),
{
    p.lemma_support_finite();
    lemma_eval_over(p, p.support(), x, y);
}

/// A polynomial with a single term `c x^i y^j` takes the value
/// `c x^i y^j`; one with no terms takes the value zero.
pub proof fn law_eval_monomial(p: BiPoly, k: (u32, u32), x: Frac, y: Frac)
    requires
        p.wf(),
        p.support() == set![k] || p.support() == Set::<(u32, u32)>::empty(),
    ensures
        p.support() == set![k] ==> p.eval_spec(x, y) == frac_mul(
            frac_mul(p.coeff_spec(k.0, k.1), frac_pow(x, k.0 as nat)),
            frac_pow(y, k.1 as nat),
        ),
        p.support() == Set::<(u32, u32)>::empty() ==> p.eval_spec(x, y) == frac_of_int(0),
{
    let tf = p.term_fn(x, y);
    lemma_sum_empty(tf);
    if p.support() == set![k] {
        assert(set![k] =~= Set::<(u32, u32)>::empty().insert(k));
        crate::sums::lemma_sum_insert(Set::<(u32, u32)>::empty(), tf, k);
        let v = tf(k);
        assert(0 * v.den + v.num * 1 == v.num && 1 * v.den == v.den);
        assert(map_coeff(p.terms_view(), k) == p.coeff_spec(k.0, k.1));
    }
}

/// Every term of a product has exponents that add up those of a term of
/// each factor.
pub proof fn lemma_mul_support(p: BiPoly, q: BiPoly, r: BiPoly, k: (u32, u32))
    requires
        p.wf(),
        q.wf(),
        r.wf(),
        forall|i: u32, j: u32|
            frac_equiv(#[trigger] r.coeff_spec(i, j), mul_target(p.terms_view(), q.terms_view(), (i, j))),
        r.support().contains(k),
    ensures
        exists|a: (u32, u32), b: (u32, u32)|
            #![trigger p.support().contains(a), q.support().contains(b)]
            p.support().contains(a) && q.support().contains(b) && a.0 + b.0 == k.0 && a.1 + b.1 == k.1,
{
    let pm = p.terms_view();
    let qm = q.terms_view();
    let w = support_pairs(p.support(), q.support()).filter(|ab: ExpPair| pair_sums_to(ab, k));
    if !(exists|a: (u32, u32), b: (u32, u32)|
        #![trigger p.support().contains(a), q.support().contains(b)]
        p.support().contains(a) && q.support().contains(b) && a.0 + b.0 == k.0 && a.1 + b.1 == k.1) {
        assert forall|ab: ExpPair| !w.contains(ab) by {
            if w.contains(ab) {
                assert(p.support().contains(ab.0) && q.support().contains(ab.1));
            }
        }
        assert(w =~= Set::<ExpPair>::empty());
        lemma_sum_empty(|ab: ExpPair| pair_product(pm, qm, ab));
        r.terms_view()[k].lemma_wf();
        assert(r.coeff_spec(k.0, k.1) == r.terms_view()[k].frac());
    }
}

/// A finite nonempty set of exponents has a lexicographically greatest
/// element.
proof fn lemma_lex_max(s: Set<(u32, u32)>) -> (m: (u32, u32))
    requires
        s.finite(),
        s.len() > 0,
    ensures
        s.contains(m),
        forall|x: (u32, u32)| #[trigger] s.contains(x) ==> x == m || crate::poly::key_less(x, m),
    decreases s.len(),
{
    let a = s.choose();
    let rest = s.remove(a);
    if rest.len() == 0 {
        assert forall|x: (u32, u32)| #[trigger] s.contains(x) implies x == a || crate::poly::key_less(x, a) by {
            if x != a {
                assert(rest.contains(x));
            }
        }
        a
    } else {
        let m0 = lemma_lex_max(rest);
        if crate::poly::key_less(m0, a) {
            assert forall|x: (u32, u32)| #[trigger] s.contains(x) implies x == a || crate::poly::key_less(x, a) by {
                if x != a {
                    assert(rest.contains(x));
                }
            }
            a
        } else {
            assert forall|x: (u32, u32)| #[trigger] s.contains(x) implies x == m0 || crate::poly::key_less(x, m0) by {
                if x != a {
                    assert(rest.contains(x));
                }
            }
            m0
        }
    }
}

/// A product of polynomials is zero exactly when a factor is: the product
/// of the lexicographically greatest terms of the factors is the only
/// contribution to its exponent, so it cannot cancel.
pub proof fn law_mul_zero(p: BiPoly, q: BiPoly, r: BiPoly)
    requires
        p.wf(),
        q.wf(),
        r.wf(),
        forall|a: (u32, u32), b: (u32, u32)|
            #![trigger p.support().contains(a), q.support().contains(b)]
            p.support().contains(a) && q.support().contains(b) ==> a.0 + b.0 <= u32::MAX && a.1 + b.1 <= u32::MAX,
        forall|i: u32, j: u32|
            frac_equiv(#[trigger] r.coeff_spec(i, j), mul_target(p.terms_view(), q.terms_view(), (i, j))),
    ensures
        r.support() == Set::<(u32, u32)>::empty() <==> (p.support() == Set::<(u32, u32)>::empty()
            || q.support() == Set::<(u32, u32)>::empty()),
{
    p.lemma_support_finite();
    q.lemma_support_finite();
    if p.support() == Set::<(u32, u32)>::empty() || q.support() == Set::<(u32, u32)>::empty() {
        assert forall|k: (u32, u32)| !r.support().contains(k) by {
            if r.support().contains(k) {
                lemma_mul_support(p, q, r, k);
                let (a, b) = choose|a: (u32, u32), b: (u32, u32)|
                    #![trigger p.support().contains(a), q.support().contains(b)]
                    p.support().contains(a) && q.support().contains(b) && a.0 + b.0 == k.0 && a.1 + b.1 == k.1;
            }
        }
        assert(r.support() =~= Set::<(u32, u32)>::empty());
    } else {
        if p.support().len() == 0 {
            assert(p.support() =~= Set::<(u32, u32)>::empty());
        }
        if q.support().len() == 0 {
            assert(q.support() =~= Set::<(u32, u32)>::empty());
        }
        let a = lemma_lex_max(p.support());
        let b = lemma_lex_max(q.support());
        assert(a.0 + b.0 <= u32::MAX && a.1 + b.1 <= u32::MAX);
        let k: (u32, u32) = ((a.0 + b.0) as u32, (a.1 + b.1) as u32);
        let pm = p.terms_view();
        let qm = q.terms_view();
        let g = |ab: ExpPair| pair_product(pm, qm, ab);
        let w = support_pairs(p.support(), q.support()).filter(|ab: ExpPair| pair_sums_to(ab, k));
        assert(w =~= Set::<ExpPair>::empty().insert((a, b))) by {
            assert forall|ab: ExpPair| w.contains(ab) implies ab == (a, b) by {
                let (x, y) = ab;
                assert(p.support().contains(x) && q.support().contains(y));
                assert(x == a || crate::poly::key_less(x, a));
                assert(y == b || crate::poly::key_less(y, b));
            }
            assert(w.contains((a, b)));
        }
        lemma_sum_empty(g);
        lemma_sum_insert(Set::<ExpPair>::empty(), g, (a, b));
        pm[a].lemma_wf();
        qm[b].lemma_wf();
        let v = pair_product(pm, qm, (a, b));
        assert(v.num != 0) by {
            let (x, y) = (pm[a].frac(), qm[b].frac());
            assert(x.num != 0 && y.num != 0);
            assert(x.num * y.num != 0) by (nonlinear_arith)
                requires
                    x.num != 0,
                    y.num != 0,
            ;
        }
        let t = mul_target(pm, qm, k);
        assert(t == frac_add(frac_of_int(0), v));
        assert(t.num == v.num);
        if !r.support().contains(k) {
            assert(r.coeff_spec(k.0, k.1) == frac_of_int(0));
            assert(frac_equiv(frac_of_int(0), t));
        }
        assert(r.support().contains(k));
    }
}

/// Evaluation respects subtraction: a polynomial whose coefficients are
/// the differences of those of `p` and `q` (what `BiPoly::sub` returns)
/// takes at every point the difference of their values.
pub proof fn law_eval_sub(p: BiPoly, q: BiPoly, r: BiPoly, x: Frac, y: Frac)
    requires
        p.wf(),
        q.wf(),
        r.wf(),
        frac_valid(x),
        frac_valid(y),
        forall|i: u32, j: u32|
            frac_equiv(#[trigger] r.coeff_spec(i, j), frac_sub(p.coeff_spec(i, j), q.coeff_spec(i, j))),
    ensures
        frac_equiv(r.eval_spec(x, y), frac_sub(p.eval_spec(x, y), q.eval_spec(x, y))),
{
    p.lemma_support_finite();
    q.lemma_support_finite();
    r.lemma_support_finite();
    let u = p.support().union(q.support()).union(r.support());
    let tp = p.term_fn(x, y);
    let tq = q.term_fn(x, y);
    let tr = r.term_fn(x, y);
    let tn = |k: (u32, u32)| frac_neg(tq(k));
    let tpq = |k: (u32, u32)| frac_add(tp(k), tn(k));
    lemma_eval_over(p, u, x, y);
    lemma_eval_over(q, u, x, y);
    lemma_eval_over(r, u, x, y);
    assert forall|k: (u32, u32)| u.contains(k) implies frac_valid(#[trigger] tr(k)) && frac_valid(tpq(k))
        && frac_equiv(tr(k), tpq(k)) by {
        lemma_term_valid(p, x, y, k);
        lemma_term_valid(q, x, y, k);
        lemma_term_valid(r, x, y, k);
        let a = map_coeff(p.terms_view(), k);
        let b = map_coeff(q.terms_view(), k);
        let c = map_coeff(r.terms_view(), k);
        let nb = frac_neg(b);
        let xp = frac_pow(x, k.0 as nat);
        let yp = frac_pow(y, k.1 as nat);
        lemma_pow_valid(x, k.0 as nat);
        lemma_pow_valid(y, k.1 as nat);
        lemma_ops_valid(a, b);
        lemma_ops_valid(tp(k), tq(k));
        lemma_ops_valid(tp(k), tn(k));
        assert(c == r.coeff_spec(k.0, k.1));
        crate::frac::lemma_sub_as_add(a, b);
        assert(frac_equiv(c, frac_add(a, nb)));
        lemma_equiv_refl(xp);
        lemma_equiv_refl(yp);
        lemma_mul_congruence(c, frac_add(a, nb), xp, xp);
        lemma_mul_congruence(frac_mul(c, xp), frac_mul(frac_add(a, nb), xp), yp, yp);
        lemma_term_split(a, nb, xp, yp);
        // the negation moves out of the products
        crate::frac::lemma_mul_comm(nb, xp);
        crate::frac::lemma_mul_neg_right(xp, b);
        crate::frac::lemma_mul_comm(xp, b);
        crate::frac::lemma_mul_comm(frac_neg(frac_mul(b, xp)), yp);
        crate::frac::lemma_mul_neg_right(yp, frac_mul(b, xp));
        crate::frac::lemma_mul_comm(yp, frac_mul(b, xp));
        assert(frac_mul(frac_mul(nb, xp), yp) == tn(k));
        lemma_ops_valid(a, nb);
        lemma_ops_valid(frac_add(a, nb), xp);
        lemma_ops_valid(frac_mul(frac_add(a, nb), xp), yp);
        lemma_equiv_trans(tr(k), frac_mul(frac_mul(frac_add(a, nb), xp), yp), tpq(k));
    }
    lemma_sum_congruence(u, tr, tpq);
    lemma_sum_add(u, tp, tn);
    crate::sums::lemma_sum_neg(u, tq);
    crate::frac::lemma_sub_as_add(set_sum(u, tp), set_sum(u, tq));
    assert forall|k: (u32, u32)| u.contains(k) implies frac_valid(#[trigger] tpq(k)) by {
        lemma_term_valid(p, x, y, k);
        lemma_term_valid(q, x, y, k);
        lemma_ops_valid(tp(k), tq(k));
        lemma_ops_valid(tp(k), tn(k));
    }
    lemma_sum_valid(u, tpq);
    lemma_equiv_trans(r.eval_spec(x, y), set_sum(u, tr), set_sum(u, tpq));
    lemma_equiv_symm(p.eval_spec(x, y), set_sum(u, tp));
    lemma_equiv_symm(q.eval_spec(x, y), set_sum(u, tq));
    crate::frac::lemma_sub_congruence(set_sum(u, tp), p.eval_spec(x, y), set_sum(u, tq), q.eval_spec(x, y));
    lemma_ops_valid(set_sum(u, tp), set_sum(u, tq));
    lemma_equiv_trans(
        r.eval_spec(x, y),
        frac_sub(set_sum(u, tp), set_sum(u, tq)),
        frac_sub(p.eval_spec(x, y), q.eval_spec(x, y)),
    );
}

/// `sum_g a_g(x) y^(j_g)` over the groups `(j_g, a_g)`.
pub open spec fn groups_value(groups: Seq<(u32, BiPoly)>, x: Frac, y: Frac) -> Frac
    decreases groups.len(),
{
    if groups.len() == 0 {
        frac_of_int(0)
    } else {
        frac_add(
            groups_value(groups.drop_last(), x, y),
            frac_mul(groups.last().1.eval_spec(x, y), frac_pow(y, groups.last().0 as nat)),
        )
    }
}

/// The exponents of `p` with the power `y^j`.
pub open spec fn terms_with_y_power(p: BiPoly, j: u32) -> Set<(u32, u32)> {
    p.support().filter(|k: (u32, u32)| k.1 == j)
}

/// Some group among the first `t` has the power `j`.
spec fn in_first_groups(groups: Seq<(u32, BiPoly)>, t: int, j: u32) -> bool {
    exists|g: int| 0 <= g < t && (#[trigger] groups[g]).0 == j
}

/// The exponents of `p` whose power of `y` is that of one of the first `t`
/// groups.
spec fn first_groups_support(p: BiPoly, groups: Seq<(u32, BiPoly)>, t: int) -> Set<(u32, u32)> {
    p.support().filter(|k: (u32, u32)| in_first_groups(groups, t, k.1))
}

/// The terms of `p` with the power `y^j` of a group add up to the group's
/// value times `y^j`.
proof fn lemma_group_terms(p: BiPoly, groups: Seq<(u32, BiPoly)>, g: int, x: Frac, y: Frac)
    requires
        p.wf(),
        collected_by_y(p, groups),
        0 <= g < groups.len(),
        frac_valid(x),
        frac_valid(y),
    ensures
        frac_equiv(
            set_sum(terms_with_y_power(p, groups[g].0), p.term_fn(x, y)),
            frac_mul(groups[g].1.eval_spec(x, y), frac_pow(y, groups[g].0 as nat)),
        ),
{
    let (j, q) = groups[g];
    let w = terms_with_y_power(p, j);
    let f = |k: (u32, u32)| (k.0, 0u32);
    let tq = q.term_fn(x, y);
    let tp = p.term_fn(x, y);
    let yj = frac_pow(y, j as nat);
    p.lemma_support_finite();
    q.lemma_support_finite();
    assert(w.finite());
    lemma_sum_reindex(w, f, tq);
    assert(w.map(f) =~= q.support()) by {
        assert forall|e: (u32, u32)| q.support().contains(e) implies w.map(f).contains(e) by {
            assert(e == (e.0, e.1));
            assert(q.support().contains((e.0, e.1)));
            assert(w.contains((e.0, j)) && f((e.0, j)) == e);
        }
    }
    let comp = |k: (u32, u32)| tq(f(k));
    let scaled = |k: (u32, u32)| frac_mul(yj, comp(k));
    assert forall|k: (u32, u32)| w.contains(k) implies #[trigger] tp(k) == scaled(k) by {
        let a = frac_mul(map_coeff(p.terms_view(), k), frac_pow(x, k.0 as nat));
        assert(map_coeff(q.terms_view(), (k.0, 0u32)) == q.coeff_spec(k.0, 0));
        assert(frac_pow(y, 0) == frac_of_int(1));
        assert(frac_mul(a, frac_of_int(1)) == a);
        lemma_mul_comm(comp(k), yj);
    }
    lemma_sum_ext(w, tp, scaled);
    assert forall|k: (u32, u32)| w.contains(k) implies frac_valid(#[trigger] comp(k)) by {
        lemma_term_valid(q, x, y, f(k));
    }
    lemma_pow_valid(y, j as nat);
    lemma_sum_scale(w, comp, yj);
    lemma_sum_ext(w, scaled, |k: (u32, u32)| frac_mul(yj, comp(k)));
    lemma_mul_comm(yj, q.eval_spec(x, y));
}

/// Regrouping by powers of `y` keeps the value: `p(x, y) = sum_k a_k(x)
/// y^k` for the groups `(k, a_k)` that `collect_y` gives.
pub proof fn law_collect_y_value(p: BiPoly, groups: Seq<(u32, BiPoly)>, x: Frac, y: Frac)
    requires
        p.wf(),
        collected_by_y(p, groups),
        frac_valid(x),
        frac_valid(y),
    ensures
        frac_equiv(p.eval_spec(x, y), groups_value(groups, x, y)),
{
    p.lemma_support_finite();
    lemma_first_groups(p, groups, x, y, groups.len() as int);
    assert(first_groups_support(p, groups, groups.len() as int) =~= p.support()) by {
        assert forall|k: (u32, u32)| p.support().contains(k) implies in_first_groups(groups, groups.len() as int, k.1) by {
            assert(k == (k.0, k.1));
            assert(p.support().contains((k.0, k.1)));
            assert(p.has_y_exponent(k.1));
        }
    }
    assert(groups.take(groups.len() as int) =~= groups);
}

/// The terms whose power of `y` is that of one of the first `t` groups
/// add up to the value of those groups.
proof fn lemma_first_groups(p: BiPoly, groups: Seq<(u32, BiPoly)>, x: Frac, y: Frac, t: int)
    requires
        p.wf(),
        collected_by_y(p, groups),
        frac_valid(x),
        frac_valid(y),
        0 <= t <= groups.len(),
    ensures
        frac_valid(set_sum(first_groups_support(p, groups, t), p.term_fn(x, y))),
        frac_valid(groups_value(groups.take(t), x, y)),
        frac_equiv(set_sum(first_groups_support(p, groups, t), p.term_fn(x, y)), groups_value(groups.take(t), x, y)),
    decreases t,
{
    p.lemma_support_finite();
    let tp = p.term_fn(x, y);
    let s_t = first_groups_support(p, groups, t);
    assert forall|k: (u32, u32)| s_t.contains(k) implies frac_valid(#[trigger] tp(k)) by {
        lemma_term_valid(p, x, y, k);
    }
    lemma_sum_valid(s_t, tp);
    if t == 0 {
        assert(s_t =~= Set::<(u32, u32)>::empty());
        lemma_sum_empty(tp);
        assert(groups.take(0) =~= Seq::<(u32, BiPoly)>::empty());
    } else {
        let (j, q) = groups[t - 1];
        lemma_first_groups(p, groups, x, y, t - 1);
        let s_prev = first_groups_support(p, groups, t - 1);
        let w = terms_with_y_power(p, j);
        assert(s_t =~= s_prev.union(w)) by {
            assert forall|k: (u32, u32)| s_t.contains(k) implies s_prev.union(w).contains(k) by {
                let g = choose|g: int| 0 <= g < t && (#[trigger] groups[g]).0 == k.1;
                if g < t - 1 {
                    assert(in_first_groups(groups, t - 1, k.1));
                }
            }
            assert forall|k: (u32, u32)| s_prev.union(w).contains(k) implies s_t.contains(k) by {
                if s_prev.contains(k) {
                    let g = choose|g: int| 0 <= g < t - 1 && (#[trigger] groups[g]).0 == k.1;
                    assert(in_first_groups(groups, t, k.1));
                } else {
                    assert(groups[t - 1].0 == k.1);
                    assert(in_first_groups(groups, t, k.1));
                }
            }
        }
        assert(s_prev.disjoint(w)) by {
            assert forall|k: (u32, u32)| s_prev.contains(k) implies !w.contains(k) by {
                let g = choose|g: int| 0 <= g < t - 1 && (#[trigger] groups[g]).0 == k.1;
                assert(groups[g].0 < groups[t - 1].0);
            }
        }
        lemma_sum_union(s_prev, w, tp);
        lemma_group_terms(p, groups, t - 1, x, y);
        assert(groups.take(t).drop_last() =~= groups.take(t - 1));
        assert(groups.take(t).last() == groups[t - 1]);
        q.lemma_support_finite();
        lemma_eval_valid(q, x, y);
        lemma_pow_valid(y, j as nat);
        lemma_ops_valid(q.eval_spec(x, y), frac_pow(y, j as nat));
        lemma_ops_valid(groups_value(groups.take(t - 1), x, y), frac_mul(q.eval_spec(x, y), frac_pow(y, j as nat)));
        lemma_add_congruence(
            set_sum(s_prev, tp),
            groups_value(groups.take(t - 1), x, y),
            set_sum(w, tp),
            frac_mul(q.eval_spec(x, y), frac_pow(y, j as nat)),
        );
    }
}

} // verus!
