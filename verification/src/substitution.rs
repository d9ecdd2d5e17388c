//! Substituting a polynomial for one of the variables of another.

use vstd::prelude::*;

use crate::evaluation::{lemma_eval_valid, lemma_mul_support, law_eval_add, law_eval_monomial, law_eval_mul, law_eval_scale};
use crate::frac::{
    frac_equiv, frac_mul, frac_of_int, frac_pow, frac_valid, lemma_equiv_refl, lemma_equiv_symm,
    lemma_equiv_trans, lemma_mul_congruence, lemma_ops_valid, lemma_pow_valid, Frac,
};
use crate::poly::{map_coeff, BiPoly};
use crate::sums::{lemma_sum_empty, lemma_sum_insert, set_sum};
use crate::rational::ExactRational;

verus! {

proof fn lemma_scale_bound(n: int, d: int, count: int)
    requires
        0 <= n,
        n + 1 <= count,
        0 <= d,
    ensures
        (n + 1) * d == n * d + d,
        (n + 1) * d <= count * d,
        0 <= n * d,
{
    assert((n + 1) * d == n * d + d) by (nonlinear_arith);
    assert((n + 1) * d <= count * d) by (nonlinear_arith)
        requires
            n + 1 <= count,
            0 <= d,
    ;
    assert(0 <= n * d) by (nonlinear_arith)
        requires
            0 <= n,
            0 <= d,
    ;
}

/// `(a b) c` and `(c a) b` have the same representation.
proof fn lemma_rotate(a: Frac, b: Frac, c: Frac)
    ensures
        frac_mul(frac_mul(a, b), c) == frac_mul(frac_mul(c, a), b),
{
    assert((a.num * b.num) * c.num == (c.num * a.num) * b.num) by (nonlinear_arith);
    assert((a.den * b.den) * c.den == (c.den * a.den) * b.den) by (nonlinear_arith);
}

/// `(a b) c` and `(c b) a` have the same representation.
proof fn lemma_swap_ends(a: Frac, b: Frac, c: Frac)
    ensures
        frac_mul(frac_mul(a, b), c) == frac_mul(frac_mul(c, b), a),
{
    assert((a.num * b.num) * c.num == (c.num * b.num) * a.num) by (nonlinear_arith);
    assert((a.den * b.den) * c.den == (c.den * b.den) * a.den) by (nonlinear_arith);
}

/// The powers `p^0, p^1, ..., p^count` of a polynomial whose exponents are
/// bounded by `(dx, dy)`.
fn powers(p: &BiPoly, count: u32, dx: u32, dy: u32) -> (pw: Vec<BiPoly>)
    requires
        p.wf(),
        forall|b: (u32, u32)| #[trigger] p.support().contains(b) ==> b.0 <= dx && b.1 <= dy,
        count * dx <= u32::MAX,
        count * dy <= u32::MAX,
    ensures
        pw@.len() == count + 1,
        forall|n: int| 0 <= n <= count ==> (#[trigger] pw@[n]).wf(),
        forall|n: int, k: (u32, u32)|
            0 <= n <= count && #[trigger] pw@[n].support().contains(k) ==> k.0 <= n * dx && k.1 <= n * dy,
        forall|n: int, x: Frac, y: Frac|
            0 <= n <= count && frac_valid(x) && frac_valid(y) ==> frac_equiv(
                #[trigger] pw@[n].eval_spec(x, y),
                frac_pow(p.eval_spec(x, y), n as nat),
            ),
{
    let mut pw: Vec<BiPoly> = Vec::new();
    let one = BiPoly::constant(ExactRational::from_i64(1));
    proof {
        assert forall|x: Frac, y: Frac| frac_valid(x) && frac_valid(y) implies frac_equiv(
            one.eval_spec(x, y),
            frac_pow(p.eval_spec(x, y), 0),
        ) by {
            law_eval_monomial(one, (0, 0), x, y);
            lemma_equiv_refl(frac_of_int(1));
        }
    }
    pw.push(one);
    for n in 0..count
        invariant
            p.wf(),
            forall|b: (u32, u32)| #[trigger] p.support().contains(b) ==> b.0 <= dx && b.1 <= dy,
            count * dx <= u32::MAX,
            count * dy <= u32::MAX,
            pw@.len() == n + 1,
            forall|m: int| 0 <= m <= n ==> (#[trigger] pw@[m]).wf(),
            forall|m: int, k: (u32, u32)|
                0 <= m <= n && #[trigger] pw@[m].support().contains(k) ==> k.0 <= m * dx && k.1 <= m * dy,
            forall|m: int, x: Frac, y: Frac|
                0 <= m <= n && frac_valid(x) && frac_valid(y) ==> frac_equiv(
                    #[trigger] pw@[m].eval_spec(x, y),
                    frac_pow(p.eval_spec(x, y), m as nat),
                ),
    {
        let prev = &pw[n as usize];
        proof {
            lemma_scale_bound(n as int, dx as int, count as int);
            lemma_scale_bound(n as int, dy as int, count as int);
            assert(prev.wf());
            assert forall|a: (u32, u32), b: (u32, u32)|
                #![trigger prev.support().contains(a), p.support().contains(b)]
                prev.support().contains(a) && p.support().contains(b) implies a.0 + b.0 <= u32::MAX
                    && a.1 + b.1 <= u32::MAX by {
                assert(a.0 <= n * dx && a.1 <= n * dy);
            }
        }
        let next = prev.mul(p);
        proof {
            assert forall|k: (u32, u32)| #[trigger] next.support().contains(k) implies k.0 <= (n + 1) * dx
                && k.1 <= (n + 1) * dy by {
                lemma_mul_support(*prev, *p, next, k);
                let (a, b) = choose|a: (u32, u32), b: (u32, u32)|
                    #![trigger prev.support().contains(a), p.support().contains(b)]
                    prev.support().contains(a) && p.support().contains(b) && a.0 + b.0 == k.0 && a.1 + b.1 == k.1;
                assert(a.0 <= n * dx && a.1 <= n * dy);
            }
            assert forall|x: Frac, y: Frac| frac_valid(x) && frac_valid(y) implies frac_equiv(
                next.eval_spec(x, y),
                frac_pow(p.eval_spec(x, y), (n + 1) as nat),
            ) by {
                let pv = p.eval_spec(x, y);
                law_eval_mul(*prev, *p, next, x, y);
                assert(frac_equiv(prev.eval_spec(x, y), frac_pow(pv, n as nat)));
                lemma_eval_valid(*p, x, y);
                lemma_eval_valid(*prev, x, y);
                lemma_pow_valid(pv, n as nat);
                lemma_equiv_refl(pv);
                lemma_mul_congruence(prev.eval_spec(x, y), frac_pow(pv, n as nat), pv, pv);
                lemma_ops_valid(prev.eval_spec(x, y), pv);
                lemma_equiv_trans(
                    next.eval_spec(x, y),
                    frac_mul(prev.eval_spec(x, y), pv),
                    frac_mul(frac_pow(pv, n as nat), pv),
                );
            }
        }
        pw.push(next);
    }
    pw
}

/// The exponent of the variable that is replaced.
pub open spec fn replaced_exp(in_y: bool, k: (u32, u32)) -> u32 {
    if in_y {
        k.1
    } else {
        k.0
    }
}

/// The value at `(x, y)` of each term of `q` once `x` (or, with `in_y`,
/// `y`) is replaced by the value of `p`.
pub open spec fn substituted_terms(q: BiPoly, p: BiPoly, in_y: bool, x: Frac, y: Frac) -> spec_fn(
    (u32, u32),
) -> Frac {
    if in_y {
        q.term_fn(x, p.eval_spec(x, y))
    } else {
        q.term_fn(p.eval_spec(x, y), y)
    }
}

/// The value at `(x, y)` of `q` with `x` (or, with `in_y`, `y`) replaced
/// by `p(x, y)`.
pub open spec fn substituted_value(q: BiPoly, p: BiPoly, in_y: bool, x: Frac, y: Frac) -> Frac {
    if in_y {
        q.eval_spec(x, p.eval_spec(x, y))
    } else {
        q.eval_spec(p.eval_spec(x, y), y)
    }
}

/// The value of one substituted term: `c p^e` times the monomial in the
/// kept variable.
proof fn lemma_substituted_term(
    q: BiPoly,
    p: BiPoly,
    in_y: bool,
    k: (u32, u32),
    pw: BiPoly,
    mono: BiPoly,
    m: BiPoly,
    term: BiPoly,
    c: Frac,
    x: Frac,
    y: Frac,
)
    requires
        q.wf(),
        p.wf(),
        pw.wf(),
        mono.wf(),
        m.wf(),
        term.wf(),
        frac_valid(x),
        frac_valid(y),
        frac_valid(c),
        c == q.coeff_spec(k.0, k.1),
        frac_equiv(pw.eval_spec(x, y), frac_pow(p.eval_spec(x, y), replaced_exp(in_y, k) as nat)),
        mono.support() == set![if in_y { (k.0, 0u32) } else { (0u32, k.1) }],
        mono.coeff_spec(if in_y { k.0 } else { 0u32 }, if in_y { 0u32 } else { k.1 }) == frac_of_int(1),
        forall|a: (u32, u32), b: (u32, u32)|
            #![trigger pw.support().contains(a), mono.support().contains(b)]
            pw.support().contains(a) && mono.support().contains(b) ==> a.0 + b.0 <= u32::MAX && a.1 + b.1
                <= u32::MAX,
        forall|i: u32, j: u32|
            frac_equiv(#[trigger] m.coeff_spec(i, j), crate::poly::mul_target(pw.terms_view(), mono.terms_view(), (i, j))),
        forall|i: u32, j: u32| frac_equiv(#[trigger] term.coeff_spec(i, j), frac_mul(m.coeff_spec(i, j), c)),
    ensures
        frac_equiv(term.eval_spec(x, y), substituted_terms(q, p, in_y, x, y)(k)),
{
    let pv = p.eval_spec(x, y);
    let e = replaced_exp(in_y, k);
    let pe = frac_pow(pv, e as nat);
    let mk = if in_y { (k.0, 0u32) } else { (0u32, k.1) };
    lemma_eval_valid(p, x, y);
    lemma_eval_valid(pw, x, y);
    lemma_eval_valid(mono, x, y);
    lemma_eval_valid(m, x, y);
    lemma_pow_valid(pv, e as nat);
    lemma_pow_valid(x, k.0 as nat);
    lemma_pow_valid(y, k.1 as nat);
    // the monomial evaluates to the power of the kept variable
    law_eval_monomial(mono, mk, x, y);
    let mv = mono.eval_spec(x, y);
    let kv = if in_y { frac_pow(x, k.0 as nat) } else { frac_pow(y, k.1 as nat) };
    assert(mv == kv) by {
        let xx = frac_pow(x, k.0 as nat);
        let yy = frac_pow(y, k.1 as nat);
        assert(1 * yy.num == yy.num && 1 * yy.den == yy.den);
        assert((1 * xx.num) * 1 == xx.num && (1 * xx.den) * 1 == xx.den);
    }
    // m evaluates to p^e times that power, term to that times c
    law_eval_mul(pw, mono, m, x, y);
    law_eval_scale(m, c, term, x, y);
    lemma_equiv_refl(mv);
    lemma_mul_congruence(pw.eval_spec(x, y), pe, mv, mv);
    lemma_ops_valid(pw.eval_spec(x, y), mv);
    lemma_equiv_trans(m.eval_spec(x, y), frac_mul(pw.eval_spec(x, y), mv), frac_mul(pe, mv));
    lemma_equiv_refl(c);
    lemma_mul_congruence(m.eval_spec(x, y), frac_mul(pe, mv), c, c);
    lemma_ops_valid(m.eval_spec(x, y), c);
    lemma_equiv_trans(term.eval_spec(x, y), frac_mul(m.eval_spec(x, y), c), frac_mul(frac_mul(pe, mv), c));
    assert(map_coeff(q.terms_view(), k) == c);
    if in_y {
        lemma_swap_ends(pe, mv, c);
    } else {
        lemma_rotate(pe, mv, c);
    }
}

/// Exponent bounds that keep every exponent computed by a substitution
/// within `u32`.
pub open spec fn substitution_fits(q: BiPoly, p: BiPoly, in_y: bool) -> bool {
    forall|a: (u32, u32), b: (u32, u32)|
        #![trigger q.support().contains(a), p.support().contains(b)]
        q.support().contains(a) && p.support().contains(b) ==> replaced_exp(in_y, a) * b.0 + (if in_y {
            a.0 as int
        } else {
            0
        }) <= u32::MAX && replaced_exp(in_y, a) * b.1 + (if in_y {
            0
        } else {
            a.1 as int
        }) <= u32::MAX
}

/// With `dx, dy` the largest exponents of `p`, the exponent `e` of a term
/// of `q` keeps `e dx` and `e dy` (plus the kept exponent) within `u32`.
proof fn lemma_fits_bounds(q: BiPoly, p: BiPoly, in_y: bool, a: (u32, u32), dx: u32, dy: u32)
    requires
        substitution_fits(q, p, in_y),
        q.support().contains(a),
        forall|b: (u32, u32)| #[trigger] p.support().contains(b) ==> b.0 <= dx && b.1 <= dy,
        p.support() == Set::<(u32, u32)>::empty() ==> dx == 0 && dy == 0,
        p.support() != Set::<(u32, u32)>::empty() ==> exists|b: (u32, u32)|
            #[trigger] p.support().contains(b) && b.0 == dx,
        p.support() != Set::<(u32, u32)>::empty() ==> exists|b: (u32, u32)|
            #[trigger] p.support().contains(b) && b.1 == dy,
    ensures
        replaced_exp(in_y, a) * dx + (if in_y { a.0 as int } else { 0 }) <= u32::MAX,
        replaced_exp(in_y, a) * dy + (if in_y { 0 } else { a.1 as int }) <= u32::MAX,
{
    let e = replaced_exp(in_y, a);
    if p.support() == Set::<(u32, u32)>::empty() {
        assert(e * 0 == 0);
    } else {
        let bx = choose|b: (u32, u32)| #[trigger] p.support().contains(b) && b.0 == dx;
        let by = choose|b: (u32, u32)| #[trigger] p.support().contains(b) && b.1 == dy;
        assert(q.support().contains(a) && p.support().contains(bx));
        assert(q.support().contains(a) && p.support().contains(by));
    }
}

impl BiPoly {
    /// Replaces `x` (or, with `in_y`, `y`) by `p`: each term `c x^i y^j`
    /// becomes `c p^i y^j` (or `c x^i p^j`), and the results are added.
    #[verifier::rlimit(60)]
    fn substitute(&self, p: &BiPoly, in_y: bool) -> (r: BiPoly)
        requires
            self.wf(),
            p.wf(),
            substitution_fits(*self, *p, in_y),
        ensures
            r.wf(),
            forall|x: Frac, y: Frac|
                frac_valid(x) && frac_valid(y) ==> frac_equiv(
                    #[trigger] r.eval_spec(x, y),
                    substituted_value(*self, *p, in_y, x, y),
                ),
    {
        let max_e = if in_y {
            self.degree_y()
        } else {
            self.degree_x()
        };
        let dx = p.degree_x();
        let dy = p.degree_y();
        proof {
            if self.support() != Set::<(u32, u32)>::empty() {
                let a = choose|k: (u32, u32)| #[trigger] self.support().contains(k) && replaced_exp(in_y, k) == max_e;
                lemma_fits_bounds(*self, *p, in_y, a, dx, dy);
            } else {
                assert(max_e == 0);
                assert(0 * dx == 0 && 0 * dy == 0);
            }
        }
        let pw = powers(p, max_e, dx, dy);
        let terms = self.terms_list();
        let mut result = BiPoly::zero();
        let ghost mut done: Set<(u32, u32)> = Set::empty();
        proof {
            assert forall|x: Frac, y: Frac| frac_valid(x) && frac_valid(y) implies frac_equiv(
                #[trigger] result.eval_spec(x, y),
                set_sum(done, substituted_terms(*self, *p, in_y, x, y)),
            ) by {
                law_eval_monomial(result, (0, 0), x, y);
                lemma_sum_empty(substituted_terms(*self, *p, in_y, x, y));
                lemma_equiv_refl(frac_of_int(0));
            }
        }
        for t in 0..terms.len()
            invariant
                self.wf(),
                p.wf(),
                substitution_fits(*self, *p, in_y),
                terms@.len() == self.support().len(),
                forall|s: int|
                    0 <= s < terms@.len() ==> self.support().contains(((#[trigger] terms@[s]).0, terms@[s].1))
                        && terms@[s].2.wf() && terms@[s].2.frac() == self.coeff_spec(terms@[s].0, terms@[s].1),
                forall|s: int, u: int|
                    0 <= s < u < terms@.len() ==> (#[trigger] terms@[s]).0 < (#[trigger] terms@[u]).0 || (
                    terms@[s].0 == terms@[u].0 && terms@[s].1 < terms@[u].1),
                forall|k: (u32, u32)|
                    #[trigger] self.support().contains(k) ==> exists|s: int|
                        0 <= s < terms@.len() && terms@[s].0 == k.0 && terms@[s].1 == k.1,
                forall|k: (u32, u32)| #[trigger] self.support().contains(k) ==> replaced_exp(in_y, k) <= max_e,
                forall|b: (u32, u32)| #[trigger] p.support().contains(b) ==> b.0 <= dx && b.1 <= dy,
                p.support() == Set::<(u32, u32)>::empty() ==> dx == 0 && dy == 0,
                p.support() != Set::<(u32, u32)>::empty() ==> exists|b: (u32, u32)|
                    #[trigger] p.support().contains(b) && b.0 == dx,
                p.support() != Set::<(u32, u32)>::empty() ==> exists|b: (u32, u32)|
                    #[trigger] p.support().contains(b) && b.1 == dy,
                pw@.len() == max_e + 1,
                forall|n: int| 0 <= n <= max_e ==> (#[trigger] pw@[n]).wf(),
                forall|n: int, k: (u32, u32)|
                    0 <= n <= max_e && #[trigger] pw@[n].support().contains(k) ==> k.0 <= n * dx && k.1 <= n * dy,
                forall|n: int, x: Frac, y: Frac|
                    0 <= n <= max_e && frac_valid(x) && frac_valid(y) ==> frac_equiv(
                        #[trigger] pw@[n].eval_spec(x, y),
                        frac_pow(p.eval_spec(x, y), n as nat),
                    ),
                result.wf(),
                done.finite(),
                forall|k: (u32, u32)|
                    #[trigger] done.contains(k) <==> exists|s: int| 0 <= s < t && terms@[s].0 == k.0 && terms@[s].1 == k.1,
                forall|x: Frac, y: Frac|
                    frac_valid(x) && frac_valid(y) ==> frac_equiv(
                        #[trigger] result.eval_spec(x, y),
                        set_sum(done, substituted_terms(*self, *p, in_y, x, y)),
                    ),
        {
            let i = terms[t].0;
            let j = terms[t].1;
            let c = &terms[t].2;
            let ghost k = (i, j);
            let e = if in_y {
                j
            } else {
                i
            };
            proof {
                assert(self.support().contains(k));
                assert(replaced_exp(in_y, k) == e);
                lemma_fits_bounds(*self, *p, in_y, k, dx, dy);
            }
            let mono = if in_y {
                BiPoly::monomial(i, 0, ExactRational::from_i64(1))
            } else {
                BiPoly::monomial(0, j, ExactRational::from_i64(1))
            };
            let pe = &pw[e as usize];
            proof {
                assert(pe.wf());
                assert forall|a: (u32, u32), b: (u32, u32)|
                    #![trigger pe.support().contains(a), mono.support().contains(b)]
                    pe.support().contains(a) && mono.support().contains(b) implies a.0 + b.0 <= u32::MAX
                        && a.1 + b.1 <= u32::MAX by {
                    assert(a.0 <= e * dx && a.1 <= e * dy);
                }
            }
            let m = pe.mul(&mono);
            let term = m.scale(c);
            let next = result.add(&term);
            proof {
                c.lemma_wf();
                assert forall|x: Frac, y: Frac| frac_valid(x) && frac_valid(y) implies frac_equiv(
                    #[trigger] next.eval_spec(x, y),
                    set_sum(done.insert(k), substituted_terms(*self, *p, in_y, x, y)),
                ) by {
                    let st = substituted_terms(*self, *p, in_y, x, y);
                    lemma_substituted_term(*self, *p, in_y, k, *pe, mono, m, term, c.frac(), x, y);
                    law_eval_add(result, term, next, x, y);
                    assert(!done.contains(k)) by {
                        if done.contains(k) {
                            let s = choose|s: int| 0 <= s < t && terms@[s].0 == k.0 && terms@[s].1 == k.1;
                            assert(terms@[s].0 < terms@[t as int].0 || terms@[s].1 < terms@[t as int].1);
                        }
                    }
                    lemma_sum_insert(done, st, k);
                    lemma_eval_valid(result, x, y);
                    lemma_eval_valid(term, x, y);
                    lemma_eval_valid(*p, x, y);
                    assert forall|kk: (u32, u32)| done.contains(kk) implies frac_valid(#[trigger] st(kk)) by {
                        let pv = p.eval_spec(x, y);
                        if in_y {
                            crate::evaluation::lemma_eval_valid(*self, x, pv);
                        } else {
                            crate::evaluation::lemma_eval_valid(*self, pv, y);
                        }
                        if self.support().contains(kk) {
                            self.terms_view()[kk].lemma_wf();
                        }
                        lemma_pow_valid(x, kk.0 as nat);
                        lemma_pow_valid(y, kk.1 as nat);
                        lemma_pow_valid(pv, kk.0 as nat);
                        lemma_pow_valid(pv, kk.1 as nat);
                        let cc = map_coeff(self.terms_view(), kk);
                        if in_y {
                            lemma_ops_valid(cc, frac_pow(x, kk.0 as nat));
                            lemma_ops_valid(frac_mul(cc, frac_pow(x, kk.0 as nat)), frac_pow(pv, kk.1 as nat));
                        } else {
                            lemma_ops_valid(cc, frac_pow(pv, kk.0 as nat));
                            lemma_ops_valid(frac_mul(cc, frac_pow(pv, kk.0 as nat)), frac_pow(y, kk.1 as nat));
                        }
                    }
                    crate::sums::lemma_sum_valid(done, st);
                    crate::frac::lemma_add_congruence(
                        result.eval_spec(x, y),
                        set_sum(done, st),
                        term.eval_spec(x, y),
                        st(k),
                    );
                    lemma_ops_valid(result.eval_spec(x, y), term.eval_spec(x, y));
                    lemma_equiv_trans(
                        next.eval_spec(x, y),
                        crate::frac::frac_add(result.eval_spec(x, y), term.eval_spec(x, y)),
                        crate::frac::frac_add(set_sum(done, st), st(k)),
                    );
                }
                done = done.insert(k);
                assert forall|kk: (u32, u32)|
                    #[trigger] done.contains(kk) <==> exists|s: int| 0 <= s < t + 1 && terms@[s].0 == kk.0 && terms@[s].1 == kk.1 by {
                    if kk == k {
                        assert(terms@[t as int].0 == kk.0 && terms@[t as int].1 == kk.1);
                    }
                }
            }
            result = next;
        }
        proof {
            assert forall|k: (u32, u32)| done.contains(k) <==> self.support().contains(k) by {
                if done.contains(k) {
                    let s = choose|s: int| 0 <= s < terms@.len() && terms@[s].0 == k.0 && terms@[s].1 == k.1;
                    assert(self.support().contains((terms@[s].0, terms@[s].1)));
                }
            }
            assert(done =~= self.support());
        }
        result
    }

    /// Substitute `x = p(x, y)`, keeping `y`: every `x^i` becomes
    /// `p(x, y)^i`.
    pub fn substitute_x(&self, p: &BiPoly) -> (r: BiPoly)
        requires
            self.wf(),
            p.wf(),
            forall|a: (u32, u32), b: (u32, u32)|
                #![trigger self.support().contains(a), p.support().contains(b)]
                self.support().contains(a) && p.support().contains(b) ==> a.0 * b.0 <= u32::MAX && a.0 * b.1
                    + a.1 <= u32::MAX,
        ensures
            r.wf(),
            forall|x: Frac, y: Frac|
                frac_valid(x) && frac_valid(y) ==> frac_equiv(
                    #[trigger] r.eval_spec(x, y),
                    self.eval_spec(p.eval_spec(x, y), y),
                ),
    {
        self.substitute(p, false)
    }

    /// Substitute `y = p(x, y)`, keeping `x`: every `y^j` becomes
    /// `p(x, y)^j`.
    pub fn substitute_y(&self, p: &BiPoly) -> (r: BiPoly)
        requires
            self.wf(),
            p.wf(),
            forall|a: (u32, u32), b: (u32, u32)|
                #![trigger self.support().contains(a), p.support().contains(b)]
                self.support().contains(a) && p.support().contains(b) ==> a.1 * b.0 + a.0 <= u32::MAX && a.1
                    * b.1 <= u32::MAX,
        ensures
            r.wf(),
            forall|x: Frac, y: Frac|
                frac_valid(x) && frac_valid(y) ==> frac_equiv(
                    #[trigger] r.eval_spec(x, y),
                    self.eval_spec(x, p.eval_spec(x, y)),
                ),
    {
        self.substitute(p, true)
    }
}

} // verus!
