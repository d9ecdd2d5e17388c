//! Substituting the homogeneous polynomials `(X, Y, Z, W)` of a parametric
//! surface into the implicit equation of an analytic surface, giving one
//! bivariate polynomial whose zero set is their intersection in the
//! parametric domain. Everything is multiplied through by the right power
//! of `W`, so the result stays a polynomial.

use vstd::prelude::*;

use crate::evaluation::{law_eval_add, law_eval_monomial, law_eval_mul, law_eval_scale, law_eval_sub, lemma_eval_valid, lemma_mul_support};
use crate::frac::{
    frac_add, frac_equiv, frac_mul, frac_neg, frac_of_int, frac_sub, frac_valid, lemma_add_chain,
    lemma_equiv_refl, lemma_equiv_symm, lemma_equiv_trans, lemma_equiv_zero, lemma_mul_chain, lemma_ops_valid,
    lemma_sub_chain, Frac,
};
use crate::poly::BiPoly;
use crate::rational::ExactRational;

verus! {

/// Every exponent of `p` is at most `b` in each variable.
pub open spec fn exponents_within(p: BiPoly, b: int) -> bool {
    forall|k: (u32, u32)| #[trigger] p.support().contains(k) ==> k.0 <= b && k.1 <= b
}

/// The largest exponent whose double fits in `u32`.
pub open spec fn half_exponent() -> int {
    2147483647
}

/// The largest exponent whose fourfold fits in `u32`.
pub open spec fn quarter_exponent() -> int {
    1073741823
}

/// A bound on the exponents holds for every larger bound too.
pub(crate) proof fn lemma_within_mono(p: BiPoly, a: int, b: int)
    requires
        exponents_within(p, a),
        a <= b,
    ensures
        exponents_within(p, b),
{
}

/// A coefficient that is absent on both sides is absent from a sum or
/// difference.
proof fn lemma_combined_support(p: BiPoly, q: BiPoly, r: BiPoly, k: (u32, u32))
    requires
        p.wf(),
        q.wf(),
        r.wf(),
        r.support().contains(k),
        frac_equiv(r.coeff_spec(k.0, k.1), frac_add(p.coeff_spec(k.0, k.1), q.coeff_spec(k.0, k.1)))
            || frac_equiv(r.coeff_spec(k.0, k.1), frac_sub(p.coeff_spec(k.0, k.1), q.coeff_spec(k.0, k.1)))
            || frac_equiv(r.coeff_spec(k.0, k.1), frac_mul(p.coeff_spec(k.0, k.1), q.coeff_spec(k.0, k.1))),
    ensures
        p.support().contains(k) || q.support().contains(k),
{
    if !p.support().contains(k) && !q.support().contains(k) {
        r.terms_view()[k].lemma_wf();
        let z = r.coeff_spec(k.0, k.1);
        assert(z == r.terms_view()[k].frac());
        assert(p.coeff_spec(k.0, k.1) == frac_of_int(0));
        assert(q.coeff_spec(k.0, k.1) == frac_of_int(0));
        assert(0int * 1 + 0int * 1 == 0 && 0int * 0 == 0 && 1int * 1 == 1);
        assert(z.num * 1 == 0 * z.den);
    }
}

/// `p + q`, with the bound on the exponents kept and the value the sum of
/// the values.
pub(crate) fn add_values(p: &BiPoly, q: &BiPoly, Ghost(b): Ghost<int>) -> (r: BiPoly)
    requires
        p.wf(),
        q.wf(),
        exponents_within(*p, b),
        exponents_within(*q, b),
    ensures
        r.wf(),
        exponents_within(r, b),
        forall|k: (u32, u32)| #[trigger] r.support().contains(k) ==> p.support().contains(k) || q.support().contains(k),
        forall|x: Frac, y: Frac|
            frac_valid(x) && frac_valid(y) ==> frac_equiv(
                #[trigger] r.eval_spec(x, y),
                frac_add(p.eval_spec(x, y), q.eval_spec(x, y)),
            ),
{
    let r = p.add(q);
    proof {
        assert forall|k: (u32, u32)| #[trigger] r.support().contains(k) implies k.0 <= b && k.1 <= b && (
        p.support().contains(k) || q.support().contains(k)) by {
            lemma_combined_support(*p, *q, r, k);
        }
        assert forall|x: Frac, y: Frac| frac_valid(x) && frac_valid(y) implies frac_equiv(
            #[trigger] r.eval_spec(x, y),
            frac_add(p.eval_spec(x, y), q.eval_spec(x, y)),
        ) by {
            law_eval_add(*p, *q, r, x, y);
        }
    }
    r
}

/// `p - q`, with the bound on the exponents kept and the value the
/// difference of the values.
pub(crate) fn sub_values(p: &BiPoly, q: &BiPoly, Ghost(b): Ghost<int>) -> (r: BiPoly)
    requires
        p.wf(),
        q.wf(),
        exponents_within(*p, b),
        exponents_within(*q, b),
    ensures
        r.wf(),
        exponents_within(r, b),
        forall|x: Frac, y: Frac|
            frac_valid(x) && frac_valid(y) ==> frac_equiv(
                #[trigger] r.eval_spec(x, y),
                frac_sub(p.eval_spec(x, y), q.eval_spec(x, y)),
            ),
{
    let r = p.sub(q);
    proof {
        assert forall|k: (u32, u32)| #[trigger] r.support().contains(k) implies k.0 <= b && k.1 <= b by {
            lemma_combined_support(*p, *q, r, k);
        }
        assert forall|x: Frac, y: Frac| frac_valid(x) && frac_valid(y) implies frac_equiv(
            #[trigger] r.eval_spec(x, y),
            frac_sub(p.eval_spec(x, y), q.eval_spec(x, y)),
        ) by {
            law_eval_sub(*p, *q, r, x, y);
        }
    }
    r
}

/// `c p`, with the bound on the exponents kept and the value scaled by `c`.
pub(crate) fn scale_values(p: &BiPoly, c: &ExactRational, Ghost(b): Ghost<int>) -> (r: BiPoly)
    requires
        p.wf(),
        c.wf(),
        exponents_within(*p, b),
    ensures
        r.wf(),
        exponents_within(r, b),
        forall|k: (u32, u32)| #[trigger] r.support().contains(k) ==> p.support().contains(k),
        forall|x: Frac, y: Frac|
            frac_valid(x) && frac_valid(y) ==> frac_equiv(
                #[trigger] r.eval_spec(x, y),
                frac_mul(p.eval_spec(x, y), c.frac()),
            ),
{
    let r = p.scale(c);
    proof {
        c.lemma_wf();
        assert forall|k: (u32, u32)| #[trigger] r.support().contains(k) implies k.0 <= b && k.1 <= b
            && p.support().contains(k) by {
            if !p.support().contains(k) {
                r.terms_view()[k].lemma_wf();
                let z = r.coeff_spec(k.0, k.1);
                assert(z == r.terms_view()[k].frac());
                assert(p.coeff_spec(k.0, k.1) == frac_of_int(0));
                let w = c.frac();
                assert(0 * w.num == 0);
                lemma_ops_valid(frac_of_int(0), w);
                lemma_equiv_zero(frac_mul(frac_of_int(0), w), z);
            }
        }
        assert forall|x: Frac, y: Frac| frac_valid(x) && frac_valid(y) implies frac_equiv(
            #[trigger] r.eval_spec(x, y),
            frac_mul(p.eval_spec(x, y), c.frac()),
        ) by {
            law_eval_scale(*p, c.frac(), r, x, y);
        }
    }
    r
}

/// `p q`: the exponent bounds add up and the values multiply.
pub(crate) fn mul_values(p: &BiPoly, q: &BiPoly, Ghost(bp): Ghost<int>, Ghost(bq): Ghost<int>) -> (r: BiPoly)
    requires
        p.wf(),
        q.wf(),
        0 <= bp,
        0 <= bq,
        bp + bq <= u32::MAX,
        exponents_within(*p, bp),
        exponents_within(*q, bq),
    ensures
        r.wf(),
        exponents_within(r, bp + bq),
        forall|x: Frac, y: Frac|
            frac_valid(x) && frac_valid(y) ==> frac_equiv(
                #[trigger] r.eval_spec(x, y),
                frac_mul(p.eval_spec(x, y), q.eval_spec(x, y)),
            ),
{
    proof {
        assert forall|a: (u32, u32), b: (u32, u32)|
            #![trigger p.support().contains(a), q.support().contains(b)]
            p.support().contains(a) && q.support().contains(b) implies a.0 + b.0 <= u32::MAX && a.1 + b.1
                <= u32::MAX by {
            assert(a.0 <= bp && a.1 <= bp);
            assert(b.0 <= bq && b.1 <= bq);
        }
    }
    let r = p.mul(q);
    proof {
        assert forall|k: (u32, u32)| #[trigger] r.support().contains(k) implies k.0 <= bp + bq && k.1 <= bp + bq by {
            lemma_mul_support(*p, *q, r, k);
            let (a, b) = choose|a: (u32, u32), b: (u32, u32)|
                #![trigger p.support().contains(a), q.support().contains(b)]
                p.support().contains(a) && q.support().contains(b) && a.0 + b.0 == k.0 && a.1 + b.1 == k.1;
            assert(a.0 <= bp && a.1 <= bp);
            assert(b.0 <= bq && b.1 <= bq);
        }
        assert forall|x: Frac, y: Frac| frac_valid(x) && frac_valid(y) implies frac_equiv(
            #[trigger] r.eval_spec(x, y),
            frac_mul(p.eval_spec(x, y), q.eval_spec(x, y)),
        ) by {
            law_eval_mul(*p, *q, r, x, y);
        }
    }
    r
}

/// The constant polynomial `c`, whose value everywhere is `c`.
pub(crate) fn constant_value(c: &ExactRational) -> (r: BiPoly)
    requires
        c.wf(),
    ensures
        r.wf(),
        exponents_within(r, 0),
        forall|x: Frac, y: Frac| frac_valid(x) && frac_valid(y) ==> frac_equiv(#[trigger] r.eval_spec(x, y), c.frac()),
{
    let r = BiPoly::constant(c.copy());
    proof {
        c.lemma_wf();
        assert forall|x: Frac, y: Frac| frac_valid(x) && frac_valid(y) implies frac_equiv(
            #[trigger] r.eval_spec(x, y),
            c.frac(),
        ) by {
            law_eval_monomial(r, (0, 0), x, y);
            let z = c.frac();
            if z.num == 0 {
                assert(0 * z.den == z.num * 1);
            } else {
                assert((z.num * 1) * 1 == z.num && (z.den * 1) * 1 == z.den);
            }
        }
    }
    r
}

/// Homogeneous-coordinate polynomials of a parametric surface: the point
/// at `(u, v)` is `(x/w, y/w, z/w)` wherever `w(u, v)` is not zero.
pub struct HomogeneousSurface<'a> {
    pub x: &'a BiPoly,
    pub y: &'a BiPoly,
    pub z: &'a BiPoly,
    pub w: &'a BiPoly,
}

impl<'a> HomogeneousSurface<'a> {
    /// All four polynomials are well formed.
    pub open spec fn wf(&self) -> bool {
        self.x.wf() && self.y.wf() && self.z.wf() && self.w.wf()
    }

    /// All four polynomials have exponents at most `b`.
    pub open spec fn within(&self, b: int) -> bool {
        exponents_within(*self.x, b) && exponents_within(*self.y, b) && exponents_within(*self.z, b)
            && exponents_within(*self.w, b)
    }
}

/// `a X + b Y + c Z - d W`.
pub open spec fn linear_value(x: Frac, y: Frac, z: Frac, w: Frac, a: Frac, b: Frac, c: Frac, d: Frac) -> Frac {
    frac_add(frac_add(frac_add(frac_mul(x, a), frac_mul(y, b)), frac_mul(z, c)), frac_mul(w, frac_neg(d)))
}

/// `(X - cx W)^2 + (Y - cy W)^2 + (Z - cz W)^2 - r2 W^2`.
pub open spec fn sphere_value(x: Frac, y: Frac, z: Frac, w: Frac, cx: Frac, cy: Frac, cz: Frac, r2: Frac) -> Frac {
    let dx = frac_sub(x, frac_mul(w, cx));
    let dy = frac_sub(y, frac_mul(w, cy));
    let dz = frac_sub(z, frac_mul(w, cz));
    frac_sub(
        frac_add(frac_add(frac_mul(dx, dx), frac_mul(dy, dy)), frac_mul(dz, dz)),
        frac_mul(frac_mul(w, w), r2),
    )
}

/// `LX^2 + LY^2 - r2 W^2`.
pub open spec fn cylinder_value(lx: Frac, ly: Frac, w: Frac, r2: Frac) -> Frac {
    frac_sub(frac_add(frac_mul(lx, lx), frac_mul(ly, ly)), frac_mul(frac_mul(w, w), r2))
}

/// `(LX^2 + LY^2) cos2 - LZ^2 sin2`.
pub open spec fn cone_value(lx: Frac, ly: Frac, lz: Frac, cos2: Frac, sin2: Frac) -> Frac {
    frac_sub(frac_mul(frac_add(frac_mul(lx, lx), frac_mul(ly, ly)), cos2), frac_mul(frac_mul(lz, lz), sin2))
}

/// `((LX^2 + LY^2 + LZ^2) + (R^2 - r^2) W^2)^2 - 4 R^2 (LX^2 + LY^2) W^2`.
pub open spec fn torus_value(lx: Frac, ly: Frac, lz: Frac, w: Frac, big_r: Frac, little_r: Frac) -> Frac {
    let lx2 = frac_mul(lx, lx);
    let ly2 = frac_mul(ly, ly);
    let lz2 = frac_mul(lz, lz);
    let w2 = frac_mul(w, w);
    let r_diff = frac_sub(frac_mul(big_r, big_r), frac_mul(little_r, little_r));
    let inner = frac_add(frac_add(frac_add(lx2, ly2), lz2), frac_mul(r_diff, w2));
    let four_r2 = frac_mul(frac_mul(big_r, big_r), frac_of_int(4));
    frac_sub(frac_mul(inner, inner), frac_mul(four_r2, frac_mul(frac_add(lx2, ly2), w2)))
}

/// The torus expression takes equivalent arguments to equivalent values,
/// and valid arguments to a valid value.
pub proof fn lemma_torus_value_congruent(
    lx: Frac,
    ly: Frac,
    lz: Frac,
    w: Frac,
    mx: Frac,
    my: Frac,
    mz: Frac,
    mw: Frac,
    big_r: Frac,
    little_r: Frac,
)
    requires
        frac_valid(lx),
        frac_valid(ly),
        frac_valid(lz),
        frac_valid(w),
        frac_valid(big_r),
        frac_valid(little_r),
        frac_equiv(lx, mx),
        frac_equiv(ly, my),
        frac_equiv(lz, mz),
        frac_equiv(w, mw),
    ensures
        frac_valid(torus_value(lx, ly, lz, w, big_r, little_r)),
        frac_equiv(torus_value(lx, ly, lz, w, big_r, little_r), torus_value(mx, my, mz, mw, big_r, little_r)),
{
    let (lx2, ly2, lz2, w2) = (frac_mul(lx, lx), frac_mul(ly, ly), frac_mul(lz, lz), frac_mul(w, w));
    let r_diff = frac_sub(frac_mul(big_r, big_r), frac_mul(little_r, little_r));
    let four_r2 = frac_mul(frac_mul(big_r, big_r), frac_of_int(4));
    lemma_ops_valid(lx, lx);
    lemma_ops_valid(ly, ly);
    lemma_ops_valid(lz, lz);
    lemma_ops_valid(w, w);
    lemma_ops_valid(big_r, big_r);
    lemma_ops_valid(little_r, little_r);
    lemma_ops_valid(frac_mul(big_r, big_r), frac_mul(little_r, little_r));
    lemma_ops_valid(frac_mul(big_r, big_r), frac_of_int(4));
    lemma_ops_valid(lx2, ly2);
    lemma_ops_valid(frac_add(lx2, ly2), lz2);
    lemma_ops_valid(r_diff, w2);
    let inner = frac_add(frac_add(frac_add(lx2, ly2), lz2), frac_mul(r_diff, w2));
    lemma_ops_valid(frac_add(frac_add(lx2, ly2), lz2), frac_mul(r_diff, w2));
    lemma_ops_valid(inner, inner);
    lemma_ops_valid(frac_add(lx2, ly2), w2);
    lemma_ops_valid(four_r2, frac_mul(frac_add(lx2, ly2), w2));
    lemma_ops_valid(frac_mul(inner, inner), frac_mul(four_r2, frac_mul(frac_add(lx2, ly2), w2)));
    lemma_equiv_refl(lx2);
    lemma_equiv_refl(ly2);
    lemma_equiv_refl(lz2);
    lemma_equiv_refl(w2);
    lemma_equiv_refl(r_diff);
    lemma_equiv_refl(four_r2);
    lemma_mul_chain(lx2, lx, lx, mx, mx);
    lemma_mul_chain(ly2, ly, ly, my, my);
    lemma_mul_chain(lz2, lz, lz, mz, mz);
    lemma_mul_chain(w2, w, w, mw, mw);
    let (nx2, ny2, nz2, nw2) = (frac_mul(mx, mx), frac_mul(my, my), frac_mul(mz, mz), frac_mul(mw, mw));
    lemma_equiv_refl(frac_add(lx2, ly2));
    lemma_add_chain(frac_add(lx2, ly2), lx2, ly2, nx2, ny2);
    lemma_equiv_refl(frac_add(frac_add(lx2, ly2), lz2));
    lemma_add_chain(frac_add(frac_add(lx2, ly2), lz2), frac_add(lx2, ly2), lz2, frac_add(nx2, ny2), nz2);
    lemma_equiv_refl(frac_mul(r_diff, w2));
    lemma_mul_chain(frac_mul(r_diff, w2), r_diff, w2, r_diff, nw2);
    lemma_equiv_refl(inner);
    let minner = frac_add(frac_add(frac_add(nx2, ny2), nz2), frac_mul(r_diff, nw2));
    lemma_add_chain(inner, frac_add(frac_add(lx2, ly2), lz2), frac_mul(r_diff, w2), frac_add(frac_add(nx2, ny2), nz2),
        frac_mul(r_diff, nw2));
    lemma_equiv_refl(frac_mul(inner, inner));
    lemma_mul_chain(frac_mul(inner, inner), inner, inner, minner, minner);
    lemma_equiv_refl(frac_mul(frac_add(lx2, ly2), w2));
    lemma_mul_chain(frac_mul(frac_add(lx2, ly2), w2), frac_add(lx2, ly2), w2, frac_add(nx2, ny2), nw2);
    lemma_equiv_refl(frac_mul(four_r2, frac_mul(frac_add(lx2, ly2), w2)));
    lemma_mul_chain(frac_mul(four_r2, frac_mul(frac_add(lx2, ly2), w2)), four_r2, frac_mul(frac_add(lx2, ly2), w2),
        four_r2, frac_mul(frac_add(nx2, ny2), nw2));
    lemma_equiv_refl(torus_value(lx, ly, lz, w, big_r, little_r));
    lemma_sub_chain(torus_value(lx, ly, lz, w, big_r, little_r), frac_mul(inner, inner),
        frac_mul(four_r2, frac_mul(frac_add(lx2, ly2), w2)), frac_mul(minner, minner),
        frac_mul(four_r2, frac_mul(frac_add(nx2, ny2), nw2)));
}

/// `a_x X + a_y Y + a_z Z - d W`: the coordinate along `a` of the point,
/// relative to an origin `o` with `a . o = d`, multiplied through by `W`.
pub fn combine(
    s: &HomogeneousSurface,
    ax: &ExactRational,
    ay: &ExactRational,
    az: &ExactRational,
    dot_origin: &ExactRational,
) -> (r: BiPoly)
    requires
        s.wf(),
        ax.wf(),
        ay.wf(),
        az.wf(),
        dot_origin.wf(),
    ensures
        r.wf(),
        forall|k: (u32, u32)|
            #[trigger] r.support().contains(k) ==> s.x.support().contains(k) || s.y.support().contains(k)
                || s.z.support().contains(k) || s.w.support().contains(k),
        forall|x: Frac, y: Frac|
            frac_valid(x) && frac_valid(y) ==> frac_equiv(
                #[trigger] r.eval_spec(x, y),
                linear_value(
                    s.x.eval_spec(x, y),
                    s.y.eval_spec(x, y),
                    s.z.eval_spec(x, y),
                    s.w.eval_spec(x, y),
                    ax.frac(),
                    ay.frac(),
                    az.frac(),
                    dot_origin.frac(),
                ),
            ),
{
    let ghost b = u32::MAX as int;
    let neg_d = dot_origin.neg();
    let px = scale_values(s.x, ax, Ghost(b));
    let py = scale_values(s.y, ay, Ghost(b));
    let pz = scale_values(s.z, az, Ghost(b));
    let pw = scale_values(s.w, &neg_d, Ghost(b));
    let sxy = add_values(&px, &py, Ghost(b));
    let sxyz = add_values(&sxy, &pz, Ghost(b));
    let r = add_values(&sxyz, &pw, Ghost(b));
    proof {
        assert forall|x: Frac, y: Frac| frac_valid(x) && frac_valid(y) implies frac_equiv(
            #[trigger] r.eval_spec(x, y),
            linear_value(
                s.x.eval_spec(x, y),
                s.y.eval_spec(x, y),
                s.z.eval_spec(x, y),
                s.w.eval_spec(x, y),
                ax.frac(),
                ay.frac(),
                az.frac(),
                dot_origin.frac(),
            ),
        ) by {
            let (vx, vy, vz, vw) = (s.x.eval_spec(x, y), s.y.eval_spec(x, y), s.z.eval_spec(x, y), s.w.eval_spec(x, y));
            lemma_eval_valid(*s.x, x, y);
            lemma_eval_valid(*s.y, x, y);
            lemma_eval_valid(*s.z, x, y);
            lemma_eval_valid(*s.w, x, y);
            lemma_eval_valid(px, x, y);
            lemma_eval_valid(py, x, y);
            lemma_eval_valid(pz, x, y);
            lemma_eval_valid(pw, x, y);
            lemma_eval_valid(sxy, x, y);
            lemma_eval_valid(sxyz, x, y);
            lemma_add_chain(sxy.eval_spec(x, y), px.eval_spec(x, y), py.eval_spec(x, y), frac_mul(vx, ax.frac()), frac_mul(vy, ay.frac()));
            lemma_add_chain(sxyz.eval_spec(x, y), sxy.eval_spec(x, y), pz.eval_spec(x, y),
                frac_add(frac_mul(vx, ax.frac()), frac_mul(vy, ay.frac())), frac_mul(vz, az.frac()));
            lemma_add_chain(r.eval_spec(x, y), sxyz.eval_spec(x, y), pw.eval_spec(x, y),
                frac_add(frac_add(frac_mul(vx, ax.frac()), frac_mul(vy, ay.frac())), frac_mul(vz, az.frac())),
                frac_mul(vw, frac_neg(dot_origin.frac())));
        }
    }
    r
}

/// Substitution into a plane `n . (P - o) = 0`, homogenized as
/// `n_x X + n_y Y + n_z Z - (n . o) W`; the result has the degree of the
/// input.
pub fn substitute_into_plane(
    s: &HomogeneousSurface,
    nx: &ExactRational,
    ny: &ExactRational,
    nz: &ExactRational,
    n_dot_o: &ExactRational,
) -> (r: BiPoly)
    requires
        s.wf(),
        nx.wf(),
        ny.wf(),
        nz.wf(),
        n_dot_o.wf(),
    ensures
        r.wf(),
        forall|x: Frac, y: Frac|
            frac_valid(x) && frac_valid(y) ==> frac_equiv(
                #[trigger] r.eval_spec(x, y),
                linear_value(
                    s.x.eval_spec(x, y),
                    s.y.eval_spec(x, y),
                    s.z.eval_spec(x, y),
                    s.w.eval_spec(x, y),
                    nx.frac(),
                    ny.frac(),
                    nz.frac(),
                    n_dot_o.frac(),
                ),
            ),
{
    combine(s, nx, ny, nz, n_dot_o)
}

/// Substitution into a sphere `|P - c|^2 = r^2`, homogenized as
/// `(X - cx W)^2 + (Y - cy W)^2 + (Z - cz W)^2 - r^2 W^2`; the result has
/// twice the degree of the input.
#[verifier::rlimit(30)]
pub fn substitute_into_sphere(
    s: &HomogeneousSurface,
    cx: &ExactRational,
    cy: &ExactRational,
    cz: &ExactRational,
    r2: &ExactRational,
) -> (r: BiPoly)
    requires
        s.wf(),
        s.within(half_exponent()),
        cx.wf(),
        cy.wf(),
        cz.wf(),
        r2.wf(),
    ensures
        r.wf(),
        forall|x: Frac, y: Frac|
            frac_valid(x) && frac_valid(y) ==> frac_equiv(
                #[trigger] r.eval_spec(x, y),
                sphere_value(
                    s.x.eval_spec(x, y),
                    s.y.eval_spec(x, y),
                    s.z.eval_spec(x, y),
                    s.w.eval_spec(x, y),
                    cx.frac(),
                    cy.frac(),
                    cz.frac(),
                    r2.frac(),
                ),
            ),
{
    let ghost b = half_exponent();
    let wcx = scale_values(s.w, cx, Ghost(b));
    let wcy = scale_values(s.w, cy, Ghost(b));
    let wcz = scale_values(s.w, cz, Ghost(b));
    let dx = sub_values(s.x, &wcx, Ghost(b));
    let dy = sub_values(s.y, &wcy, Ghost(b));
    let dz = sub_values(s.z, &wcz, Ghost(b));
    let w2 = mul_values(s.w, s.w, Ghost(b), Ghost(b));
    let dx2 = mul_values(&dx, &dx, Ghost(b), Ghost(b));
    let dy2 = mul_values(&dy, &dy, Ghost(b), Ghost(b));
    let dz2 = mul_values(&dz, &dz, Ghost(b), Ghost(b));
    let s2 = add_values(&dx2, &dy2, Ghost(2 * b));
    let d2 = add_values(&s2, &dz2, Ghost(2 * b));
    let r2_w2 = scale_values(&w2, r2, Ghost(2 * b));
    let r = sub_values(&d2, &r2_w2, Ghost(2 * b));
    proof {
        assert forall|x: Frac, y: Frac| frac_valid(x) && frac_valid(y) implies frac_equiv(
            #[trigger] r.eval_spec(x, y),
            sphere_value(
                s.x.eval_spec(x, y),
                s.y.eval_spec(x, y),
                s.z.eval_spec(x, y),
                s.w.eval_spec(x, y),
                cx.frac(),
                cy.frac(),
                cz.frac(),
                r2.frac(),
            ),
        ) by {
            let (vx, vy, vz, vw) = (s.x.eval_spec(x, y), s.y.eval_spec(x, y), s.z.eval_spec(x, y), s.w.eval_spec(x, y));
            lemma_eval_valid(*s.x, x, y);
            lemma_eval_valid(*s.y, x, y);
            lemma_eval_valid(*s.z, x, y);
            lemma_eval_valid(*s.w, x, y);
            lemma_eval_valid(wcx, x, y);
            lemma_eval_valid(wcy, x, y);
            lemma_eval_valid(wcz, x, y);
            lemma_eval_valid(dx, x, y);
            lemma_eval_valid(dy, x, y);
            lemma_eval_valid(dz, x, y);
            lemma_eval_valid(w2, x, y);
            lemma_eval_valid(dx2, x, y);
            lemma_eval_valid(dy2, x, y);
            lemma_eval_valid(dz2, x, y);
            lemma_eval_valid(s2, x, y);
            lemma_eval_valid(d2, x, y);
            lemma_eval_valid(r2_w2, x, y);
            let ex = frac_sub(vx, frac_mul(vw, cx.frac()));
            let ey = frac_sub(vy, frac_mul(vw, cy.frac()));
            let ez = frac_sub(vz, frac_mul(vw, cz.frac()));
            lemma_equiv_refl(vx);
            lemma_equiv_refl(vy);
            lemma_equiv_refl(vz);
            lemma_equiv_refl(vw);
            lemma_equiv_refl(r2.frac());
            lemma_sub_chain(dx.eval_spec(x, y), vx, wcx.eval_spec(x, y), vx, frac_mul(vw, cx.frac()));
            lemma_sub_chain(dy.eval_spec(x, y), vy, wcy.eval_spec(x, y), vy, frac_mul(vw, cy.frac()));
            lemma_sub_chain(dz.eval_spec(x, y), vz, wcz.eval_spec(x, y), vz, frac_mul(vw, cz.frac()));
            lemma_mul_chain(dx2.eval_spec(x, y), dx.eval_spec(x, y), dx.eval_spec(x, y), ex, ex);
            lemma_mul_chain(dy2.eval_spec(x, y), dy.eval_spec(x, y), dy.eval_spec(x, y), ey, ey);
            lemma_mul_chain(dz2.eval_spec(x, y), dz.eval_spec(x, y), dz.eval_spec(x, y), ez, ez);
            lemma_mul_chain(w2.eval_spec(x, y), vw, vw, vw, vw);
            lemma_add_chain(s2.eval_spec(x, y), dx2.eval_spec(x, y), dy2.eval_spec(x, y), frac_mul(ex, ex), frac_mul(ey, ey));
            lemma_add_chain(d2.eval_spec(x, y), s2.eval_spec(x, y), dz2.eval_spec(x, y),
                frac_add(frac_mul(ex, ex), frac_mul(ey, ey)), frac_mul(ez, ez));
            r2.lemma_wf();
            lemma_mul_chain(r2_w2.eval_spec(x, y), w2.eval_spec(x, y), r2.frac(), frac_mul(vw, vw), r2.frac());
            lemma_sub_chain(r.eval_spec(x, y), d2.eval_spec(x, y), r2_w2.eval_spec(x, y),
                frac_add(frac_add(frac_mul(ex, ex), frac_mul(ey, ey)), frac_mul(ez, ez)),
                frac_mul(frac_mul(vw, vw), r2.frac()));
        }
    }
    r
}

/// Substitution into a cylinder of squared radius `r2`, given the
/// coordinates `lx, ly` of the point across the axis (from `combine`) and
/// `w`: `LX^2 + LY^2 - r2 W^2`.
pub fn substitute_into_cylinder(lx: &BiPoly, ly: &BiPoly, w: &BiPoly, r2: &ExactRational) -> (r: BiPoly)
    requires
        lx.wf(),
        ly.wf(),
        w.wf(),
        r2.wf(),
        exponents_within(*lx, half_exponent()),
        exponents_within(*ly, half_exponent()),
        exponents_within(*w, half_exponent()),
    ensures
        r.wf(),
        forall|x: Frac, y: Frac|
            frac_valid(x) && frac_valid(y) ==> frac_equiv(
                #[trigger] r.eval_spec(x, y),
                cylinder_value(lx.eval_spec(x, y), ly.eval_spec(x, y), w.eval_spec(x, y), r2.frac()),
            ),
{
    let ghost b = half_exponent();
    let w2 = mul_values(w, w, Ghost(b), Ghost(b));
    let r2_w2 = scale_values(&w2, r2, Ghost(2 * b));
    let lx2 = mul_values(lx, lx, Ghost(b), Ghost(b));
    let ly2 = mul_values(ly, ly, Ghost(b), Ghost(b));
    let sum = add_values(&lx2, &ly2, Ghost(2 * b));
    let r = sub_values(&sum, &r2_w2, Ghost(2 * b));
    proof {
        assert forall|x: Frac, y: Frac| frac_valid(x) && frac_valid(y) implies frac_equiv(
            #[trigger] r.eval_spec(x, y),
            cylinder_value(lx.eval_spec(x, y), ly.eval_spec(x, y), w.eval_spec(x, y), r2.frac()),
        ) by {
            let (vx, vy, vw) = (lx.eval_spec(x, y), ly.eval_spec(x, y), w.eval_spec(x, y));
            lemma_eval_valid(*lx, x, y);
            lemma_eval_valid(*ly, x, y);
            lemma_eval_valid(*w, x, y);
            lemma_eval_valid(w2, x, y);
            lemma_eval_valid(r2_w2, x, y);
            lemma_eval_valid(lx2, x, y);
            lemma_eval_valid(ly2, x, y);
            lemma_eval_valid(sum, x, y);
            r2.lemma_wf();
            lemma_equiv_refl(vx);
            lemma_equiv_refl(vy);
            lemma_equiv_refl(vw);
            lemma_equiv_refl(r2.frac());
            lemma_mul_chain(w2.eval_spec(x, y), vw, vw, vw, vw);
            lemma_mul_chain(r2_w2.eval_spec(x, y), w2.eval_spec(x, y), r2.frac(), frac_mul(vw, vw), r2.frac());
            lemma_mul_chain(lx2.eval_spec(x, y), vx, vx, vx, vx);
            lemma_mul_chain(ly2.eval_spec(x, y), vy, vy, vy, vy);
            lemma_add_chain(sum.eval_spec(x, y), lx2.eval_spec(x, y), ly2.eval_spec(x, y), frac_mul(vx, vx), frac_mul(vy, vy));
            lemma_sub_chain(r.eval_spec(x, y), sum.eval_spec(x, y), r2_w2.eval_spec(x, y),
                frac_add(frac_mul(vx, vx), frac_mul(vy, vy)), frac_mul(frac_mul(vw, vw), r2.frac()));
        }
    }
    r
}

/// Substitution into a double cone with the given `cos^2` and `sin^2` of
/// its half angle, from the point's coordinates `lx, ly` across the axis
/// and `lz` along it: `(LX^2 + LY^2) cos2 - LZ^2 sin2`.
pub fn substitute_into_cone(
    lx: &BiPoly,
    ly: &BiPoly,
    lz: &BiPoly,
    cos2: &ExactRational,
    sin2: &ExactRational,
) -> (r: BiPoly)
    requires
        lx.wf(),
        ly.wf(),
        lz.wf(),
        cos2.wf(),
        sin2.wf(),
        exponents_within(*lx, half_exponent()),
        exponents_within(*ly, half_exponent()),
        exponents_within(*lz, half_exponent()),
    ensures
        r.wf(),
        forall|x: Frac, y: Frac|
            frac_valid(x) && frac_valid(y) ==> frac_equiv(
                #[trigger] r.eval_spec(x, y),
                cone_value(lx.eval_spec(x, y), ly.eval_spec(x, y), lz.eval_spec(x, y), cos2.frac(), sin2.frac()),
            ),
{
    let ghost b = half_exponent();
    let lx2 = mul_values(lx, lx, Ghost(b), Ghost(b));
    let ly2 = mul_values(ly, ly, Ghost(b), Ghost(b));
    let radial2 = add_values(&lx2, &ly2, Ghost(2 * b));
    let axial2 = mul_values(lz, lz, Ghost(b), Ghost(b));
    let rc = scale_values(&radial2, cos2, Ghost(2 * b));
    let as_ = scale_values(&axial2, sin2, Ghost(2 * b));
    let r = sub_values(&rc, &as_, Ghost(2 * b));
    proof {
        assert forall|x: Frac, y: Frac| frac_valid(x) && frac_valid(y) implies frac_equiv(
            #[trigger] r.eval_spec(x, y),
            cone_value(lx.eval_spec(x, y), ly.eval_spec(x, y), lz.eval_spec(x, y), cos2.frac(), sin2.frac()),
        ) by {
            let (vx, vy, vz) = (lx.eval_spec(x, y), ly.eval_spec(x, y), lz.eval_spec(x, y));
            lemma_eval_valid(*lx, x, y);
            lemma_eval_valid(*ly, x, y);
            lemma_eval_valid(*lz, x, y);
            lemma_eval_valid(lx2, x, y);
            lemma_eval_valid(ly2, x, y);
            lemma_eval_valid(radial2, x, y);
            lemma_eval_valid(axial2, x, y);
            lemma_eval_valid(rc, x, y);
            lemma_eval_valid(as_, x, y);
            cos2.lemma_wf();
            sin2.lemma_wf();
            lemma_equiv_refl(vx);
            lemma_equiv_refl(vy);
            lemma_equiv_refl(vz);
            lemma_equiv_refl(cos2.frac());
            lemma_equiv_refl(sin2.frac());
            lemma_mul_chain(lx2.eval_spec(x, y), vx, vx, vx, vx);
            lemma_mul_chain(ly2.eval_spec(x, y), vy, vy, vy, vy);
            lemma_mul_chain(axial2.eval_spec(x, y), vz, vz, vz, vz);
            lemma_add_chain(radial2.eval_spec(x, y), lx2.eval_spec(x, y), ly2.eval_spec(x, y), frac_mul(vx, vx), frac_mul(vy, vy));
            lemma_mul_chain(rc.eval_spec(x, y), radial2.eval_spec(x, y), cos2.frac(),
                frac_add(frac_mul(vx, vx), frac_mul(vy, vy)), cos2.frac());
            lemma_mul_chain(as_.eval_spec(x, y), axial2.eval_spec(x, y), sin2.frac(), frac_mul(vz, vz), sin2.frac());
            lemma_sub_chain(r.eval_spec(x, y), rc.eval_spec(x, y), as_.eval_spec(x, y),
                frac_mul(frac_add(frac_mul(vx, vx), frac_mul(vy, vy)), cos2.frac()),
                frac_mul(frac_mul(vz, vz), sin2.frac()));
        }
    }
    r
}

/// Substitution into a torus with major radius `big_r` and minor radius
/// `little_r`, from the point's coordinates `lx, ly, lz` in the torus frame
/// and `w`: `((LX^2 + LY^2 + LZ^2) + (R^2 - r^2) W^2)^2 - 4 R^2 (LX^2 +
/// LY^2) W^2`; the result has four times the degree of the input.
#[verifier::rlimit(40)]
pub fn substitute_into_torus(
    lx: &BiPoly,
    ly: &BiPoly,
    lz: &BiPoly,
    w: &BiPoly,
    big_r: &ExactRational,
    little_r: &ExactRational,
) -> (r: BiPoly)
    requires
        lx.wf(),
        ly.wf(),
        lz.wf(),
        w.wf(),
        big_r.wf(),
        little_r.wf(),
        exponents_within(*lx, quarter_exponent()),
        exponents_within(*ly, quarter_exponent()),
        exponents_within(*lz, quarter_exponent()),
        exponents_within(*w, quarter_exponent()),
    ensures
        r.wf(),
        forall|x: Frac, y: Frac|
            frac_valid(x) && frac_valid(y) ==> frac_equiv(
                #[trigger] r.eval_spec(x, y),
                torus_value(
                    lx.eval_spec(x, y),
                    ly.eval_spec(x, y),
                    lz.eval_spec(x, y),
                    w.eval_spec(x, y),
                    big_r.frac(),
                    little_r.frac(),
                ),
            ),
{
    let ghost b = quarter_exponent();
    let lx2 = mul_values(lx, lx, Ghost(b), Ghost(b));
    let ly2 = mul_values(ly, ly, Ghost(b), Ghost(b));
    let lz2 = mul_values(lz, lz, Ghost(b), Ghost(b));
    let w2 = mul_values(w, w, Ghost(b), Ghost(b));
    let sxy = add_values(&lx2, &ly2, Ghost(2 * b));
    let sum_sq = add_values(&sxy, &lz2, Ghost(2 * b));
    let rr = big_r.mul(big_r);
    let ss = little_r.mul(little_r);
    let r_diff = rr.sub(&ss);
    let r_diff_poly = constant_value(&r_diff);
    let rw = mul_values(&r_diff_poly, &w2, Ghost(0), Ghost(2 * b));
    let inner = add_values(&sum_sq, &rw, Ghost(2 * b));
    let inner_sq = mul_values(&inner, &inner, Ghost(2 * b), Ghost(2 * b));
    let four = ExactRational::from_i64(4);
    let four_rr = rr.mul(&four);
    let four_r2 = constant_value(&four_rr);
    let radial2_w2 = mul_values(&sxy, &w2, Ghost(2 * b), Ghost(2 * b));
    let rhs = mul_values(&four_r2, &radial2_w2, Ghost(0), Ghost(4 * b));
    let r = sub_values(&inner_sq, &rhs, Ghost(4 * b));
    proof {
        assert forall|x: Frac, y: Frac| frac_valid(x) && frac_valid(y) implies frac_equiv(
            #[trigger] r.eval_spec(x, y),
            torus_value(
                lx.eval_spec(x, y),
                ly.eval_spec(x, y),
                lz.eval_spec(x, y),
                w.eval_spec(x, y),
                big_r.frac(),
                little_r.frac(),
            ),
        ) by {
            let (vx, vy, vz, vw) = (lx.eval_spec(x, y), ly.eval_spec(x, y), lz.eval_spec(x, y), w.eval_spec(x, y));
            let (bigr, litr) = (big_r.frac(), little_r.frac());
            lemma_eval_valid(*lx, x, y);
            lemma_eval_valid(*ly, x, y);
            lemma_eval_valid(*lz, x, y);
            lemma_eval_valid(*w, x, y);
            lemma_eval_valid(lx2, x, y);
            lemma_eval_valid(ly2, x, y);
            lemma_eval_valid(lz2, x, y);
            lemma_eval_valid(w2, x, y);
            lemma_eval_valid(sxy, x, y);
            lemma_eval_valid(sum_sq, x, y);
            lemma_eval_valid(r_diff_poly, x, y);
            lemma_eval_valid(rw, x, y);
            lemma_eval_valid(inner, x, y);
            lemma_eval_valid(inner_sq, x, y);
            lemma_eval_valid(four_r2, x, y);
            lemma_eval_valid(radial2_w2, x, y);
            lemma_eval_valid(rhs, x, y);
            big_r.lemma_wf();
            little_r.lemma_wf();
            rr.lemma_wf();
            ss.lemma_wf();
            r_diff.lemma_wf();
            four.lemma_wf();
            four_rr.lemma_wf();
            lemma_equiv_refl(vx);
            lemma_equiv_refl(vy);
            lemma_equiv_refl(vz);
            lemma_equiv_refl(vw);
            lemma_equiv_refl(bigr);
            lemma_equiv_refl(litr);
            lemma_equiv_refl(four.frac());
            let ex2 = frac_mul(vx, vx);
            let ey2 = frac_mul(vy, vy);
            let ez2 = frac_mul(vz, vz);
            let ew2 = frac_mul(vw, vw);
            let ediff = frac_sub(frac_mul(bigr, bigr), frac_mul(litr, litr));
            let einner = frac_add(frac_add(frac_add(ex2, ey2), ez2), frac_mul(ediff, ew2));
            let efour = frac_mul(frac_mul(bigr, bigr), frac_of_int(4));
            lemma_mul_chain(lx2.eval_spec(x, y), vx, vx, vx, vx);
            lemma_mul_chain(ly2.eval_spec(x, y), vy, vy, vy, vy);
            lemma_mul_chain(lz2.eval_spec(x, y), vz, vz, vz, vz);
            lemma_mul_chain(w2.eval_spec(x, y), vw, vw, vw, vw);
            lemma_add_chain(sxy.eval_spec(x, y), lx2.eval_spec(x, y), ly2.eval_spec(x, y), ex2, ey2);
            lemma_add_chain(sum_sq.eval_spec(x, y), sxy.eval_spec(x, y), lz2.eval_spec(x, y), frac_add(ex2, ey2), ez2);
            // the constant R^2 - r^2
            lemma_mul_chain(rr.frac(), bigr, bigr, bigr, bigr);
            lemma_mul_chain(ss.frac(), litr, litr, litr, litr);
            lemma_sub_chain(r_diff.frac(), rr.frac(), ss.frac(), frac_mul(bigr, bigr), frac_mul(litr, litr));
            r_diff.lemma_wf();
            lemma_equiv_trans(r_diff_poly.eval_spec(x, y), r_diff.frac(), ediff);
            lemma_mul_chain(rw.eval_spec(x, y), r_diff_poly.eval_spec(x, y), w2.eval_spec(x, y), ediff, ew2);
            lemma_add_chain(inner.eval_spec(x, y), sum_sq.eval_spec(x, y), rw.eval_spec(x, y),
                frac_add(frac_add(ex2, ey2), ez2), frac_mul(ediff, ew2));
            lemma_mul_chain(inner_sq.eval_spec(x, y), inner.eval_spec(x, y), inner.eval_spec(x, y), einner, einner);
            // the constant 4 R^2
            assert(four.frac() == frac_of_int(4));
            lemma_mul_chain(four_rr.frac(), rr.frac(), four.frac(), frac_mul(bigr, bigr), frac_of_int(4));
            lemma_equiv_trans(four_r2.eval_spec(x, y), four_rr.frac(), efour);
            lemma_mul_chain(radial2_w2.eval_spec(x, y), sxy.eval_spec(x, y), w2.eval_spec(x, y), frac_add(ex2, ey2), ew2);
            lemma_mul_chain(rhs.eval_spec(x, y), four_r2.eval_spec(x, y), radial2_w2.eval_spec(x, y), efour,
                frac_mul(frac_add(ex2, ey2), ew2));
            lemma_sub_chain(r.eval_spec(x, y), inner_sq.eval_spec(x, y), rhs.eval_spec(x, y), frac_mul(einner, einner),
                frac_mul(efour, frac_mul(frac_add(ex2, ey2), ew2)));
        }
    }
    r
}

} // verus!
