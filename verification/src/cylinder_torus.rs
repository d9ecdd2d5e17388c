//! The polynomial whose zero set is the intersection of a cylinder with a
//! torus, in the cylinder's parameters. The angle parameter is replaced by
//! `s = tan(theta / 2)`, so that `cos theta = (1 - s^2) / (1 + s^2)` and
//! `sin theta = 2 s / (1 + s^2)`; every coordinate of the cylinder point is
//! then a polynomial in `(s, v)` divided by `1 + s^2`, and the torus
//! equation is multiplied through by `(1 + s^2)^4`.

use vstd::prelude::*;

use crate::evaluation::{law_eval_monomial, lemma_eval_valid};
use crate::exact::ExactPoint3;
use crate::frac::{
    frac_add, frac_equiv, frac_mul, frac_of_int, frac_pow, frac_sub, frac_valid, lemma_add_chain, lemma_equiv_refl,
    lemma_equiv_trans, lemma_mul_chain, lemma_sub_chain, Frac,
};
use crate::implicit::{
    add_values, constant_value, exponents_within, lemma_torus_value_congruent, lemma_within_mono, mul_values,
    quarter_exponent, scale_values, sub_values, substitute_into_torus, torus_value,
};
use crate::poly::BiPoly;
use crate::rational::ExactRational;

verus! {

/// `1 + s^2`, the common denominator of the rational circle.
pub open spec fn circle_denom(s: Frac) -> Frac {
    frac_add(frac_of_int(1), frac_mul(s, s))
}

/// `1 - s^2`, the numerator of `cos theta`.
pub open spec fn circle_cos_num(s: Frac) -> Frac {
    frac_sub(frac_of_int(1), frac_mul(s, s))
}

/// `2 s`, the numerator of `sin theta`.
pub open spec fn circle_sin_num(s: Frac) -> Frac {
    frac_mul(s, frac_of_int(2))
}

/// The axis frame of a cylinder or a cone in the coordinates of a torus
/// (torus centre at the origin, torus axis along `z`): the point the axis
/// starts from (the apex of a cone), the axis direction, the reference
/// direction of the angle parameter and the binormal `axis x
/// ref_direction`.
pub struct SweptFrame {
    pub origin: ExactPoint3,
    pub axis: ExactPoint3,
    pub ref_direction: ExactPoint3,
    pub binormal: ExactPoint3,
}

impl SweptFrame {
    /// Every coordinate is a well-formed rational.
    pub open spec fn wf(&self) -> bool {
        self.origin.wf() && self.axis.wf() && self.ref_direction.wf() && self.binormal.wf()
    }
}

/// One coordinate of the cylinder point at `(s, v)`, multiplied by
/// `1 + s^2`: `(1 + s^2) o + r (1 - s^2) u + 2 r s w + (1 + s^2) v a`, for
/// that coordinate `o`, `u`, `w`, `a` of the origin, the reference
/// direction, the binormal and the axis.
pub open spec fn cylinder_coord(s: Frac, v: Frac, o: Frac, u: Frac, w: Frac, a: Frac, radius: Frac) -> Frac {
    frac_add(
        frac_add(
            frac_add(frac_mul(circle_denom(s), o), frac_mul(circle_cos_num(s), frac_mul(radius, u))),
            frac_mul(circle_sin_num(s), frac_mul(radius, w)),
        ),
        frac_mul(frac_mul(circle_denom(s), v), a),
    )
}

/// The variable `s`, as a polynomial whose value at `(s, v)` is `s`.
fn variable_s() -> (p: BiPoly)
    ensures
        p.wf(),
        exponents_within(p, 1),
        forall|x: Frac, y: Frac| frac_valid(x) && frac_valid(y) ==> frac_equiv(#[trigger] p.eval_spec(x, y), x),
{
    let p = BiPoly::x();
    proof {
        assert forall|x: Frac, y: Frac| frac_valid(x) && frac_valid(y) implies frac_equiv(#[trigger] p.eval_spec(x, y), x) by {
            law_eval_monomial(p, (1, 0), x, y);
            assert(frac_pow(x, 1) == frac_mul(frac_pow(x, 0), x));
            assert(frac_pow(x, 0) == frac_of_int(1));
            assert(frac_pow(y, 0) == frac_of_int(1));
        }
    }
    p
}

/// The variable `v`, as a polynomial whose value at `(s, v)` is `v`.
pub(crate) fn variable_v() -> (p: BiPoly)
    ensures
        p.wf(),
        exponents_within(p, 1),
        forall|x: Frac, y: Frac| frac_valid(x) && frac_valid(y) ==> frac_equiv(#[trigger] p.eval_spec(x, y), y),
{
    let p = BiPoly::y();
    proof {
        assert forall|x: Frac, y: Frac| frac_valid(x) && frac_valid(y) implies frac_equiv(#[trigger] p.eval_spec(x, y), y) by {
            law_eval_monomial(p, (0, 1), x, y);
            assert(frac_pow(y, 1) == frac_mul(frac_pow(y, 0), y));
            assert(frac_pow(y, 0) == frac_of_int(1));
            assert(frac_pow(x, 0) == frac_of_int(1));
        }
    }
    p
}

/// The values of `1`, `s` and `s^2` at `(x, y)`, taken apart.
proof fn lemma_square_value(one: &BiPoly, s: &BiPoly, s2: &BiPoly, x: Frac, y: Frac)
    requires
        one.wf(),
        s.wf(),
        s2.wf(),
        frac_valid(x),
        frac_valid(y),
        frac_equiv(one.eval_spec(x, y), frac_of_int(1)),
        frac_equiv(s.eval_spec(x, y), x),
        frac_equiv(s2.eval_spec(x, y), frac_mul(s.eval_spec(x, y), s.eval_spec(x, y))),
    ensures
        frac_valid(one.eval_spec(x, y)),
        frac_valid(s2.eval_spec(x, y)),
        frac_equiv(s2.eval_spec(x, y), frac_mul(x, x)),
{
    lemma_eval_valid(*one, x, y);
    lemma_eval_valid(*s, x, y);
    lemma_eval_valid(*s2, x, y);
    lemma_equiv_refl(x);
    lemma_mul_chain(s2.eval_spec(x, y), s.eval_spec(x, y), s.eval_spec(x, y), x, x);
}

/// The polynomials `1 + s^2`, `1 - s^2` and `2 s` of the rational circle.
pub(crate) fn circle_polys() -> (r: (BiPoly, BiPoly, BiPoly))
    ensures
        r.0.wf(),
        r.1.wf(),
        r.2.wf(),
        exponents_within(r.0, 2),
        exponents_within(r.1, 2),
        exponents_within(r.2, 2),
        forall|x: Frac, y: Frac|
            frac_valid(x) && frac_valid(y) ==> frac_equiv(#[trigger] r.0.eval_spec(x, y), circle_denom(x)),
        forall|x: Frac, y: Frac|
            frac_valid(x) && frac_valid(y) ==> frac_equiv(#[trigger] r.1.eval_spec(x, y), circle_cos_num(x)),
        forall|x: Frac, y: Frac|
            frac_valid(x) && frac_valid(y) ==> frac_equiv(#[trigger] r.2.eval_spec(x, y), circle_sin_num(x)),
{
    let one_c = ExactRational::from_i64(1);
    let one = constant_value(&one_c);
    let s = variable_s();
    let s2 = mul_values(&s, &s, Ghost(1), Ghost(1));
    proof {
        lemma_within_mono(one, 0, 2);
    }
    let denom = add_values(&one, &s2, Ghost(2));
    let cos_num = sub_values(&one, &s2, Ghost(2));
    let two = ExactRational::from_i64(2);
    let sin_num = scale_values(&s, &two, Ghost(1));
    proof {
        lemma_within_mono(sin_num, 1, 2);
        assert forall|x: Frac, y: Frac| frac_valid(x) && frac_valid(y) implies frac_equiv(
            #[trigger] denom.eval_spec(x, y),
            circle_denom(x),
        ) by {
            lemma_square_value(&one, &s, &s2, x, y);
            lemma_add_chain(denom.eval_spec(x, y), one.eval_spec(x, y), s2.eval_spec(x, y), frac_of_int(1), frac_mul(x, x));
        }
        assert forall|x: Frac, y: Frac| frac_valid(x) && frac_valid(y) implies frac_equiv(
            #[trigger] cos_num.eval_spec(x, y),
            circle_cos_num(x),
        ) by {
            lemma_square_value(&one, &s, &s2, x, y);
            lemma_sub_chain(cos_num.eval_spec(x, y), one.eval_spec(x, y), s2.eval_spec(x, y), frac_of_int(1), frac_mul(x, x));
        }
        assert forall|x: Frac, y: Frac| frac_valid(x) && frac_valid(y) implies frac_equiv(
            #[trigger] sin_num.eval_spec(x, y),
            circle_sin_num(x),
        ) by {
            lemma_eval_valid(s, x, y);
            lemma_equiv_refl(x);
            two.lemma_wf();
            lemma_equiv_refl(two.frac());
            lemma_mul_chain(sin_num.eval_spec(x, y), s.eval_spec(x, y), two.frac(), x, frac_of_int(2));
        }
    }
    (denom, cos_num, sin_num)
}

/// One coordinate numerator of the cylinder, from that coordinate of the
/// origin, the reference direction, the binormal and the axis.
fn cylinder_coord_num(
    origin: &ExactRational,
    u: &ExactRational,
    w: &ExactRational,
    a: &ExactRational,
    radius: &ExactRational,
    cos_num: &BiPoly,
    sin_num: &BiPoly,
    denom: &BiPoly,
    v: &BiPoly,
) -> (p: BiPoly)
    requires
        origin.wf(),
        u.wf(),
        w.wf(),
        a.wf(),
        radius.wf(),
        cos_num.wf(),
        sin_num.wf(),
        denom.wf(),
        v.wf(),
        exponents_within(*cos_num, 2),
        exponents_within(*sin_num, 2),
        exponents_within(*denom, 2),
        exponents_within(*v, 1),
        forall|x: Frac, y: Frac|
            frac_valid(x) && frac_valid(y) ==> frac_equiv(#[trigger] denom.eval_spec(x, y), circle_denom(x)),
        forall|x: Frac, y: Frac|
            frac_valid(x) && frac_valid(y) ==> frac_equiv(#[trigger] cos_num.eval_spec(x, y), circle_cos_num(x)),
        forall|x: Frac, y: Frac|
            frac_valid(x) && frac_valid(y) ==> frac_equiv(#[trigger] sin_num.eval_spec(x, y), circle_sin_num(x)),
        forall|x: Frac, y: Frac| frac_valid(x) && frac_valid(y) ==> frac_equiv(#[trigger] v.eval_spec(x, y), y),
    ensures
        p.wf(),
        exponents_within(p, 3),
        forall|x: Frac, y: Frac|
            frac_valid(x) && frac_valid(y) ==> frac_equiv(
                #[trigger] p.eval_spec(x, y),
                cylinder_coord(x, y, origin.frac(), u.frac(), w.frac(), a.frac(), radius.frac()),
            ),
{
    let ru = radius.mul(u);
    let rw = radius.mul(w);
    let origin_term = scale_values(denom, origin, Ghost(2));
    let u_term = scale_values(cos_num, &ru, Ghost(2));
    let w_term = scale_values(sin_num, &rw, Ghost(2));
    let dv = mul_values(denom, v, Ghost(2), Ghost(1));
    let a_term = scale_values(&dv, a, Ghost(3));
    proof {
        lemma_within_mono(origin_term, 2, 3);
        lemma_within_mono(u_term, 2, 3);
        lemma_within_mono(w_term, 2, 3);
    }
    let ou = add_values(&origin_term, &u_term, Ghost(3));
    let ouw = add_values(&ou, &w_term, Ghost(3));
    let p = add_values(&ouw, &a_term, Ghost(3));
    proof {
        assert forall|x: Frac, y: Frac| frac_valid(x) && frac_valid(y) implies frac_equiv(
            #[trigger] p.eval_spec(x, y),
            cylinder_coord(x, y, origin.frac(), u.frac(), w.frac(), a.frac(), radius.frac()),
        ) by {
            let (d, c, sn) = (circle_denom(x), circle_cos_num(x), circle_sin_num(x));
            let (o, uf, wf, af, r) = (origin.frac(), u.frac(), w.frac(), a.frac(), radius.frac());
            lemma_eval_valid(*denom, x, y);
            lemma_eval_valid(*cos_num, x, y);
            lemma_eval_valid(*sin_num, x, y);
            lemma_eval_valid(*v, x, y);
            lemma_eval_valid(origin_term, x, y);
            lemma_eval_valid(u_term, x, y);
            lemma_eval_valid(w_term, x, y);
            lemma_eval_valid(dv, x, y);
            lemma_eval_valid(a_term, x, y);
            lemma_eval_valid(ou, x, y);
            lemma_eval_valid(ouw, x, y);
            origin.lemma_wf();
            a.lemma_wf();
            ru.lemma_wf();
            rw.lemma_wf();
            lemma_equiv_refl(o);
            lemma_equiv_refl(af);
            lemma_mul_chain(origin_term.eval_spec(x, y), denom.eval_spec(x, y), o, d, o);
            lemma_mul_chain(u_term.eval_spec(x, y), cos_num.eval_spec(x, y), ru.frac(), c, frac_mul(r, uf));
            lemma_mul_chain(w_term.eval_spec(x, y), sin_num.eval_spec(x, y), rw.frac(), sn, frac_mul(r, wf));
            lemma_mul_chain(dv.eval_spec(x, y), denom.eval_spec(x, y), v.eval_spec(x, y), d, y);
            lemma_mul_chain(a_term.eval_spec(x, y), dv.eval_spec(x, y), af, frac_mul(d, y), af);
            lemma_add_chain(ou.eval_spec(x, y), origin_term.eval_spec(x, y), u_term.eval_spec(x, y), frac_mul(d, o),
                frac_mul(c, frac_mul(r, uf)));
            lemma_add_chain(ouw.eval_spec(x, y), ou.eval_spec(x, y), w_term.eval_spec(x, y),
                frac_add(frac_mul(d, o), frac_mul(c, frac_mul(r, uf))), frac_mul(sn, frac_mul(r, wf)));
            lemma_add_chain(p.eval_spec(x, y), ouw.eval_spec(x, y), a_term.eval_spec(x, y),
                frac_add(frac_add(frac_mul(d, o), frac_mul(c, frac_mul(r, uf))), frac_mul(sn, frac_mul(r, wf))),
                frac_mul(frac_mul(d, y), af));
        }
    }
    p
}

/// The intersection polynomial `F(s, v)` of a cylinder of the given radius,
/// whose axis frame `cyl` is given in the torus's coordinates, with the
/// torus of the given major and minor radii: the torus equation
/// `(x^2 + y^2 + z^2 + R^2 - r^2)^2 - 4 R^2 (x^2 + y^2)` at the cylinder
/// point, multiplied by `(1 + s^2)^4`. The curve is `F(s, v) = 0`.
pub fn build_cylinder_torus_poly(
    cyl: &SweptFrame,
    radius: &ExactRational,
    major_radius: &ExactRational,
    minor_radius: &ExactRational,
) -> (f: BiPoly)
    requires
        cyl.wf(),
        radius.wf(),
        major_radius.wf(),
        minor_radius.wf(),
    ensures
        f.wf(),
        forall|s: Frac, v: Frac|
            frac_valid(s) && frac_valid(v) ==> frac_equiv(
                #[trigger] f.eval_spec(s, v),
                torus_value(
                    cylinder_coord(s, v, cyl.origin.x.frac(), cyl.ref_direction.x.frac(), cyl.binormal.x.frac(),
                        cyl.axis.x.frac(), radius.frac()),
                    cylinder_coord(s, v, cyl.origin.y.frac(), cyl.ref_direction.y.frac(), cyl.binormal.y.frac(),
                        cyl.axis.y.frac(), radius.frac()),
                    cylinder_coord(s, v, cyl.origin.z.frac(), cyl.ref_direction.z.frac(), cyl.binormal.z.frac(),
                        cyl.axis.z.frac(), radius.frac()),
                    circle_denom(s),
                    major_radius.frac(),
                    minor_radius.frac(),
                ),
            ),
{
    let (denom, cos_num, sin_num) = circle_polys();
    let v = variable_v();
    let x_num = cylinder_coord_num(&cyl.origin.x, &cyl.ref_direction.x, &cyl.binormal.x, &cyl.axis.x, radius,
        &cos_num, &sin_num, &denom, &v);
    let y_num = cylinder_coord_num(&cyl.origin.y, &cyl.ref_direction.y, &cyl.binormal.y, &cyl.axis.y, radius,
        &cos_num, &sin_num, &denom, &v);
    let z_num = cylinder_coord_num(&cyl.origin.z, &cyl.ref_direction.z, &cyl.binormal.z, &cyl.axis.z, radius,
        &cos_num, &sin_num, &denom, &v);
    proof {
        lemma_within_mono(x_num, 3, quarter_exponent());
        lemma_within_mono(y_num, 3, quarter_exponent());
        lemma_within_mono(z_num, 3, quarter_exponent());
        lemma_within_mono(denom, 2, quarter_exponent());
    }
    let f = substitute_into_torus(&x_num, &y_num, &z_num, &denom, major_radius, minor_radius);
    proof {
        assert forall|s: Frac, v: Frac| frac_valid(s) && frac_valid(v) implies frac_equiv(
            #[trigger] f.eval_spec(s, v),
            torus_value(
                cylinder_coord(s, v, cyl.origin.x.frac(), cyl.ref_direction.x.frac(), cyl.binormal.x.frac(),
                    cyl.axis.x.frac(), radius.frac()),
                cylinder_coord(s, v, cyl.origin.y.frac(), cyl.ref_direction.y.frac(), cyl.binormal.y.frac(),
                    cyl.axis.y.frac(), radius.frac()),
                cylinder_coord(s, v, cyl.origin.z.frac(), cyl.ref_direction.z.frac(), cyl.binormal.z.frac(),
                    cyl.axis.z.frac(), radius.frac()),
                circle_denom(s),
                major_radius.frac(),
                minor_radius.frac(),
            ),
        ) by {
            lemma_eval_valid(x_num, s, v);
            lemma_eval_valid(y_num, s, v);
            lemma_eval_valid(z_num, s, v);
            lemma_eval_valid(denom, s, v);
            major_radius.lemma_wf();
            minor_radius.lemma_wf();
            lemma_torus_value_congruent(
                x_num.eval_spec(s, v),
                y_num.eval_spec(s, v),
                z_num.eval_spec(s, v),
                denom.eval_spec(s, v),
                cylinder_coord(s, v, cyl.origin.x.frac(), cyl.ref_direction.x.frac(), cyl.binormal.x.frac(),
                    cyl.axis.x.frac(), radius.frac()),
                cylinder_coord(s, v, cyl.origin.y.frac(), cyl.ref_direction.y.frac(), cyl.binormal.y.frac(),
                    cyl.axis.y.frac(), radius.frac()),
                cylinder_coord(s, v, cyl.origin.z.frac(), cyl.ref_direction.z.frac(), cyl.binormal.z.frac(),
                    cyl.axis.z.frac(), radius.frac()),
                circle_denom(s),
                major_radius.frac(),
                minor_radius.frac(),
            );
            lemma_equiv_trans(
                f.eval_spec(s, v),
                torus_value(
                    x_num.eval_spec(s, v),
                    y_num.eval_spec(s, v),
                    z_num.eval_spec(s, v),
                    denom.eval_spec(s, v),
                    major_radius.frac(),
                    minor_radius.frac(),
                ),
                torus_value(
                    cylinder_coord(s, v, cyl.origin.x.frac(), cyl.ref_direction.x.frac(), cyl.binormal.x.frac(),
                        cyl.axis.x.frac(), radius.frac()),
                    cylinder_coord(s, v, cyl.origin.y.frac(), cyl.ref_direction.y.frac(), cyl.binormal.y.frac(),
                        cyl.axis.y.frac(), radius.frac()),
                    cylinder_coord(s, v, cyl.origin.z.frac(), cyl.ref_direction.z.frac(), cyl.binormal.z.frac(),
                        cyl.axis.z.frac(), radius.frac()),
                    circle_denom(s),
                    major_radius.frac(),
                    minor_radius.frac(),
                ),
            );
        }
    }
    f
}

} // verus!
