//! The polynomial whose zero set is the intersection of a double cone with
//! a torus, in the cone's parameters: the cone point
//! `apex + v axis + v tan(a) (cos theta ref + sin theta binormal)`, with
//! the same rational circle `s = tan(theta / 2)` as the cylinder, is
//! substituted into the torus equation multiplied through by
//! `(1 + s^2)^4`.

use vstd::prelude::*;

use crate::cylinder_torus::{circle_cos_num, circle_denom, circle_polys, circle_sin_num, variable_v, SweptFrame};
use crate::evaluation::lemma_eval_valid;
use crate::frac::{frac_add, frac_equiv, frac_mul, frac_valid, lemma_add_chain, lemma_equiv_refl, lemma_equiv_trans, lemma_mul_chain, Frac};
use crate::implicit::{
    add_values, exponents_within, lemma_torus_value_congruent, lemma_within_mono, mul_values, quarter_exponent,
    scale_values, substitute_into_torus, torus_value,
};
use crate::poly::BiPoly;
use crate::rational::ExactRational;

verus! {

/// One coordinate of the cone point at `(s, v)`, multiplied by `1 + s^2`:
/// `(1 + s^2) o + (1 + s^2) v a + v t ((1 - s^2) u + 2 s w)`, for that
/// coordinate `o`, `a`, `u`, `w` of the apex, the axis, the reference
/// direction and the binormal, and `t` the tangent of the half angle.
pub open spec fn cone_coord(s: Frac, v: Frac, o: Frac, a: Frac, u: Frac, w: Frac, tan_half_angle: Frac) -> Frac {
    frac_add(
        frac_add(frac_mul(circle_denom(s), o), frac_mul(frac_mul(circle_denom(s), v), a)),
        frac_mul(
            frac_add(
                frac_mul(circle_cos_num(s), frac_mul(tan_half_angle, u)),
                frac_mul(circle_sin_num(s), frac_mul(tan_half_angle, w)),
            ),
            v,
        ),
    )
}

/// One coordinate numerator of the cone.
fn cone_coord_num(
    origin: &ExactRational,
    a: &ExactRational,
    u: &ExactRational,
    w: &ExactRational,
    tan_half_angle: &ExactRational,
    cos_num: &BiPoly,
    sin_num: &BiPoly,
    denom: &BiPoly,
    v: &BiPoly,
) -> (p: BiPoly)
    requires
        origin.wf(),
        a.wf(),
        u.wf(),
        w.wf(),
        tan_half_angle.wf(),
        cos_num.wf(),
        sin_num.wf(),
        denom.wf(),
        v.wf(),
        exponents_within(*cos_num, 2),
        exponents_within(*sin_num, 2),
        exponents_within(*denom, 2),
        exponents_within(*v, 1),
        forall|x: Frac, y: Frac|
            frac_valid(x) && frac_valid(y) ==> frac_equiv(#[trigger] denom.eval_spec(x, y), circle_denom(x)),
        forall|x: Frac, y: Frac|
            frac_valid(x) && frac_valid(y) ==> frac_equiv(#[trigger] cos_num.eval_spec(x, y), circle_cos_num(x)),
        forall|x: Frac, y: Frac|
            frac_valid(x) && frac_valid(y) ==> frac_equiv(#[trigger] sin_num.eval_spec(x, y), circle_sin_num(x)),
        forall|x: Frac, y: Frac| frac_valid(x) && frac_valid(y) ==> frac_equiv(#[trigger] v.eval_spec(x, y), y),
    ensures
        p.wf(),
        exponents_within(p, 3),
        forall|x: Frac, y: Frac|
            frac_valid(x) && frac_valid(y) ==> frac_equiv(
                #[trigger] p.eval_spec(x, y),
                cone_coord(x, y, origin.frac(), a.frac(), u.frac(), w.frac(), tan_half_angle.frac()),
            ),
{
    let tu = tan_half_angle.mul(u);
    let tw = tan_half_angle.mul(w);
    let origin_term = scale_values(denom, origin, Ghost(2));
    let dv = mul_values(denom, v, Ghost(2), Ghost(1));
    let axis_term = scale_values(&dv, a, Ghost(3));
    let u_term = scale_values(cos_num, &tu, Ghost(2));
    let w_term = scale_values(sin_num, &tw, Ghost(2));
    let uw = add_values(&u_term, &w_term, Ghost(2));
    let radial = mul_values(&uw, v, Ghost(2), Ghost(1));
    proof {
        lemma_within_mono(origin_term, 2, 3);
    }
    let oa = add_values(&origin_term, &axis_term, Ghost(3));
    let p = add_values(&oa, &radial, Ghost(3));
    proof {
        assert forall|x: Frac, y: Frac| frac_valid(x) && frac_valid(y) implies frac_equiv(
            #[trigger] p.eval_spec(x, y),
            cone_coord(x, y, origin.frac(), a.frac(), u.frac(), w.frac(), tan_half_angle.frac()),
        ) by {
            let (d, c, sn) = (circle_denom(x), circle_cos_num(x), circle_sin_num(x));
            let (o, af, uf, wf, t) = (origin.frac(), a.frac(), u.frac(), w.frac(), tan_half_angle.frac());
            lemma_eval_valid(*denom, x, y);
            lemma_eval_valid(*cos_num, x, y);
            lemma_eval_valid(*sin_num, x, y);
            lemma_eval_valid(*v, x, y);
            lemma_eval_valid(origin_term, x, y);
            lemma_eval_valid(dv, x, y);
            lemma_eval_valid(axis_term, x, y);
            lemma_eval_valid(u_term, x, y);
            lemma_eval_valid(w_term, x, y);
            lemma_eval_valid(uw, x, y);
            lemma_eval_valid(radial, x, y);
            lemma_eval_valid(oa, x, y);
            origin.lemma_wf();
            a.lemma_wf();
            tu.lemma_wf();
            tw.lemma_wf();
            lemma_equiv_refl(o);
            lemma_equiv_refl(af);
            lemma_mul_chain(origin_term.eval_spec(x, y), denom.eval_spec(x, y), o, d, o);
            lemma_mul_chain(dv.eval_spec(x, y), denom.eval_spec(x, y), v.eval_spec(x, y), d, y);
            lemma_mul_chain(axis_term.eval_spec(x, y), dv.eval_spec(x, y), af, frac_mul(d, y), af);
            lemma_mul_chain(u_term.eval_spec(x, y), cos_num.eval_spec(x, y), tu.frac(), c, frac_mul(t, uf));
            lemma_mul_chain(w_term.eval_spec(x, y), sin_num.eval_spec(x, y), tw.frac(), sn, frac_mul(t, wf));
            lemma_add_chain(uw.eval_spec(x, y), u_term.eval_spec(x, y), w_term.eval_spec(x, y), frac_mul(c, frac_mul(t, uf)),
                frac_mul(sn, frac_mul(t, wf)));
            lemma_mul_chain(radial.eval_spec(x, y), uw.eval_spec(x, y), v.eval_spec(x, y),
                frac_add(frac_mul(c, frac_mul(t, uf)), frac_mul(sn, frac_mul(t, wf))), y);
            lemma_add_chain(oa.eval_spec(x, y), origin_term.eval_spec(x, y), axis_term.eval_spec(x, y), frac_mul(d, o),
                frac_mul(frac_mul(d, y), af));
            lemma_add_chain(p.eval_spec(x, y), oa.eval_spec(x, y), radial.eval_spec(x, y),
                frac_add(frac_mul(d, o), frac_mul(frac_mul(d, y), af)),
                frac_mul(frac_add(frac_mul(c, frac_mul(t, uf)), frac_mul(sn, frac_mul(t, wf))), y));
        }
    }
    p
}

/// The intersection polynomial `F(s, v)` of a double cone with the given
/// tangent of its half angle, whose axis frame `cone` (with the apex as its
/// origin) is given in the torus's coordinates, with the torus of the given
/// major and minor radii: the torus equation at the cone point, multiplied
/// by `(1 + s^2)^4`. The curve is `F(s, v) = 0`.
pub fn build_cone_torus_poly(
    cone: &SweptFrame,
    tan_half_angle: &ExactRational,
    major_radius: &ExactRational,
    minor_radius: &ExactRational,
) -> (f: BiPoly)
    requires
        cone.wf(),
        tan_half_angle.wf(),
        major_radius.wf(),
        minor_radius.wf(),
    ensures
        f.wf(),
        forall|s: Frac, v: Frac|
            frac_valid(s) && frac_valid(v) ==> frac_equiv(
                #[trigger] f.eval_spec(s, v),
                torus_value(
                    cone_coord(s, v, cone.origin.x.frac(), cone.axis.x.frac(), cone.ref_direction.x.frac(),
                        cone.binormal.x.frac(), tan_half_angle.frac()),
                    cone_coord(s, v, cone.origin.y.frac(), cone.axis.y.frac(), cone.ref_direction.y.frac(),
                        cone.binormal.y.frac(), tan_half_angle.frac()),
                    cone_coord(s, v, cone.origin.z.frac(), cone.axis.z.frac(), cone.ref_direction.z.frac(),
                        cone.binormal.z.frac(), tan_half_angle.frac()),
                    circle_denom(s),
                    major_radius.frac(),
                    minor_radius.frac(),
                ),
            ),
{
    let (denom, cos_num, sin_num) = circle_polys();
    let v = variable_v();
    let x_num = cone_coord_num(&cone.origin.x, &cone.axis.x, &cone.ref_direction.x, &cone.binormal.x, tan_half_angle,
        &cos_num, &sin_num, &denom, &v);
    let y_num = cone_coord_num(&cone.origin.y, &cone.axis.y, &cone.ref_direction.y, &cone.binormal.y, tan_half_angle,
        &cos_num, &sin_num, &denom, &v);
    let z_num = cone_coord_num(&cone.origin.z, &cone.axis.z, &cone.ref_direction.z, &cone.binormal.z, tan_half_angle,
        &cos_num, &sin_num, &denom, &v);
    proof {
        lemma_within_mono(x_num, 3, quarter_exponent());
        lemma_within_mono(y_num, 3, quarter_exponent());
        lemma_within_mono(z_num, 3, quarter_exponent());
        lemma_within_mono(denom, 2, quarter_exponent());
    }
    let f = substitute_into_torus(&x_num, &y_num, &z_num, &denom, major_radius, minor_radius);
    proof {
        assert forall|s: Frac, v: Frac| frac_valid(s) && frac_valid(v) implies frac_equiv(
            #[trigger] f.eval_spec(s, v),
            torus_value(
                cone_coord(s, v, cone.origin.x.frac(), cone.axis.x.frac(), cone.ref_direction.x.frac(),
                    cone.binormal.x.frac(), tan_half_angle.frac()),
                cone_coord(s, v, cone.origin.y.frac(), cone.axis.y.frac(), cone.ref_direction.y.frac(),
                    cone.binormal.y.frac(), tan_half_angle.frac()),
                cone_coord(s, v, cone.origin.z.frac(), cone.axis.z.frac(), cone.ref_direction.z.frac(),
                    cone.binormal.z.frac(), tan_half_angle.frac()),
                circle_denom(s),
                major_radius.frac(),
                minor_radius.frac(),
            ),
        ) by {
            let cx = cone_coord(s, v, cone.origin.x.frac(), cone.axis.x.frac(), cone.ref_direction.x.frac(),
                cone.binormal.x.frac(), tan_half_angle.frac());
            let cy = cone_coord(s, v, cone.origin.y.frac(), cone.axis.y.frac(), cone.ref_direction.y.frac(),
                cone.binormal.y.frac(), tan_half_angle.frac());
            let cz = cone_coord(s, v, cone.origin.z.frac(), cone.axis.z.frac(), cone.ref_direction.z.frac(),
                cone.binormal.z.frac(), tan_half_angle.frac());
            lemma_eval_valid(x_num, s, v);
            lemma_eval_valid(y_num, s, v);
            lemma_eval_valid(z_num, s, v);
            lemma_eval_valid(denom, s, v);
            major_radius.lemma_wf();
            minor_radius.lemma_wf();
            lemma_torus_value_congruent(x_num.eval_spec(s, v), y_num.eval_spec(s, v), z_num.eval_spec(s, v),
                denom.eval_spec(s, v), cx, cy, cz, circle_denom(s), major_radius.frac(), minor_radius.frac());
            lemma_equiv_trans(
                f.eval_spec(s, v),
                torus_value(x_num.eval_spec(s, v), y_num.eval_spec(s, v), z_num.eval_spec(s, v), denom.eval_spec(s, v),
                    major_radius.frac(), minor_radius.frac()),
                torus_value(cx, cy, cz, circle_denom(s), major_radius.frac(), minor_radius.frac()),
            );
        }
    }
    f
}

/// The flag before position `i` of `s`: `false` before the first one.
pub open spec fn flag_before(s: Seq<bool>, i: int) -> bool {
    if i == 0 {
        false
    } else {
        s[i - 1]
    }
}

/// How many times the flags change along `s`, starting from `false`.
pub open spec fn flag_transitions(s: Seq<bool>) -> nat
    decreases s.len(),
{
    if s.len() == 0 {
        0
    } else {
        flag_transitions(s.drop_last()) + if s.last() != flag_before(s, s.len() - 1) {
            1nat
        } else {
            0nat
        }
    }
}

/// How many flags of `s` are set.
pub open spec fn kept_count(s: Seq<bool>) -> nat
    decreases s.len(),
{
    if s.len() == 0 {
        0
    } else {
        kept_count(s.drop_last()) + if s.last() {
            1nat
        } else {
            0nat
        }
    }
}

/// The set flags of `s` are exactly the positions `lo .. hi`.
pub open spec fn is_run(s: Seq<bool>, lo: int, hi: int) -> bool {
    &&& 0 <= lo <= hi <= s.len()
    &&& forall|k: int| 0 <= k < s.len() ==> s[k] == (lo <= k < hi)
}

/// The set flags of `s` form one contiguous run (possibly empty).
pub open spec fn single_run(s: Seq<bool>) -> bool {
    exists|lo: int, hi: int| is_run(s, lo, hi)
}

/// A run of `s` is a run of `s` without its last flag, cut at its end.
proof fn lemma_run_drop_last(s: Seq<bool>, lo: int, hi: int)
    requires
        s.len() > 0,
        is_run(s, lo, hi),
    ensures
        is_run(
            s.drop_last(),
            if lo < s.len() - 1 { lo } else { s.len() - 1 },
            if hi < s.len() - 1 { hi } else { s.len() - 1 },
        ),
{
}

/// The flags change an odd number of times exactly when the last one is
/// set; they never change exactly when none is set; and they change at
/// most twice exactly when the set flags form one run.
pub proof fn law_transitions_single_run(s: Seq<bool>)
    ensures
        s.len() > 0 ==> (flag_transitions(s) % 2 == 1 <==> s.last()),
        flag_transitions(s) == 0 <==> forall|k: int| 0 <= k < s.len() ==> !s[k],
        flag_transitions(s) <= 2 <==> single_run(s),
    decreases s.len(),
{
    if s.len() == 0 {
        assert(is_run(s, 0, 0));
    } else {
        let t = s.drop_last();
        let n = s.len() - 1;
        let b = s.last();
        let prev = flag_before(s, n);
        law_transitions_single_run(t);
        assert(forall|k: int| 0 <= k < t.len() ==> t[k] == s[k]);
        assert(n > 0 ==> prev == t.last());
        if flag_transitions(s) == 0 {
            assert forall|k: int| 0 <= k < s.len() implies !s[k] by {
                if k < n {
                    assert(!t[k]);
                }
            }
        }
        if forall|k: int| 0 <= k < s.len() ==> !s[k] {
            assert(forall|k: int| 0 <= k < t.len() ==> !t[k]);
            assert(!b);
            if n > 0 {
                assert(!t[n - 1]);
            }
        }
        // a run of s gives a run of t
        if single_run(s) {
            let (lo, hi) = choose|lo: int, hi: int| is_run(s, lo, hi);
            lemma_run_drop_last(s, lo, hi);
            assert(single_run(t));
        }
        if b == prev && !b {
            if single_run(t) {
                let (lo, hi) = choose|lo: int, hi: int| is_run(t, lo, hi);
                assert(is_run(s, lo, hi));
            }
        } else if b == prev && b {
            if single_run(t) {
                let (lo, hi) = choose|lo: int, hi: int| is_run(t, lo, hi);
                assert(t[n - 1]);
                assert(is_run(s, lo, n + 1));
            }
        } else if b && !prev {
            if single_run(s) {
                let (lo, hi) = choose|lo: int, hi: int| is_run(s, lo, hi);
                assert(s[n]);
                if lo < n {
                    assert(s[n - 1]);
                }
                assert forall|k: int| 0 <= k < t.len() implies !t[k] by {
                    assert(!s[k]);
                }
            }
            if forall|k: int| 0 <= k < t.len() ==> !t[k] {
                assert(is_run(s, n, n + 1));
            }
        } else {
            // the last flag is clear and the one before is set
            if single_run(t) {
                let (lo, hi) = choose|lo: int, hi: int| is_run(t, lo, hi);
                assert(t[n - 1]);
                assert(is_run(s, lo, hi));
            }
        }
    }
}

/// Whether a trace survives the check of its points against both surfaces,
/// given which points passed: at least three of them did, and those form
/// one contiguous run.
pub fn validation_keeps_trace(keep: &Vec<bool>) -> (kept: bool)
    ensures
        kept == (kept_count(keep@) >= 3 && single_run(keep@)),
{
    let mut surviving: usize = 0;
    let mut transitions: usize = 0;
    let mut prev_kept = false;
    let mut i: usize = 0;
    while i < keep.len()
        invariant
            i <= keep.len(),
            surviving <= i,
            transitions <= i,
            surviving == kept_count(keep@.take(i as int)),
            transitions == flag_transitions(keep@.take(i as int)),
            prev_kept == flag_before(keep@, i as int),
        decreases keep.len() - i,
    {
        proof {
            let u = keep@.take(i as int + 1);
            assert(u.drop_last() =~= keep@.take(i as int));
            assert(flag_before(u, i as int) == flag_before(keep@, i as int));
        }
        if keep[i] {
            surviving = surviving + 1;
        }
        if keep[i] != prev_kept {
            transitions = transitions + 1;
            prev_kept = keep[i];
        }
        i = i + 1;
    }
    proof {
        assert(keep@.take(i as int) =~= keep@);
        law_transitions_single_run(keep@);
    }
    surviving >= 3 && transitions <= 2
}

} // verus!
