use knot::cone_torus::{build_cone_torus_poly, validation_keeps_trace};
use knot::cylinder_torus::{build_cylinder_torus_poly, SweptFrame};
use knot::exact::ExactPoint3;
use knot::poly::BiPoly;
use knot::rational::ExactRational;

fn q(v: i64) -> ExactRational {
    ExactRational::from_i64(v)
}

fn ratio(n: u64, d: u64) -> ExactRational {
    ExactRational::from_limbs(false, vec![n], vec![d]).unwrap()
}

/// The exact value of a finite float of moderate size.
fn exact_f64(v: f64) -> ExactRational {
    if v == 0.0 {
        return q(0);
    }
    let bits = v.to_bits();
    let negative = (bits >> 63) == 1;
    let exp = ((bits >> 52) & 0x7ff) as i64 - 1075;
    let mut mantissa = (bits & ((1u64 << 52) - 1)) | (1u64 << 52);
    let mut e = exp;
    while mantissa % 2 == 0 && e < 0 {
        mantissa /= 2;
        e += 1;
    }
    assert!(e > -64 && e < 11, "float out of the range these tests use");
    if e >= 0 {
        ExactRational::from_limbs(negative, vec![mantissa << e], vec![1]).unwrap()
    } else {
        ExactRational::from_limbs(negative, vec![mantissa], vec![1u64 << (-e)]).unwrap()
    }
}

fn limbs_to_f64(limbs: &[u64]) -> f64 {
    let mut r = 0.0;
    for l in limbs.iter().rev() {
        r = r * 18446744073709551616.0 + *l as f64;
    }
    r
}

fn to_f64(e: &ExactRational) -> f64 {
    let n = limbs_to_f64(&e.numerator_limbs());
    let d = limbs_to_f64(&e.denominator_limbs());
    if e.is_negative() {
        -n / d
    } else {
        n / d
    }
}

/// Float evaluation of a polynomial, each coefficient rounded first.
fn eval_f64(p: &BiPoly, x: f64, y: f64) -> f64 {
    let mut r = 0.0;
    for (i, j, c) in p.terms_list() {
        r += to_f64(&c) * x.powi(i as i32) * y.powi(j as i32);
    }
    r
}

fn point(x: ExactRational, y: ExactRational, z: ExactRational) -> ExactPoint3 {
    ExactPoint3::new(x, y, z)
}

/// The frame of an axis along `z` with reference direction `x`, starting at
/// `(0, 0, z0)` in the torus's coordinates (the torus axis is `z` as well,
/// so its frame is a translation).
fn z_axis_frame(z0: ExactRational) -> SweptFrame {
    SweptFrame {
        origin: point(q(0), q(0), z0),
        axis: point(q(0), q(0), q(1)),
        ref_direction: point(q(1), q(0), q(0)),
        binormal: point(q(0), q(1), q(0)),
    }
}

/// `F(s, sqrt(v2))` for a polynomial with only even powers of `v`.
fn eval_at_root(p: &BiPoly, s: &ExactRational, v2: &ExactRational) -> ExactRational {
    let mut total = q(0);
    for (i, j, c) in p.terms_list() {
        assert!(j % 2 == 0, "odd power of v");
        let mut term = c;
        for _ in 0..i {
            term = term.mul(s);
        }
        for _ in 0..(j / 2) {
            term = term.mul(v2);
        }
        total = total.add(&term);
    }
    total
}

fn coaxial_cylinder_torus() -> BiPoly {
    // Cylinder of radius 1.5 coaxial with the torus R = 2, r = 1: the
    // curves are the circles at z = +-sqrt(0.75).
    build_cylinder_torus_poly(&z_axis_frame(q(0)), &ratio(3, 2), &q(2), &q(1))
}

#[test]
fn coaxial_known_intersection_exact_zero() {
    let f = coaxial_cylinder_torus();
    let v_intersect = 0.75_f64.sqrt();
    assert!(eval_f64(&f, 0.0, v_intersect).abs() < 1e-6, "F(0, sqrt 0.75) should be ~0");
    assert!(!f.is_zero(), "F should not be identically zero");
    assert!(f.degree_x() > 0 || f.degree_y() > 0, "F should have positive degree");
    assert!(eval_f64(&f, 0.0, -v_intersect).abs() < 1e-6, "F(0, -sqrt 0.75) should be ~0");
    let non_zero = eval_f64(&f, 0.0, 0.0);
    assert!(non_zero.abs() > 1.0, "F(0, 0) should be far from zero, got {}", non_zero);
}

#[test]
fn coaxial_multiple_theta_values() {
    let f = coaxial_cylinder_torus();
    let v_int = 0.75_f64.sqrt();
    for theta_deg in [0.0f64, 30.0, 45.0, 90.0, 135.0, 180.0, 270.0] {
        let theta = theta_deg * std::f64::consts::PI / 180.0;
        let s = (theta / 2.0).tan();
        if s.abs() > 1e6 {
            continue;
        }
        let val = eval_f64(&f, s, v_int);
        assert!(val.abs() < 1e-3, "F({}, {}) = {} (theta = {})", s, v_int, val, theta_deg);
    }
}

#[test]
fn coaxial_cylinder_torus_vanishes_exactly_on_the_circles() {
    let f = coaxial_cylinder_torus();
    for s in [q(0), q(1), q(-3), ratio(1, 2)] {
        assert!(eval_at_root(&f, &s, &ratio(3, 4)).equals(&q(0)));
    }
    // At s = 0, v = 0 the point (1.5, 0, 0): (2.25 + 3)^2 - 16 * 2.25 = -135/16.
    let at_origin = f.eval(&q(0), &q(0));
    assert!(at_origin.equals(&ExactRational::from_limbs(true, vec![135], vec![16]).unwrap()));
}

#[test]
fn cylinder_torus_degrees() {
    let f = coaxial_cylinder_torus();
    // Each coordinate has degree two in s; the torus equation is quartic.
    assert_eq!(f.degree_x(), 8);
    assert_eq!(f.degree_y(), 4);
}

#[test]
fn offset_cylinder_torus_point_on_both() {
    // Cylinder of radius 1 about the z axis through (2, 0, 0) in the frame of
    // the torus R = 2, r = 1: at theta = 0 (s = 0) and v = 0 the point is
    // (3, 0, 0), on the torus's outer equator.
    let frame = SweptFrame {
        origin: point(q(2), q(0), q(0)),
        axis: point(q(0), q(0), q(1)),
        ref_direction: point(q(1), q(0), q(0)),
        binormal: point(q(0), q(1), q(0)),
    };
    let f = build_cylinder_torus_poly(&frame, &q(1), &q(2), &q(1));
    assert!(f.eval(&q(0), &q(0)).equals(&q(0)));
    // At s = 1 (theta = 90 degrees) the point is (2, 1, v) up to the factor
    // 1 + s^2 = 2, i.e. numerators (4, 2, 2v); at v = 0:
    // (16 + 4 + 3 * 4)^2 - 16 * 20 * 4 = 1024 - 1280 = -256.
    assert!(f.eval(&q(1), &q(0)).equals(&q(-256)));
}

#[test]
fn oracle_exact_zero() {
    // Cone with apex at the origin, axis z, half angle 45 degrees, against
    // the torus R = 2, r = 1 centred at (0, 0, 3): in the torus frame the
    // apex is at (0, 0, -3).
    let half_angle = std::f64::consts::FRAC_PI_4;
    let tan_ha = half_angle.tan();
    let f2 = build_cone_torus_poly(&z_axis_frame(q(-3)), &exact_f64(tan_ha), &q(2), &q(1));
    let mut found_intersection = false;
    for theta_deg in (0..360).step_by(15) {
        let theta = theta_deg as f64 * std::f64::consts::PI / 180.0;
        let s = (theta / 2.0).tan();
        if s.abs() > 100.0 {
            continue;
        }
        for v_i in 0..40 {
            let v = 0.5 + v_i as f64 * 0.1;
            let r = v * tan_ha;
            let (lx, ly, lz) = (r * theta.cos(), r * theta.sin(), v - 3.0);
            let rho2 = lx * lx + ly * ly;
            let sum = rho2 + lz * lz + 4.0 - 1.0;
            let torus_val = sum * sum - 16.0 * rho2;
            if torus_val.abs() < 0.1 {
                let f_val = eval_f64(&f2, s, v);
                assert!(f_val.abs() < 1.0, "F should be near zero when the torus value is: F={}", f_val);
                found_intersection = true;
            }
        }
    }
    assert!(found_intersection, "should find at least one near-intersection point");
}

#[test]
fn coaxial_cone_torus_polynomial() {
    // Cone at the origin, axis z, half angle 45 degrees; torus R = 3, r = 1
    // centred at (0, 0, 2): the apex is at (0, 0, -2) in the torus frame.
    let tan_ha = exact_f64(std::f64::consts::FRAC_PI_4.tan());
    let f = build_cone_torus_poly(&z_axis_frame(q(-2)), &tan_ha, &q(3), &q(1));
    assert!(!f.is_zero());
    assert_eq!(f.degree_y(), 4, "should be quartic in v");
}

#[test]
fn cone_torus_exact_point() {
    // Half angle with tan = 1, apex at (0, 0, -2) in the frame of the torus
    // R = 3, r = 1: at s = 0 the cone point is (v, 0, v - 2); v = 2 gives
    // (2, 0, 0), on the torus's inner equator.
    let f = build_cone_torus_poly(&z_axis_frame(q(-2)), &q(1), &q(3), &q(1));
    assert!(f.eval(&q(0), &q(2)).equals(&q(0)));
    // v = 0 gives the apex (0, 0, -2): (4 + 8)^2 - 0 = 144.
    assert!(f.eval(&q(0), &q(0)).equals(&q(144)));
}

#[test]
fn validation_keeps_one_contiguous_run() {
    assert!(validation_keeps_trace(&vec![false, true, true, true, false]));
    assert!(validation_keeps_trace(&vec![true, true, true]));
    assert!(validation_keeps_trace(&vec![false, false, true, true, true]));
}

#[test]
fn validation_refuses_fragmented_or_short_traces() {
    // Two runs: validation punched a hole.
    assert!(!validation_keeps_trace(&vec![true, true, false, true, true]));
    // Too few survivors.
    assert!(!validation_keeps_trace(&vec![false, true, true, false]));
    assert!(!validation_keeps_trace(&Vec::new()));
}
