use knot::exact::{orient2d, orient3d, point_side_of_plane, ExactPoint3, Orientation};
use knot::line::LineSeg;
use knot::rational::ExactRational;
use malachite_q::Rational;
use std::cmp::Ordering;

fn rat(v: i64) -> ExactRational {
    ExactRational::from_i64(v)
}

fn ratio(n: u64, d: u64) -> ExactRational {
    ExactRational::from_limbs(false, vec![n], vec![d]).unwrap()
}

fn pt(x: i64, y: i64, z: i64) -> ExactPoint3 {
    ExactPoint3::new(rat(x), rat(y), rat(z))
}

/// The exact rational value of a finite `f64`, built from its limbs.
fn from_float(v: f64) -> ExactRational {
    let r = Rational::try_from(v).unwrap();
    let negative = v < 0.0;
    ExactRational::from_limbs(
        negative,
        r.numerator_ref().to_limbs_asc(),
        r.denominator_ref().to_limbs_asc(),
    )
    .unwrap()
}

#[test]
fn exact_rational_sign() {
    assert_eq!(rat(1).sign(), Ordering::Greater);
    assert_eq!(rat(-1).sign(), Ordering::Less);
    assert_eq!(rat(0).sign(), Ordering::Equal);
}

#[test]
fn orient3d_positive_side() {
    let a = pt(0, 0, 0);
    let b = pt(1, 0, 0);
    let c = pt(0, 1, 0);
    let d = pt(0, 0, -1);
    assert_eq!(orient3d(&a, &b, &c, &d), Orientation::Positive);
}

#[test]
fn orient3d_negative_side() {
    let a = pt(0, 0, 0);
    let b = pt(1, 0, 0);
    let c = pt(0, 1, 0);
    let d = pt(0, 0, 1);
    assert_eq!(orient3d(&a, &b, &c, &d), Orientation::Negative);
}

#[test]
fn orient3d_coplanar() {
    let a = pt(0, 0, 0);
    let b = pt(1, 0, 0);
    let c = pt(0, 1, 0);
    let d = ExactPoint3::new(ratio(1, 2), ratio(1, 2), rat(0));
    assert_eq!(orient3d(&a, &b, &c, &d), Orientation::Zero);
}

#[test]
fn orient2d_ccw() {
    let a = [rat(0), rat(0)];
    let b = [rat(1), rat(0)];
    let c = [rat(0), rat(1)];
    assert_eq!(orient2d(&a, &b, &c), Orientation::Positive);
}

#[test]
fn orient2d_cw() {
    let a = [rat(0), rat(0)];
    let b = [rat(0), rat(1)];
    let c = [rat(1), rat(0)];
    assert_eq!(orient2d(&a, &b, &c), Orientation::Negative);
}

#[test]
fn orient2d_collinear() {
    let a = [rat(0), rat(0)];
    let b = [rat(1), rat(1)];
    let c = [rat(2), rat(2)];
    assert_eq!(orient2d(&a, &b, &c), Orientation::Zero);
}

#[test]
fn point_side_of_plane_above() {
    let origin = pt(0, 0, 0);
    let normal = pt(0, 0, 1);
    let query = pt(1, 2, 5);
    assert_eq!(point_side_of_plane(&origin, &normal, &query), Orientation::Positive);
}

#[test]
fn point_side_of_plane_below() {
    let origin = pt(0, 0, 0);
    let normal = pt(0, 0, 1);
    let query = pt(1, 2, -3);
    assert_eq!(point_side_of_plane(&origin, &normal, &query), Orientation::Negative);
}

#[test]
fn point_side_of_plane_on() {
    let origin = pt(0, 0, 0);
    let normal = pt(0, 0, 1);
    let query = pt(7, 3, 0);
    assert_eq!(point_side_of_plane(&origin, &normal, &query), Orientation::Zero);
}

#[test]
fn point_side_of_tilted_plane() {
    let origin = pt(1, 1, 1);
    let normal = pt(1, 1, 1);
    let query = pt(2, 2, 2);
    assert_eq!(point_side_of_plane(&origin, &normal, &query), Orientation::Positive);
}

#[test]
fn exact_cross_product() {
    let a = pt(1, 0, 0);
    let b = pt(0, 1, 0);
    let c = a.cross(&b);
    assert!(c.x.equals(&rat(0)));
    assert!(c.y.equals(&rat(0)));
    assert!(c.z.equals(&rat(1)));
}

#[test]
fn exact_dot_product() {
    let a = pt(1, 2, 3);
    let b = pt(4, 5, 6);
    let d = a.dot(&b);
    assert!(d.equals(&rat(32)));
}

#[test]
fn exact_arithmetic_no_cancellation() {
    let a = from_float(1.0);
    let b = from_float(1e-15);
    let c = a.add(&b);
    let d = c.sub(&a);
    assert!(d.equals(&b));
}

#[test]
fn orient2d_swapping_reverses() {
    let a = [rat(0), rat(0)];
    let b = [rat(3), rat(1)];
    let c = [rat(1), rat(4)];
    assert_eq!(orient2d(&a, &b, &c), Orientation::Positive);
    assert_eq!(orient2d(&b, &a, &c), Orientation::Negative);
}

#[test]
fn orient3d_repeated_point_is_coplanar() {
    let a = pt(3, -2, 7);
    let b = pt(1, 5, 0);
    let c = pt(-4, 2, 9);
    assert_eq!(orient3d(&a, &b, &c, &a), Orientation::Zero);
}

#[test]
fn flipped_normal_flips_side() {
    let origin = pt(1, 1, 1);
    let normal = pt(1, 2, 3);
    let flipped = pt(-1, -2, -3);
    let query = pt(4, -1, 2);
    assert_eq!(point_side_of_plane(&origin, &normal, &query), Orientation::Positive);
    assert_eq!(point_side_of_plane(&origin, &flipped, &query), Orientation::Negative);
    assert_eq!(point_side_of_plane(&origin, &normal, &origin), Orientation::Zero);
}

#[test]
fn rational_arithmetic_values() {
    let half = ratio(1, 2);
    let third = ratio(1, 3);
    assert!(half.add(&third).equals(&ratio(5, 6)));
    assert!(half.sub(&third).equals(&ratio(1, 6)));
    assert!(half.mul(&third).equals(&ratio(1, 6)));
    assert!(half.neg().equals(&ExactRational::from_limbs(true, vec![2], vec![4]).unwrap()));
    assert!(half.neg().abs().equals(&half));
    assert!(ratio(2, 4).equals(&half));
    assert!(!half.equals(&third));
}

#[test]
fn rational_from_limbs_edges() {
    assert!(ExactRational::from_limbs(false, vec![1], vec![0]).is_none());
    assert!(ExactRational::from_limbs(false, vec![1], vec![0, 0]).is_none());
    let z = ExactRational::from_limbs(true, vec![0, 0], vec![5, 0]).unwrap();
    assert!(z.is_zero());
    assert!(!z.is_negative());
    assert_eq!(z.numerator_limbs(), Vec::<u64>::new());
    assert_eq!(z.denominator_limbs(), vec![5]);
    let big = ExactRational::from_limbs(false, vec![0, 1], vec![1]).unwrap();
    assert_eq!(big.numerator_limbs(), vec![0, 1]);
    assert_eq!(big.sign(), Ordering::Greater);
    assert!(rat(-7).is_negative());
}

#[test]
fn exact_point_sub() {
    let a = pt(5, 7, 9);
    let b = pt(1, 2, 3);
    let d = a.sub(&b);
    assert!(d.x.equals(&rat(4)));
    assert!(d.y.equals(&rat(5)));
    assert!(d.z.equals(&rat(6)));
}

#[test]
fn line_segment_reverse_and_direction() {
    let s = LineSeg::new((0i64, 1i64, 2i64), (5i64, 5i64, 5i64));
    let r = s.reverse();
    assert_eq!(r.start, (5, 5, 5));
    assert_eq!(r.end, (0, 1, 2));
    assert_eq!(r.reverse().start, s.start);

    let e = LineSeg { start: pt(1, 2, 3), end: pt(4, 0, 3) };
    let d = e.direction();
    assert!(d.x.equals(&rat(3)));
    assert!(d.y.equals(&rat(-2)));
    assert!(d.z.equals(&rat(0)));
}

#[test]
fn exact_segment_reverse_swaps_ends() {
    let s = LineSeg { start: pt(1, 2, 3), end: pt(4, 0, 3) };
    let r = s.reverse();
    assert!(r.start.x.equals(&rat(4)) && r.start.y.equals(&rat(0)) && r.start.z.equals(&rat(3)));
    assert!(r.end.x.equals(&rat(1)) && r.end.y.equals(&rat(2)) && r.end.z.equals(&rat(3)));
    let d = r.direction();
    assert!(d.x.equals(&rat(-3)) && d.y.equals(&rat(2)) && d.z.equals(&rat(0)));
}
