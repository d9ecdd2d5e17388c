use knot::nurbs_bridge::{bernstein_power_matrix, bezier_grid_to_patch, binomial_table};
use knot::poly::BiPoly;
use knot::rational::ExactRational;

fn rat(v: i64) -> ExactRational {
    ExactRational::from_i64(v)
}

fn has(p: &BiPoly, i: u32, j: u32, v: i64) -> bool {
    p.coeff(i, j).equals(&rat(v))
}

#[test]
fn constant_and_zero() {
    let z = BiPoly::zero();
    assert!(z.is_zero());
    let c = BiPoly::constant(rat(3));
    assert!(!c.is_zero());
    assert_eq!(c.total_degree(), 0);
}

#[test]
fn add_and_sub() {
    let x = BiPoly::x();
    let y = BiPoly::y();
    let sum = x.add(&y);
    assert_eq!(sum.num_terms(), 2);
    let diff = sum.sub(&x);
    assert_eq!(diff.num_terms(), 1);
    assert!(has(&diff, 0, 1, 1));
}

#[test]
fn multiply() {
    let x = BiPoly::x();
    let y = BiPoly::y();
    let xy = x.mul(&y);
    assert_eq!(xy.total_degree(), 2);
    assert!(has(&xy, 1, 1, 1));

    let xp1 = x.add(&BiPoly::constant(rat(1)));
    let sq = xp1.mul(&xp1);
    assert!(has(&sq, 2, 0, 1));
    assert!(has(&sq, 1, 0, 2));
    assert!(has(&sq, 0, 0, 1));
}

#[test]
fn product_is_zero_only_with_a_zero_factor() {
    let xp1 = BiPoly::x().add(&BiPoly::constant(rat(1)));
    let xm1 = BiPoly::x().sub(&BiPoly::constant(rat(1)));
    assert!(!xp1.mul(&xm1).is_zero());
    assert!(xp1.mul(&BiPoly::zero()).is_zero());
    assert!(BiPoly::zero().mul(&xm1).is_zero());
    // (x + 1)(x - 1) at (3, 0) is 8, the product of the values 4 and 2.
    assert!(xp1.mul(&xm1).eval(&rat(3), &rat(0)).equals(&rat(8)));
}

#[test]
fn derivatives() {
    let p = BiPoly::monomial(2, 1, rat(3))
        .add(&BiPoly::monomial(1, 2, rat(2)))
        .add(&BiPoly::monomial(0, 1, rat(1)));

    let dx = p.diff_x();
    assert!(has(&dx, 1, 1, 6));
    assert!(has(&dx, 0, 2, 2));

    let dy = p.diff_y();
    assert!(has(&dy, 2, 0, 3));
    assert!(has(&dy, 1, 1, 4));
    assert!(has(&dy, 0, 0, 1));
}

#[test]
fn evaluation() {
    let p = BiPoly::monomial(2, 0, rat(1))
        .add(&BiPoly::monomial(0, 2, rat(1)))
        .sub(&BiPoly::constant(rat(1)));

    let v = p.eval(&rat(1), &rat(0));
    assert!(v.equals(&rat(0)));

    let v = p.eval(&rat(0), &rat(0));
    assert!(v.equals(&rat(-1)));
}

#[test]
fn collect_by_y() {
    let p = BiPoly::monomial(2, 2, rat(1))
        .add(&BiPoly::monomial(1, 1, rat(3)))
        .add(&BiPoly::constant(rat(2)));

    let collected = p.collect_y();
    assert_eq!(collected.len(), 3);
}

#[test]
fn collect_by_y_groups() {
    // 5 x^3 y^2 + 7 y^2 - x + 4 x y^5
    let p = BiPoly::monomial(3, 2, rat(5))
        .add(&BiPoly::monomial(0, 2, rat(7)))
        .add(&BiPoly::monomial(1, 0, rat(-1)))
        .add(&BiPoly::monomial(1, 5, rat(4)));
    let groups = p.collect_y();
    let powers: Vec<u32> = groups.iter().map(|g| g.0).collect();
    assert_eq!(powers, vec![0, 2, 5]);
    assert!(has(&groups[0].1, 1, 0, -1));
    assert_eq!(groups[0].1.num_terms(), 1);
    assert!(has(&groups[1].1, 3, 0, 5));
    assert!(has(&groups[1].1, 0, 0, 7));
    assert_eq!(groups[1].1.num_terms(), 2);
    assert!(has(&groups[2].1, 1, 0, 4));
}

#[test]
fn collect_by_y_keeps_the_value() {
    // 5 x^3 y^2 + 7 y^2 - x + 4 x y^5 at (x, y) = (2, -1): 40 + 7 - 2 - 8 = 37.
    let p = BiPoly::monomial(3, 2, rat(5))
        .add(&BiPoly::monomial(0, 2, rat(7)))
        .add(&BiPoly::monomial(1, 0, rat(-1)))
        .add(&BiPoly::monomial(1, 5, rat(4)));
    let (x, y) = (rat(2), rat(-1));
    let mut total = rat(0);
    for (k, a) in p.collect_y() {
        let mut term = a.eval(&x, &rat(0));
        for _ in 0..k {
            term = term.mul(&y);
        }
        total = total.add(&term);
    }
    assert!(total.equals(&p.eval(&x, &y)));
    assert!(total.equals(&rat(37)));
}

#[test]
fn cancellation_removes_terms() {
    let p = BiPoly::x().add(&BiPoly::y());
    let q = p.sub(&p);
    assert!(q.is_zero());
    assert_eq!(q.num_terms(), 0);
    // (x + y)(x - y) = x^2 - y^2: the mixed terms cancel.
    let r = BiPoly::x().add(&BiPoly::y()).mul(&BiPoly::x().sub(&BiPoly::y()));
    assert_eq!(r.num_terms(), 2);
    assert!(has(&r, 2, 0, 1));
    assert!(has(&r, 0, 2, -1));
    assert!(has(&r, 1, 1, 0));
}

#[test]
fn scale_and_degrees() {
    let p = BiPoly::monomial(3, 1, rat(2)).add(&BiPoly::monomial(1, 4, rat(-3)));
    assert_eq!(p.total_degree(), 5);
    assert_eq!(p.degree_x(), 3);
    assert_eq!(p.degree_y(), 4);
    let q = p.scale(&rat(-2));
    assert!(has(&q, 3, 1, -4));
    assert!(has(&q, 1, 4, 6));
    assert!(p.scale(&rat(0)).is_zero());
    assert!(BiPoly::monomial(2, 2, rat(0)).is_zero());
    assert_eq!(BiPoly::zero().degree_x(), 0);
}

#[test]
fn terms_in_order() {
    let p = BiPoly::monomial(1, 0, rat(2))
        .add(&BiPoly::monomial(0, 3, rat(1)))
        .add(&BiPoly::monomial(1, 1, rat(-5)));
    let t = p.terms_list();
    let keys: Vec<(u32, u32)> = t.iter().map(|e| (e.0, e.1)).collect();
    assert_eq!(keys, vec![(0, 3), (1, 0), (1, 1)]);
    assert!(t[2].2.equals(&rat(-5)));
}

#[test]
fn evaluation_at_rationals() {
    // 2 x^2 y - 3 at (1/2, 4): 2 * 1/4 * 4 - 3 = -1
    let p = BiPoly::monomial(2, 1, rat(2)).sub(&BiPoly::constant(rat(3)));
    let half = ExactRational::from_limbs(false, vec![1], vec![2]).unwrap();
    assert!(p.eval(&half, &rat(4)).equals(&rat(-1)));
    assert!(BiPoly::zero().eval(&half, &rat(4)).equals(&rat(0)));
}

#[test]
fn product_evaluates_to_product_of_values() {
    let p = BiPoly::monomial(2, 0, rat(1)).add(&BiPoly::monomial(0, 1, rat(3)));
    let q = BiPoly::monomial(1, 1, rat(-2)).add(&BiPoly::constant(rat(5)));
    let x = rat(2);
    let y = rat(-1);
    let pq = p.mul(&q);
    let lhs = pq.eval(&x, &y);
    let rhs = p.eval(&x, &y).mul(&q.eval(&x, &y));
    assert!(lhs.equals(&rhs));
    // p(2, -1) = 4 - 3 = 1, q(2, -1) = 4 + 5 = 9
    assert!(lhs.equals(&rat(9)));
}

#[test]
fn bernstein_partition_of_unity() {
    for n in [1u32, 2, 3, 4, 5] {
        let m = bernstein_power_matrix(n);
        for j in 0..=n as usize {
            let mut sum = rat(0);
            for i in 0..=n as usize {
                sum = sum.add(&m[i][j]);
            }
            let expected = if j == 0 { rat(1) } else { rat(0) };
            assert!(sum.equals(&expected));
        }
    }
}

#[test]
fn bernstein_at_zero() {
    for n in [1u32, 3, 5] {
        let m = bernstein_power_matrix(n);
        for i in 0..=n as usize {
            let expected = if i == 0 { rat(1) } else { rat(0) };
            assert!(m[i][0].equals(&expected));
        }
    }
}

#[test]
fn bernstein_cubic_entries() {
    // B_1^3(t) = 3 t (1 - t)^2 = 3 t - 6 t^2 + 3 t^3
    let m = bernstein_power_matrix(3);
    assert!(m[1][0].equals(&rat(0)));
    assert!(m[1][1].equals(&rat(3)));
    assert!(m[1][2].equals(&rat(-6)));
    assert!(m[1][3].equals(&rat(3)));
    // B_0^3(t) = (1 - t)^3
    assert!(m[0][3].equals(&rat(-1)));
}

#[test]
fn pascal_triangle() {
    let t = binomial_table(5);
    assert_eq!(t.len(), 6);
    assert!(t[5][2].equals(&rat(10)));
    assert!(t[4][4].equals(&rat(1)));
    assert!(t[3][4].equals(&rat(0)));
    assert!(t[0][0].equals(&rat(1)));
}

#[test]
fn substitution() {
    let p = BiPoly::x().add(&BiPoly::y());
    let two_s = BiPoly::x().scale(&rat(2));
    let q = p.substitute_x(&two_s);
    assert!(has(&q, 1, 0, 2));
    assert!(has(&q, 0, 1, 1));
}

#[test]
fn substitution_of_powers() {
    // x^2 y + 3 with x = (x + y): x^2 y + 2 x y^2 + y^3 + 3
    let p = BiPoly::monomial(2, 1, rat(1)).add(&BiPoly::constant(rat(3)));
    let s = BiPoly::x().add(&BiPoly::y());
    let q = p.substitute_x(&s);
    assert_eq!(q.num_terms(), 4);
    assert!(has(&q, 2, 1, 1));
    assert!(has(&q, 1, 2, 2));
    assert!(has(&q, 0, 3, 1));
    assert!(has(&q, 0, 0, 3));
    // value check: q(2, 1) = p(3, 1) = 9 + 3
    assert!(q.eval(&rat(2), &rat(1)).equals(&rat(12)));
    assert!(p.eval(&rat(3), &rat(1)).equals(&rat(12)));
}

#[test]
fn substitution_in_y() {
    // x + y^2 with y = 1 - x: x + 1 - 2x + x^2 = x^2 - x + 1
    let p = BiPoly::x().add(&BiPoly::monomial(0, 2, rat(1)));
    let s = BiPoly::constant(rat(1)).sub(&BiPoly::x());
    let q = p.substitute_y(&s);
    assert!(has(&q, 2, 0, 1));
    assert!(has(&q, 1, 0, -1));
    assert!(has(&q, 0, 0, 1));
    assert_eq!(q.num_terms(), 3);
    // substituting the zero polynomial keeps only the terms free of y
    let z = p.substitute_y(&BiPoly::zero());
    assert_eq!(z.num_terms(), 1);
    assert!(has(&z, 1, 0, 1));
}

fn ctl(x: i64, y: i64, z: i64, w: ExactRational) -> (ExactRational, ExactRational, ExactRational, ExactRational) {
    (rat(x), rat(y), rat(z), w)
}

#[test]
fn flat_plate_bilinear() {
    // Control points (i, j, 0) with unit weights: X = u, Y = v, Z = 0, W = 1.
    let cps = vec![
        vec![ctl(0, 0, 0, rat(1)), ctl(0, 1, 0, rat(1))],
        vec![ctl(1, 0, 0, rat(1)), ctl(1, 1, 0, rat(1))],
    ];
    let patch = bezier_grid_to_patch(1, 1, &cps);
    assert_eq!(patch.x.num_terms(), 1);
    assert!(has(&patch.x, 1, 0, 1));
    assert_eq!(patch.y.num_terms(), 1);
    assert!(has(&patch.y, 0, 1, 1));
    assert!(patch.z.is_zero());
    assert_eq!(patch.w.num_terms(), 1);
    assert!(has(&patch.w, 0, 0, 1));
    let quarter = ExactRational::from_limbs(false, vec![1], vec![4]).unwrap();
    let third = ExactRational::from_limbs(false, vec![1], vec![3]).unwrap();
    assert!(patch.x.eval(&quarter, &third).equals(&quarter));
    assert!(patch.y.eval(&quarter, &third).equals(&third));
}

#[test]
fn weighted_quadratic_curve() {
    // One row of a degree-2 curve with weights 1, 1/2, 1:
    // W(u) = (1-u)^2 + u(1-u) + u^2 = 1 - u + u^2.
    let half = ExactRational::from_limbs(false, vec![1], vec![2]).unwrap();
    let cps = vec![vec![ctl(2, 0, 0, rat(1))], vec![ctl(2, 2, 0, half)], vec![ctl(0, 2, 0, rat(1))]];
    let patch = bezier_grid_to_patch(2, 0, &cps);
    assert!(has(&patch.w, 0, 0, 1));
    assert!(has(&patch.w, 1, 0, -1));
    assert!(has(&patch.w, 2, 0, 1));
    assert_eq!(patch.w.num_terms(), 3);
    // X(u) = 2 (1-u)^2 + 2 u (1-u) = 2 - 2u
    assert!(has(&patch.x, 0, 0, 2));
    assert!(has(&patch.x, 1, 0, -2));
    assert_eq!(patch.x.num_terms(), 2);
    // a zero weight removes the point entirely
    let cps0 = vec![vec![ctl(5, 5, 5, rat(0))], vec![ctl(1, 1, 1, rat(1))]];
    let p0 = bezier_grid_to_patch(1, 0, &cps0);
    assert!(has(&p0.x, 1, 0, 1));
    assert_eq!(p0.x.num_terms(), 1);
    assert!(has(&p0.w, 1, 0, 1));
}
