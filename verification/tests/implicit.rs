use knot::implicit::{
    combine, substitute_into_cone, substitute_into_cylinder, substitute_into_plane, substitute_into_sphere,
    substitute_into_torus, HomogeneousSurface,
};
use knot::poly::BiPoly;
use knot::rational::ExactRational;

fn q(v: i64) -> ExactRational {
    ExactRational::from_i64(v)
}

fn half() -> ExactRational {
    ExactRational::from_limbs(false, vec![1], vec![2]).unwrap()
}

/// Constant polynomials for a single point, with `W = 1`.
fn point_surface(x: i64, y: i64, z: i64) -> (BiPoly, BiPoly, BiPoly, BiPoly) {
    (BiPoly::constant(q(x)), BiPoly::constant(q(y)), BiPoly::constant(q(z)), BiPoly::constant(q(1)))
}

fn value(g: &BiPoly) -> ExactRational {
    g.eval(&q(0), &q(0))
}

#[test]
fn plane_implicit_correct() {
    let (x, y, z, w) = point_surface(1, 2, 0);
    let s = HomogeneousSurface { x: &x, y: &y, z: &z, w: &w };
    let g = substitute_into_plane(&s, &q(0), &q(0), &q(1), &q(0));
    assert!(value(&g).equals(&q(0)));
    let (x, y, z, w) = point_surface(1, 2, 3);
    let s = HomogeneousSurface { x: &x, y: &y, z: &z, w: &w };
    let g = substitute_into_plane(&s, &q(0), &q(0), &q(1), &q(0));
    assert!(value(&g).equals(&q(3)));
}

#[test]
fn local_frame_offset_origin() {
    // Plane through (0, 0, 10) with normal +z: n . o = 10.
    let (x, y, z, w) = point_surface(5, 5, 10);
    let s = HomogeneousSurface { x: &x, y: &y, z: &z, w: &w };
    let g = substitute_into_plane(&s, &q(0), &q(0), &q(1), &q(10));
    assert!(value(&g).equals(&q(0)));
    let (x, y, z, w) = point_surface(5, 5, 12);
    let s = HomogeneousSurface { x: &x, y: &y, z: &z, w: &w };
    let g = substitute_into_plane(&s, &q(0), &q(0), &q(1), &q(10));
    assert!(value(&g).equals(&q(2)));
}

#[test]
fn sphere_implicit_correct() {
    let (x, y, z, w) = point_surface(3, 4, 0);
    let s = HomogeneousSurface { x: &x, y: &y, z: &z, w: &w };
    let g = substitute_into_sphere(&s, &q(0), &q(0), &q(0), &q(25));
    assert!(value(&g).equals(&q(0)));
    let (x, y, z, w) = point_surface(1, 0, 0);
    let s = HomogeneousSurface { x: &x, y: &y, z: &z, w: &w };
    let g = substitute_into_sphere(&s, &q(0), &q(0), &q(0), &q(25));
    assert!(value(&g).equals(&q(-24)));
}

#[test]
fn cylinder_implicit_correct() {
    // Axis +z through the origin, reference direction +x, radius 3.
    let (x, y, z, w) = point_surface(3, 0, 5);
    let s = HomogeneousSurface { x: &x, y: &y, z: &z, w: &w };
    let lx = combine(&s, &q(1), &q(0), &q(0), &q(0));
    let ly = combine(&s, &q(0), &q(1), &q(0), &q(0));
    let g = substitute_into_cylinder(&lx, &ly, &w, &q(9));
    assert!(value(&g).equals(&q(0)));
    let (x, y, z, w) = point_surface(1, 0, 0);
    let s = HomogeneousSurface { x: &x, y: &y, z: &z, w: &w };
    let lx = combine(&s, &q(1), &q(0), &q(0), &q(0));
    let ly = combine(&s, &q(0), &q(1), &q(0), &q(0));
    let g = substitute_into_cylinder(&lx, &ly, &w, &q(9));
    assert!(value(&g).equals(&q(-8)));
}

#[test]
fn cone_implicit_correct() {
    // 45 degree cone about +z: cos^2 = sin^2 = 1/2.
    let (x, y, z, w) = point_surface(3, 4, 5);
    let s = HomogeneousSurface { x: &x, y: &y, z: &z, w: &w };
    let lx = combine(&s, &q(1), &q(0), &q(0), &q(0));
    let ly = combine(&s, &q(0), &q(1), &q(0), &q(0));
    let lz = combine(&s, &q(0), &q(0), &q(1), &q(0));
    let g = substitute_into_cone(&lx, &ly, &lz, &half(), &half());
    assert!(value(&g).equals(&q(0)));
    let (x, y, z, w) = point_surface(1, 0, 5);
    let s = HomogeneousSurface { x: &x, y: &y, z: &z, w: &w };
    let lx = combine(&s, &q(1), &q(0), &q(0), &q(0));
    let ly = combine(&s, &q(0), &q(1), &q(0), &q(0));
    let lz = combine(&s, &q(0), &q(0), &q(1), &q(0));
    let g = substitute_into_cone(&lx, &ly, &lz, &half(), &half());
    assert!(value(&g).equals(&q(-12)));
}

#[test]
fn torus_implicit_correct() {
    let (x, y, z, w) = point_surface(4, 0, 0);
    let g = substitute_into_torus(&x, &y, &z, &w, &q(3), &q(1));
    assert!(value(&g).equals(&q(0)));
    let (x, y, z, w) = point_surface(3, 0, 0);
    let g = substitute_into_torus(&x, &y, &z, &w, &q(3), &q(1));
    assert!(value(&g).equals(&q(-35)));
}

#[test]
fn combine_with_offset_origin() {
    // u = (0, 1, 0) relative to an origin with u . o = 7: Y - 7 W, at a
    // surface X = x, Y = 2y + 1, Z = 0, W = 1 evaluated at (3, 5): 11 - 7.
    let x = BiPoly::x();
    let y = BiPoly::monomial(0, 1, q(2)).add(&BiPoly::constant(q(1)));
    let z = BiPoly::zero();
    let w = BiPoly::constant(q(1));
    let s = HomogeneousSurface { x: &x, y: &y, z: &z, w: &w };
    let g = combine(&s, &q(0), &q(1), &q(0), &q(7));
    assert!(g.eval(&q(3), &q(5)).equals(&q(4)));
    assert_eq!(g.num_terms(), 2);
}

#[test]
fn sphere_of_a_moving_point() {
    // X = x, Y = y, Z = 0, W = 1 on the unit circle: x^2 + y^2 - 1.
    let x = BiPoly::x();
    let y = BiPoly::y();
    let z = BiPoly::zero();
    let w = BiPoly::constant(q(1));
    let s = HomogeneousSurface { x: &x, y: &y, z: &z, w: &w };
    let g = substitute_into_sphere(&s, &q(0), &q(0), &q(0), &q(1));
    assert_eq!(g.num_terms(), 3);
    assert!(g.coeff(2, 0).equals(&q(1)));
    assert!(g.coeff(0, 2).equals(&q(1)));
    assert!(g.coeff(0, 0).equals(&q(-1)));
}
