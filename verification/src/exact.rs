//! Exact orientation predicates on rational points.

use std::cmp::Ordering;
use vstd::prelude::*;

use crate::frac::{
    frac_add, frac_equiv, frac_mul, frac_neg, frac_sign, frac_sub, frac_valid, lemma_add_chain,
    lemma_equiv_refl, lemma_equiv_sign, lemma_mul_chain, lemma_ops_valid, lemma_sub_chain, Frac,
};
use crate::rational::ExactRational;

verus! {

/// Result of an orientation predicate.
#[derive(Clone, Copy, Debug, PartialEq, Eq, Structural)]
pub enum Orientation {
    Positive,
    Zero,
    Negative,
}

/// The orientation named by a sign -1, 0 or 1.
pub open spec fn orientation_of_sign(s: int) -> Orientation {
    if s > 0 {
        Orientation::Positive
    } else if s < 0 {
        Orientation::Negative
    } else {
        Orientation::Zero
    }
}

/// A point with rational coordinates, in the specification world.
pub struct FracPoint {
    pub x: Frac,
    pub y: Frac,
    pub z: Frac,
}

/// Every coordinate has a positive denominator.
pub open spec fn frac_point_valid(p: FracPoint) -> bool {
    frac_valid(p.x) && frac_valid(p.y) && frac_valid(p.z)
}

/// The vector `p - q`.
pub open spec fn point_sub_spec(p: FracPoint, q: FracPoint) -> FracPoint {
    FracPoint { x: frac_sub(p.x, q.x), y: frac_sub(p.y, q.y), z: frac_sub(p.z, q.z) }
}

/// The dot product `p . q`.
pub open spec fn point_dot_spec(p: FracPoint, q: FracPoint) -> Frac {
    frac_add(frac_add(frac_mul(p.x, q.x), frac_mul(p.y, q.y)), frac_mul(p.z, q.z))
}

/// The cross product `p x q`.
pub open spec fn point_cross_spec(p: FracPoint, q: FracPoint) -> FracPoint {
    FracPoint {
        x: frac_sub(frac_mul(p.y, q.z), frac_mul(p.z, q.y)),
        y: frac_sub(frac_mul(p.z, q.x), frac_mul(p.x, q.z)),
        z: frac_sub(frac_mul(p.x, q.y), frac_mul(p.y, q.x)),
    }
}

/// Coordinate-wise equivalence of two rational points.
pub open spec fn point_equiv(p: FracPoint, q: FracPoint) -> bool {
    frac_equiv(p.x, q.x) && frac_equiv(p.y, q.y) && frac_equiv(p.z, q.z)
}

/// The determinant of the rows `a - d`, `b - d`, `c - d`, expanded along
/// the first column as the orientation test computes it.
pub open spec fn orient3d_det(a: FracPoint, b: FracPoint, c: FracPoint, d: FracPoint) -> Frac {
    let u = point_sub_spec(a, d);
    let v = point_sub_spec(b, d);
    let w = point_sub_spec(c, d);
    frac_add(
        frac_sub(
            frac_mul(u.x, frac_sub(frac_mul(v.y, w.z), frac_mul(v.z, w.y))),
            frac_mul(u.y, frac_sub(frac_mul(v.x, w.z), frac_mul(v.z, w.x))),
        ),
        frac_mul(u.z, frac_sub(frac_mul(v.x, w.y), frac_mul(v.y, w.x))),
    )
}

/// `(a0 - c0) (b1 - c1) - (a1 - c1) (b0 - c0)`.
pub open spec fn orient2d_det(a0: Frac, a1: Frac, b0: Frac, b1: Frac, c0: Frac, c1: Frac) -> Frac {
    frac_sub(
        frac_mul(frac_sub(a0, c0), frac_sub(b1, c1)),
        frac_mul(frac_sub(a1, c1), frac_sub(b0, c0)),
    )
}

/// Exact 3D point for predicate evaluation.
pub struct ExactPoint3 {
    pub x: ExactRational,
    pub y: ExactRational,
    pub z: ExactRational,
}

impl ExactPoint3 {
    /// Every coordinate is a well-formed rational.
    pub open spec fn wf(&self) -> bool {
        self.x.wf() && self.y.wf() && self.z.wf()
    }

    /// The point as three fractions.
    pub open spec fn view(&self) -> FracPoint {
        FracPoint { x: self.x.frac(), y: self.y.frac(), z: self.z.frac() }
    }

    /// The point with the given coordinates.
    pub fn new(x: ExactRational, y: ExactRational, z: ExactRational) -> (p: ExactPoint3)
        ensures
            p.x == x,
            p.y == y,
            p.z == z,
    {
        ExactPoint3 { x, y, z }
    }

    /// A copy of the point, with the same coordinates.
    pub fn copy(&self) -> (p: ExactPoint3)
        ensures
            p.wf() == self.wf(),
            p.view() == self.view(),
    {
        ExactPoint3 { x: self.x.copy(), y: self.y.copy(), z: self.z.copy() }
    }

    /// Exact dot product with a vector.
    pub fn dot(&self, other: &ExactPoint3) -> (r: ExactRational)
        requires
            self.wf(),
            other.wf(),
        ensures
            r.wf(),
            frac_equiv(r.frac(), point_dot_spec(self.view(), other.view())),
    {
        let xx = self.x.mul(&other.x);
        let yy = self.y.mul(&other.y);
        let zz = self.z.mul(&other.z);
        let s = xx.add(&yy);
        let r = s.add(&zz);
        proof {
            let (p, q) = (self.view(), other.view());
            self.x.lemma_wf();
            self.y.lemma_wf();
            self.z.lemma_wf();
            other.x.lemma_wf();
            other.y.lemma_wf();
            other.z.lemma_wf();
            xx.lemma_wf();
            yy.lemma_wf();
            zz.lemma_wf();
            s.lemma_wf();
            lemma_add_chain(
                s.frac(),
                xx.frac(),
                yy.frac(),
                frac_mul(p.x, q.x),
                frac_mul(p.y, q.y),
            );
            lemma_add_chain(
                r.frac(),
                s.frac(),
                zz.frac(),
                frac_add(frac_mul(p.x, q.x), frac_mul(p.y, q.y)),
                frac_mul(p.z, q.z),
            );
        }
        r
    }

    /// Exact subtraction (self - other).
    pub fn sub(&self, other: &ExactPoint3) -> (r: ExactPoint3)
        requires
            self.wf(),
            other.wf(),
        ensures
            r.wf(),
            point_equiv(r.view(), point_sub_spec(self.view(), other.view())),
    {
        ExactPoint3 { x: self.x.sub(&other.x), y: self.y.sub(&other.y), z: self.z.sub(&other.z) }
    }

    /// Exact cross product.
    pub fn cross(&self, other: &ExactPoint3) -> (r: ExactPoint3)
        requires
            self.wf(),
            other.wf(),
        ensures
            r.wf(),
            point_equiv(r.view(), point_cross_spec(self.view(), other.view())),
    {
        proof {
            self.x.lemma_wf();
            self.y.lemma_wf();
            self.z.lemma_wf();
            other.x.lemma_wf();
            other.y.lemma_wf();
            other.z.lemma_wf();
        }
        let x = mul_sub_mul(&self.y, &other.z, &self.z, &other.y);
        let y = mul_sub_mul(&self.z, &other.x, &self.x, &other.z);
        let z = mul_sub_mul(&self.x, &other.y, &self.y, &other.x);
        ExactPoint3 { x, y, z }
    }
}

/// `p * q - r * s`, exactly.
fn mul_sub_mul(p: &ExactRational, q: &ExactRational, r: &ExactRational, s: &ExactRational) -> (res:
    ExactRational)
    requires
        p.wf(),
        q.wf(),
        r.wf(),
        s.wf(),
    ensures
        res.wf(),
        frac_equiv(res.frac(), frac_sub(frac_mul(p.frac(), q.frac()), frac_mul(r.frac(), s.frac()))),
{
    let pq = p.mul(q);
    let rs = r.mul(s);
    let res = pq.sub(&rs);
    proof {
        pq.lemma_wf();
        rs.lemma_wf();
        lemma_sub_chain(
            res.frac(),
            pq.frac(),
            rs.frac(),
            frac_mul(p.frac(), q.frac()),
            frac_mul(r.frac(), s.frac()),
        );
    }
    res
}

impl ExactRational {
    /// The sign of the value as an ordering against zero.
    pub fn sign(&self) -> (o: Ordering)
        requires
            self.wf(),
        ensures
            (o == Ordering::Greater) == (self.frac().num > 0),
            (o == Ordering::Less) == (self.frac().num < 0),
            (o == Ordering::Equal) == (self.frac().num == 0),
    {
        if self.is_zero() {
            Ordering::Equal
        } else if self.is_negative() {
            Ordering::Less
        } else {
            Ordering::Greater
        }
    }

    /// The absolute value.
    pub fn abs(&self) -> (r: ExactRational)
        requires
            self.wf(),
        ensures
            r.wf(),
            r.frac() == (if self.frac().num < 0 {
                frac_neg(self.frac())
            } else {
                self.frac()
            }),
    {
        if self.is_negative() {
            self.neg()
        } else {
            self.copy()
        }
    }
}

/// Maps a comparison result against zero to an orientation.
pub fn orientation_from_ordering(ord: Ordering) -> (o: Orientation)
    ensures
        o == (match ord {
            Ordering::Greater => Orientation::Positive,
            Ordering::Less => Orientation::Negative,
            Ordering::Equal => Orientation::Zero,
        }),
{
    match ord {
        Ordering::Greater => Orientation::Positive,
        Ordering::Less => Orientation::Negative,
        Ordering::Equal => Orientation::Zero,
    }
}

/// The orientation named by the sign of a well formed value.
fn orientation_of(v: &ExactRational) -> (o: Orientation)
    requires
        v.wf(),
    ensures
        o == orientation_of_sign(frac_sign(v.frac())),
{
    if v.is_zero() {
        Orientation::Zero
    } else if v.is_negative() {
        Orientation::Negative
    } else {
        Orientation::Positive
    }
}

/// 3D orientation predicate: determines the orientation of point `d`
/// with respect to the plane through `a`, `b`, `c`: the sign of the
/// determinant of `a - d`, `b - d`, `c - d`.
pub fn orient3d(a: &ExactPoint3, b: &ExactPoint3, c: &ExactPoint3, d: &ExactPoint3) -> (o:
    Orientation)
    requires
        a.wf(),
        b.wf(),
        c.wf(),
        d.wf(),
    ensures
        o == orientation_of_sign(frac_sign(orient3d_det(a.view(), b.view(), c.view(), d.view()))),
        o == orientation_of_sign(
            frac_sign(
                point_dot_spec(
                    point_sub_spec(a.view(), d.view()),
                    point_cross_spec(
                        point_sub_spec(b.view(), d.view()),
                        point_sub_spec(c.view(), d.view()),
                    ),
                ),
            ),
        ),
{
    let u = a.sub(d);
    let v = b.sub(d);
    let w = c.sub(d);
    let m1 = mul_sub_mul(&v.y, &w.z, &v.z, &w.y);
    let m2 = mul_sub_mul(&v.x, &w.z, &v.z, &w.x);
    let m3 = mul_sub_mul(&v.x, &w.y, &v.y, &w.x);
    let t1 = u.x.mul(&m1);
    let t2 = u.y.mul(&m2);
    let t3 = u.z.mul(&m3);
    let s = t1.sub(&t2);
    let det = s.add(&t3);
    proof {
        let (sa, sb, sc, sd) = (a.view(), b.view(), c.view(), d.view());
        let su = point_sub_spec(sa, sd);
        let sv = point_sub_spec(sb, sd);
        let sw = point_sub_spec(sc, sd);
        lemma_point_valid(a);
        lemma_point_valid(b);
        lemma_point_valid(c);
        lemma_point_valid(d);
        lemma_point_valid(&u);
        lemma_point_valid(&v);
        lemma_point_valid(&w);
        lemma_point_sub_valid(sa, sd);
        lemma_point_sub_valid(sb, sd);
        lemma_point_sub_valid(sc, sd);
        m1.lemma_wf();
        m2.lemma_wf();
        m3.lemma_wf();
        t1.lemma_wf();
        t2.lemma_wf();
        t3.lemma_wf();
        s.lemma_wf();
        let sm1 = frac_sub(frac_mul(sv.y, sw.z), frac_mul(sv.z, sw.y));
        let sm2 = frac_sub(frac_mul(sv.x, sw.z), frac_mul(sv.z, sw.x));
        let sm3 = frac_sub(frac_mul(sv.x, sw.y), frac_mul(sv.y, sw.x));
        lemma_mul_sub_mul_chain(m1.frac(), v.y.frac(), w.z.frac(), v.z.frac(), w.y.frac(), sv.y, sw.z, sv.z, sw.y);
        lemma_mul_sub_mul_chain(m2.frac(), v.x.frac(), w.z.frac(), v.z.frac(), w.x.frac(), sv.x, sw.z, sv.z, sw.x);
        lemma_mul_sub_mul_chain(m3.frac(), v.x.frac(), w.y.frac(), v.y.frac(), w.x.frac(), sv.x, sw.y, sv.y, sw.x);
        lemma_mul_chain(t1.frac(), u.x.frac(), m1.frac(), su.x, sm1);
        lemma_mul_chain(t2.frac(), u.y.frac(), m2.frac(), su.y, sm2);
        lemma_mul_chain(t3.frac(), u.z.frac(), m3.frac(), su.z, sm3);
        lemma_sub_chain(s.frac(), t1.frac(), t2.frac(), frac_mul(su.x, sm1), frac_mul(su.y, sm2));
        lemma_add_chain(
            det.frac(),
            s.frac(),
            t3.frac(),
            frac_sub(frac_mul(su.x, sm1), frac_mul(su.y, sm2)),
            frac_mul(su.z, sm3),
        );
        lemma_mul_sub_mul_valid(sv.y, sw.z, sv.z, sw.y);
        lemma_mul_sub_mul_valid(sv.x, sw.z, sv.z, sw.x);
        lemma_mul_sub_mul_valid(sv.x, sw.y, sv.y, sw.x);
        lemma_ops_valid(su.x, sm1);
        lemma_ops_valid(su.y, sm2);
        lemma_ops_valid(su.z, sm3);
        lemma_ops_valid(frac_mul(su.x, sm1), frac_mul(su.y, sm2));
        lemma_ops_valid(frac_sub(frac_mul(su.x, sm1), frac_mul(su.y, sm2)), frac_mul(su.z, sm3));
        det.lemma_wf();
        lemma_equiv_sign(det.frac(), orient3d_det(sa, sb, sc, sd));
        law_orient3d_triple_product(sa, sb, sc, sd);
    }
    orientation_of(&det)
}

/// 2D orientation predicate: the sign of
/// `(a0 - c0) (b1 - c1) - (a1 - c1) (b0 - c0)`.
pub fn orient2d(a: &[ExactRational; 2], b: &[ExactRational; 2], c: &[ExactRational; 2]) -> (o:
    Orientation)
    requires
        a[0].wf(),
        a[1].wf(),
        b[0].wf(),
        b[1].wf(),
        c[0].wf(),
        c[1].wf(),
    ensures
        o == orientation_of_sign(
            frac_sign(
                orient2d_det(
                    a[0].frac(),
                    a[1].frac(),
                    b[0].frac(),
                    b[1].frac(),
                    c[0].frac(),
                    c[1].frac(),
                ),
            ),
        ),
{
    let d0 = a[0].sub(&c[0]);
    let d1 = b[1].sub(&c[1]);
    let d2 = a[1].sub(&c[1]);
    let d3 = b[0].sub(&c[0]);
    let det = mul_sub_mul(&d0, &d1, &d2, &d3);
    proof {
        a[0].lemma_wf();
        a[1].lemma_wf();
        b[0].lemma_wf();
        b[1].lemma_wf();
        c[0].lemma_wf();
        c[1].lemma_wf();
        d0.lemma_wf();
        d1.lemma_wf();
        d2.lemma_wf();
        d3.lemma_wf();
        let s0 = frac_sub(a[0].frac(), c[0].frac());
        let s1 = frac_sub(b[1].frac(), c[1].frac());
        let s2 = frac_sub(a[1].frac(), c[1].frac());
        let s3 = frac_sub(b[0].frac(), c[0].frac());
        lemma_ops_valid(a[0].frac(), c[0].frac());
        lemma_ops_valid(b[1].frac(), c[1].frac());
        lemma_ops_valid(a[1].frac(), c[1].frac());
        lemma_ops_valid(b[0].frac(), c[0].frac());
        lemma_mul_sub_mul_chain(det.frac(), d0.frac(), d1.frac(), d2.frac(), d3.frac(), s0, s1, s2, s3);
        lemma_mul_sub_mul_valid(s0, s1, s2, s3);
        det.lemma_wf();
        lemma_equiv_sign(det.frac(), frac_sub(frac_mul(s0, s1), frac_mul(s2, s3)));
    }
    orientation_of(&det)
}

/// Exact point-on-which-side-of-plane predicate. Given a plane through
/// `plane_origin` with normal `plane_normal`, returns `Positive` if the
/// query point is on the normal side, `Negative` if opposite, `Zero` if on
/// the plane: the sign of `(query - origin) . normal`.
pub fn point_side_of_plane(
    plane_origin: &ExactPoint3,
    plane_normal: &ExactPoint3,
    query: &ExactPoint3,
) -> (o: Orientation)
    requires
        plane_origin.wf(),
        plane_normal.wf(),
        query.wf(),
    ensures
        o == orientation_of_sign(
            frac_sign(
                point_dot_spec(point_sub_spec(query.view(), plane_origin.view()), plane_normal.view()),
            ),
        ),
{
    let diff = query.sub(plane_origin);
    let dot = diff.dot(plane_normal);
    proof {
        let sq = point_sub_spec(query.view(), plane_origin.view());
        let n = plane_normal.view();
        lemma_point_valid(query);
        lemma_point_valid(plane_origin);
        lemma_point_valid(plane_normal);
        lemma_point_valid(&diff);
        lemma_point_sub_valid(query.view(), plane_origin.view());
        lemma_dot_congruence(diff.view(), sq, n);
        lemma_dot_valid(diff.view(), n);
        lemma_dot_valid(sq, n);
        dot.lemma_wf();
        crate::frac::lemma_equiv_trans(dot.frac(), point_dot_spec(diff.view(), n), point_dot_spec(sq, n));
        lemma_equiv_sign(dot.frac(), point_dot_spec(sq, n));
    }
    orientation_from_ordering(dot.sign())
}

proof fn lemma_point_valid(p: &ExactPoint3)
    requires
        p.wf(),
    ensures
        frac_point_valid(p.view()),
{
    p.x.lemma_wf();
    p.y.lemma_wf();
    p.z.lemma_wf();
}

proof fn lemma_point_sub_valid(p: FracPoint, q: FracPoint)
    requires
        frac_point_valid(p),
        frac_point_valid(q),
    ensures
        frac_point_valid(point_sub_spec(p, q)),
{
    lemma_ops_valid(p.x, q.x);
    lemma_ops_valid(p.y, q.y);
    lemma_ops_valid(p.z, q.z);
}

proof fn lemma_mul_sub_mul_valid(p: Frac, q: Frac, r: Frac, s: Frac)
    requires
        frac_valid(p),
        frac_valid(q),
        frac_valid(r),
        frac_valid(s),
    ensures
        frac_valid(frac_mul(p, q)),
        frac_valid(frac_mul(r, s)),
        frac_valid(frac_sub(frac_mul(p, q), frac_mul(r, s))),
{
    lemma_ops_valid(p, q);
    lemma_ops_valid(r, s);
    lemma_ops_valid(frac_mul(p, q), frac_mul(r, s));
}

proof fn lemma_mul_sub_mul_chain(
    res: Frac,
    p: Frac,
    q: Frac,
    r: Frac,
    s: Frac,
    sp: Frac,
    sq: Frac,
    sr: Frac,
    ss: Frac,
)
    requires
        frac_valid(p),
        frac_valid(q),
        frac_valid(r),
        frac_valid(s),
        frac_equiv(res, frac_sub(frac_mul(p, q), frac_mul(r, s))),
        frac_equiv(p, sp),
        frac_equiv(q, sq),
        frac_equiv(r, sr),
        frac_equiv(s, ss),
    ensures
        frac_equiv(res, frac_sub(frac_mul(sp, sq), frac_mul(sr, ss))),
{
    lemma_ops_valid(p, q);
    lemma_ops_valid(r, s);
    crate::frac::lemma_mul_congruence(p, sp, q, sq);
    crate::frac::lemma_mul_congruence(r, sr, s, ss);
    lemma_sub_chain(res, frac_mul(p, q), frac_mul(r, s), frac_mul(sp, sq), frac_mul(sr, ss));
}

proof fn lemma_dot_valid(p: FracPoint, q: FracPoint)
    requires
        frac_point_valid(p),
        frac_point_valid(q),
    ensures
        frac_valid(point_dot_spec(p, q)),
{
    lemma_ops_valid(p.x, q.x);
    lemma_ops_valid(p.y, q.y);
    lemma_ops_valid(p.z, q.z);
    lemma_ops_valid(frac_mul(p.x, q.x), frac_mul(p.y, q.y));
    lemma_ops_valid(frac_add(frac_mul(p.x, q.x), frac_mul(p.y, q.y)), frac_mul(p.z, q.z));
}

proof fn lemma_dot_congruence(p: FracPoint, p2: FracPoint, q: FracPoint)
    requires
        frac_point_valid(p),
        frac_point_valid(q),
        point_equiv(p, p2),
    ensures
        frac_equiv(point_dot_spec(p, q), point_dot_spec(p2, q)),
{
    lemma_equiv_refl(q.x);
    lemma_equiv_refl(q.y);
    lemma_equiv_refl(q.z);
    crate::frac::lemma_mul_congruence(p.x, p2.x, q.x, q.x);
    crate::frac::lemma_mul_congruence(p.y, p2.y, q.y, q.y);
    crate::frac::lemma_mul_congruence(p.z, p2.z, q.z, q.z);
    crate::frac::lemma_add_congruence(
        frac_mul(p.x, q.x),
        frac_mul(p2.x, q.x),
        frac_mul(p.y, q.y),
        frac_mul(p2.y, q.y),
    );
    crate::frac::lemma_add_congruence(
        frac_add(frac_mul(p.x, q.x), frac_mul(p.y, q.y)),
        frac_add(frac_mul(p2.x, q.x), frac_mul(p2.y, q.y)),
        frac_mul(p.z, q.z),
        frac_mul(p2.z, q.z),
    );
}

/// The negation of a point, coordinate by coordinate.
pub open spec fn point_neg_spec(p: FracPoint) -> FracPoint {
    FracPoint { x: crate::frac::frac_neg(p.x), y: crate::frac::frac_neg(p.y), z: crate::frac::frac_neg(p.z) }
}

/// Four points of which the last repeats the first are coplanar: the
/// orientation test answers `Zero`.
pub proof fn law_orient3d_repeated_point(a: FracPoint, b: FracPoint, c: FracPoint)
    ensures
        orientation_of_sign(frac_sign(orient3d_det(a, b, c, a))) == Orientation::Zero,
{
    let u = point_sub_spec(a, a);
    let v = point_sub_spec(b, a);
    let w = point_sub_spec(c, a);
    assert(u.x.num == 0 && u.y.num == 0 && u.z.num == 0);
    let s1 = frac_sub(frac_mul(v.y, w.z), frac_mul(v.z, w.y));
    let s2 = frac_sub(frac_mul(v.x, w.z), frac_mul(v.z, w.x));
    let s3 = frac_sub(frac_mul(v.x, w.y), frac_mul(v.y, w.x));
    assert(frac_mul(u.x, s1).num == 0 && frac_mul(u.y, s2).num == 0 && frac_mul(u.z, s3).num == 0);
    let t = frac_sub(frac_mul(u.x, s1), frac_mul(u.y, s2));
    assert(t.num == 0) by (nonlinear_arith)
        requires
            t == frac_sub(frac_mul(u.x, s1), frac_mul(u.y, s2)),
            frac_mul(u.x, s1).num == 0,
            frac_mul(u.y, s2).num == 0,
    ;
    let d = frac_add(t, frac_mul(u.z, s3));
    assert(d.num == 0) by (nonlinear_arith)
        requires
            d == frac_add(t, frac_mul(u.z, s3)),
            t.num == 0,
            frac_mul(u.z, s3).num == 0,
    ;
}

/// The orientation determinant is the scalar triple product
/// `(a - d) . ((b - d) x (c - d))`: the two are the same rational number,
/// so they have the same sign.
pub proof fn law_orient3d_triple_product(a: FracPoint, b: FracPoint, c: FracPoint, d: FracPoint)
    requires
        frac_point_valid(a),
        frac_point_valid(b),
        frac_point_valid(c),
        frac_point_valid(d),
    ensures
        frac_equiv(
            orient3d_det(a, b, c, d),
            point_dot_spec(
                point_sub_spec(a, d),
                point_cross_spec(point_sub_spec(b, d), point_sub_spec(c, d)),
            ),
        ),
        frac_sign(orient3d_det(a, b, c, d)) == frac_sign(
            point_dot_spec(
                point_sub_spec(a, d),
                point_cross_spec(point_sub_spec(b, d), point_sub_spec(c, d)),
            ),
        ),
{
    let u = point_sub_spec(a, d);
    let v = point_sub_spec(b, d);
    let w = point_sub_spec(c, d);
    let cr = point_cross_spec(v, w);
    lemma_point_sub_valid(a, d);
    lemma_point_sub_valid(b, d);
    lemma_point_sub_valid(c, d);
    lemma_mul_sub_mul_valid(v.y, w.z, v.z, w.y);
    lemma_mul_sub_mul_valid(v.x, w.z, v.z, w.x);
    lemma_mul_sub_mul_valid(v.z, w.x, v.x, w.z);
    lemma_mul_sub_mul_valid(v.x, w.y, v.y, w.x);
    let m2 = frac_sub(frac_mul(v.x, w.z), frac_mul(v.z, w.x));
    let t1 = frac_mul(u.x, cr.x);
    let t2 = frac_mul(u.y, m2);
    let t2c = frac_mul(u.y, cr.y);
    let t3 = frac_mul(u.z, cr.z);
    lemma_ops_valid(u.x, cr.x);
    lemma_ops_valid(u.y, m2);
    lemma_ops_valid(u.y, cr.y);
    lemma_ops_valid(u.z, cr.z);
    // The middle cofactor is the negated middle coordinate of the cross product.
    let p = frac_mul(v.x, w.z);
    let q = frac_mul(v.z, w.x);
    assert(p.den * q.den == q.den * p.den) by (nonlinear_arith);
    assert(frac_equiv(frac_neg(m2), cr.y)) by (nonlinear_arith)
        requires
            m2 == frac_sub(p, q),
            cr.y == frac_sub(q, p),
    ;
    lemma_equiv_refl(u.y);
    crate::frac::lemma_mul_congruence(u.y, u.y, frac_neg(m2), cr.y);
    crate::frac::lemma_mul_neg_right(u.y, m2);
    // So subtracting the middle term is adding the cross-product term.
    crate::frac::lemma_sub_as_add(t1, t2);
    lemma_equiv_refl(t1);
    crate::frac::lemma_add_congruence(t1, t1, frac_neg(t2), t2c);
    lemma_equiv_refl(t3);
    crate::frac::lemma_add_congruence(frac_sub(t1, t2), frac_add(t1, t2c), t3, t3);
    // Both values are valid, so equivalence gives equal signs.
    lemma_ops_valid(t1, t2);
    lemma_ops_valid(t1, t2c);
    lemma_ops_valid(frac_sub(t1, t2), t3);
    lemma_ops_valid(frac_add(t1, t2c), t3);
    lemma_equiv_sign(orient3d_det(a, b, c, d), point_dot_spec(u, cr));
}

/// The 2D orientation determinant is the `z` coordinate of the cross
/// product of `a - c` and `b - c`, for points lifted into any plane
/// parallel to the `xy` plane.
pub proof fn law_orient2d_cross(
    a0: Frac,
    a1: Frac,
    b0: Frac,
    b1: Frac,
    c0: Frac,
    c1: Frac,
    z: Frac,
)
    ensures
        orient2d_det(a0, a1, b0, b1, c0, c1) == point_cross_spec(
            point_sub_spec((FracPoint { x: a0, y: a1, z: z }), (FracPoint { x: c0, y: c1, z: z })),
            point_sub_spec((FracPoint { x: b0, y: b1, z: z }), (FracPoint { x: c0, y: c1, z: z })),
        ).z,
{
}

/// Exchanging the first two points reverses the orientation of a triangle.
pub proof fn law_orient2d_swap(a0: Frac, a1: Frac, b0: Frac, b1: Frac, c0: Frac, c1: Frac)
    ensures
        frac_sign(orient2d_det(b0, b1, a0, a1, c0, c1)) == -frac_sign(
            orient2d_det(a0, a1, b0, b1, c0, c1),
        ),
{
    let p = frac_mul(frac_sub(a0, c0), frac_sub(b1, c1));
    let q = frac_mul(frac_sub(a1, c1), frac_sub(b0, c0));
    crate::frac::lemma_mul_comm(frac_sub(b0, c0), frac_sub(a1, c1));
    crate::frac::lemma_mul_comm(frac_sub(b1, c1), frac_sub(a0, c0));
    assert(orient2d_det(b0, b1, a0, a1, c0, c1) == frac_sub(q, p));
    assert(q.num * p.den - p.num * q.den == -(p.num * q.den - q.num * p.den));
}

/// The origin of a plane lies on it.
pub proof fn law_plane_origin_on_plane(origin: FracPoint, normal: FracPoint)
    ensures
        orientation_of_sign(frac_sign(point_dot_spec(point_sub_spec(origin, origin), normal)))
            == Orientation::Zero,
{
    let u = point_sub_spec(origin, origin);
    assert(u.x.num == 0 && u.y.num == 0 && u.z.num == 0);
    let a = frac_mul(u.x, normal.x);
    let b = frac_mul(u.y, normal.y);
    let c = frac_mul(u.z, normal.z);
    assert(a.num == 0 && b.num == 0 && c.num == 0);
    let ab = frac_add(a, b);
    assert(ab.num == 0) by (nonlinear_arith)
        requires
            ab == frac_add(a, b),
            a.num == 0,
            b.num == 0,
    ;
    let d = frac_add(ab, c);
    assert(d.num == 0) by (nonlinear_arith)
        requires
            d == frac_add(ab, c),
            ab.num == 0,
            c.num == 0,
    ;
}

/// Reversing the normal of a plane puts every point on the other side.
pub proof fn law_plane_flip_normal(origin: FracPoint, normal: FracPoint, query: FracPoint)
    ensures
        frac_sign(point_dot_spec(point_sub_spec(query, origin), point_neg_spec(normal))) == -frac_sign(
            point_dot_spec(point_sub_spec(query, origin), normal),
        ),
{
    let p = point_sub_spec(query, origin);
    let n = normal;
    crate::frac::lemma_mul_neg_right(p.x, n.x);
    crate::frac::lemma_mul_neg_right(p.y, n.y);
    crate::frac::lemma_mul_neg_right(p.z, n.z);
    let a = frac_mul(p.x, n.x);
    let b = frac_mul(p.y, n.y);
    let c = frac_mul(p.z, n.z);
    crate::frac::lemma_add_neg(a, b);
    crate::frac::lemma_add_neg(frac_add(a, b), c);
}

} // verus!
