//! Exact tables for converting Bernstein (Bézier) coefficients to the power
//! basis: Pascal's triangle and the Bernstein-to-power matrix.

use vstd::prelude::*;

use crate::frac::{frac_add, frac_equiv, frac_mul, frac_of_int, frac_valid, Frac};
use crate::poly::BiPoly;
use crate::sums::{lemma_sum_empty, lemma_sum_insert, set_sum};
use crate::rational::ExactRational;

verus! {

/// The binomial coefficient `C(k, i)`, by Pascal's rule.
pub open spec fn binom(k: nat, i: nat) -> nat
    decreases k,
{
    if i == 0 {
        1
    } else if k == 0 {
        0
    } else {
        binom((k - 1) as nat, (i - 1) as nat) + binom((k - 1) as nat, i)
    }
}

/// `C(k, i)` vanishes above the diagonal and is one on it.
pub proof fn lemma_binom_edges(k: nat, i: nat)
    ensures
        i > k ==> binom(k, i) == 0,
        binom(k, k) == 1,
    decreases k,
{
    if k > 0 {
        lemma_binom_edges((k - 1) as nat, (i - 1) as nat);
        lemma_binom_edges((k - 1) as nat, i);
        lemma_binom_edges((k - 1) as nat, k);
    }
}

/// The coefficient of `t^j` in the Bernstein polynomial
/// `B_i^n(t) = C(n, i) t^i (1 - t)^(n - i)`:
/// `(-1)^(j - i) C(n, i) C(n - i, j - i)` for `j >= i`, else zero.
pub open spec fn bernstein_coeff(n: nat, i: nat, j: nat) -> int {
    if j < i || i > n {
        0
    } else {
        let mag = binom(n, i) as int * binom((n - i) as nat, (j - i) as nat) as int;
        if (j - i) % 2 == 0 {
            mag
        } else {
            -mag
        }
    }
}

/// Does `v` hold the integer `z` exactly?
pub open spec fn holds_int(v: ExactRational, z: int) -> bool {
    v.wf() && frac_equiv(v.frac(), frac_of_int(z))
}

/// Pascal's triangle up to row `n`: `t[k][i] = C(k, i)` for
/// `0 <= i, k <= n` (zero above the diagonal).
pub fn binomial_table(n: usize) -> (t: Vec<Vec<ExactRational>>)
    requires
        n < usize::MAX,
    ensures
        t@.len() == n + 1,
        forall|k: int| 0 <= k <= n ==> (#[trigger] t@[k])@.len() == n + 1,
        forall|k: int, i: int|
            0 <= k <= n && 0 <= i <= n ==> holds_int(#[trigger] t@[k]@[i], binom(k as nat, i as nat) as int),
{
    let mut t: Vec<Vec<ExactRational>> = Vec::new();
    for k in 0..n + 1
        invariant
            n < usize::MAX,
            t@.len() == k,
            forall|kk: int| 0 <= kk < k ==> (#[trigger] t@[kk])@.len() == n + 1,
            forall|kk: int, i: int|
                0 <= kk < k && 0 <= i <= n ==> holds_int(#[trigger] t@[kk]@[i], binom(kk as nat, i as nat) as int),
    {
        let mut row: Vec<ExactRational> = Vec::new();
        for i in 0..n + 1
            invariant
                n < usize::MAX,
                k <= n,
                t@.len() == k,
                forall|kk: int| 0 <= kk < k ==> (#[trigger] t@[kk])@.len() == n + 1,
                forall|kk: int, ii: int|
                    0 <= kk < k && 0 <= ii <= n ==> holds_int(#[trigger] t@[kk]@[ii], binom(kk as nat, ii as nat) as int),
                row@.len() == i,
                forall|ii: int| 0 <= ii < i ==> holds_int(#[trigger] row@[ii], binom(k as nat, ii as nat) as int),
        {
            proof {
                lemma_binom_edges(k as nat, i as nat);
            }
            let v = if i == 0 || i == k {
                ExactRational::from_i64(1)
            } else if i < k {
                let a = &t[k - 1][i - 1];
                let b = &t[k - 1][i];
                let s = a.add(b);
                proof {
                    let x = binom((k - 1) as nat, (i - 1) as nat) as int;
                    let y = binom((k - 1) as nat, i as nat) as int;
                    assert(holds_int(*a, x));
                    assert(holds_int(*b, y));
                    a.lemma_wf();
                    b.lemma_wf();
                    crate::frac::lemma_add_chain(s.frac(), a.frac(), b.frac(), frac_of_int(x), frac_of_int(y));
                    assert(frac_of_int(x + y) == crate::frac::frac_add(frac_of_int(x), frac_of_int(y)));
                }
                s
            } else {
                ExactRational::zero()
            };
            proof {
                v.lemma_wf();
                assert(holds_int(v, binom(k as nat, i as nat) as int));
            }
            row.push(v);
        }
        t.push(row);
        proof {
            assert forall|kk: int, i: int|
                0 <= kk < k + 1 && 0 <= i <= n implies holds_int(#[trigger] t@[kk]@[i], binom(kk as nat, i as nat) as int) by {
                if kk == k {
                    assert(t@[kk]@ == row@);
                }
            }
        }
    }
    t
}

/// The Bernstein-to-power matrix of degree `n`: `m[i][j]` is the
/// coefficient of `t^j` in `B_i^n(t)`.
pub fn bernstein_power_matrix(n: u32) -> (m: Vec<Vec<ExactRational>>)
    requires
        n < usize::MAX,
    ensures
        m@.len() == n + 1,
        forall|i: int| 0 <= i <= n ==> (#[trigger] m@[i])@.len() == n + 1,
        forall|i: int, j: int|
            0 <= i <= n && 0 <= j <= n ==> holds_int(#[trigger] m@[i]@[j], bernstein_coeff(n as nat, i as nat, j as nat)),
{
    let nn = n as usize;
    let binom_t = binomial_table(nn);
    let mut m: Vec<Vec<ExactRational>> = Vec::new();
    for i in 0..nn + 1
        invariant
            nn == n,
            nn < usize::MAX,
            binom_t@.len() == nn + 1,
            forall|k: int| 0 <= k <= nn ==> (#[trigger] binom_t@[k])@.len() == nn + 1,
            forall|k: int, ii: int|
                0 <= k <= nn && 0 <= ii <= nn ==> holds_int(#[trigger] binom_t@[k]@[ii], binom(k as nat, ii as nat) as int),
            m@.len() == i,
            forall|ii: int| 0 <= ii < i ==> (#[trigger] m@[ii])@.len() == nn + 1,
            forall|ii: int, j: int|
                0 <= ii < i && 0 <= j <= nn ==> holds_int(#[trigger] m@[ii]@[j], bernstein_coeff(n as nat, ii as nat, j as nat)),
    {
        let mut row: Vec<ExactRational> = Vec::new();
        for j in 0..nn + 1
            invariant
                nn == n,
                nn < usize::MAX,
                i <= nn,
                binom_t@.len() == nn + 1,
                forall|k: int| 0 <= k <= nn ==> (#[trigger] binom_t@[k])@.len() == nn + 1,
                forall|k: int, ii: int|
                    0 <= k <= nn && 0 <= ii <= nn ==> holds_int(#[trigger] binom_t@[k]@[ii], binom(k as nat, ii as nat) as int),
                row@.len() == j,
                forall|jj: int| 0 <= jj < j ==> holds_int(#[trigger] row@[jj], bernstein_coeff(n as nat, i as nat, jj as nat)),
        {
            let v = if j < i {
                ExactRational::zero()
            } else {
                let a = &binom_t[nn][i];
                let b = &binom_t[nn - i][j - i];
                let mag = a.mul(b);
                let ghost x = binom(n as nat, i as nat) as int;
                let ghost y = binom((n - i) as nat, (j - i) as nat) as int;
                proof {
                    assert(holds_int(*a, x));
                    assert(holds_int(*b, y));
                    a.lemma_wf();
                    b.lemma_wf();
                    crate::frac::lemma_mul_chain(mag.frac(), a.frac(), b.frac(), frac_of_int(x), frac_of_int(y));
                    assert(frac_of_int(x * y) == crate::frac::frac_mul(frac_of_int(x), frac_of_int(y)));
                    mag.lemma_wf();
                }
                if (j - i) % 2 == 0 {
                    mag
                } else {
                    let neg = mag.neg();
                    proof {
                        crate::frac::lemma_neg_congruence(mag.frac(), frac_of_int(x * y));
                        assert(crate::frac::frac_neg(frac_of_int(x * y)) == frac_of_int(-(x * y)));
                    }
                    neg
                }
            };
            proof {
                v.lemma_wf();
                assert(holds_int(v, bernstein_coeff(n as nat, i as nat, j as nat)));
            }
            row.push(v);
        }
        m.push(row);
        proof {
            assert forall|ii: int, j: int|
                0 <= ii < i + 1 && 0 <= j <= nn implies holds_int(#[trigger] m@[ii]@[j], bernstein_coeff(n as nat, ii as nat, j as nat)) by {
                if ii == i {
                    assert(m@[ii]@ == row@);
                }
            }
        }
    }
    m
}

/// `v` at the exponents `(k1, k2)` and zero elsewhere.
pub open spec fn point_term(k1: int, k2: int, v: Frac, a: int, b: int) -> Frac {
    if a == k1 && b == k2 {
        v
    } else {
        frac_of_int(0)
    }
}

/// Adds the term `bcoeff val u^k1 v^k2` to `p`.
fn add_term(p: &BiPoly, k1: u32, k2: u32, bcoeff: &ExactRational, val: &ExactRational) -> (r: BiPoly)
    requires
        p.wf(),
        bcoeff.wf(),
        val.wf(),
        bcoeff.frac().num != 0,
    ensures
        r.wf(),
        forall|a: u32, b: u32|
            frac_equiv(
                #[trigger] r.coeff_spec(a, b),
                frac_add(
                    p.coeff_spec(a, b),
                    point_term(k1 as int, k2 as int, frac_mul(bcoeff.frac(), val.frac()), a as int, b as int),
                ),
            ),
{
    let mono = BiPoly::monomial(k1, k2, bcoeff.copy());
    let t = mono.scale(val);
    let r = p.add(&t);
    proof {
        assert forall|a: u32, b: u32|
            frac_equiv(
                #[trigger] r.coeff_spec(a, b),
                frac_add(
                    p.coeff_spec(a, b),
                    point_term(k1 as int, k2 as int, frac_mul(bcoeff.frac(), val.frac()), a as int, b as int),
                ),
            ) by {
            let pc = p.coeff_spec(a, b);
            let tc = t.coeff_spec(a, b);
            let target = point_term(k1 as int, k2 as int, frac_mul(bcoeff.frac(), val.frac()), a as int, b as int);
            if p.support().contains((a, b)) {
                p.terms_view()[(a, b)].lemma_wf();
            }
            val.lemma_wf();
            bcoeff.lemma_wf();
            if a == k1 && b == k2 {
                assert(mono.coeff_spec(a, b) == bcoeff.frac());
            } else {
                assert(!mono.support().contains((a, b)));
                assert(mono.coeff_spec(a, b) == frac_of_int(0));
                let w = val.frac();
                crate::frac::lemma_ops_valid(frac_of_int(0), w);
                assert(frac_mul(frac_of_int(0), w).num == 0);
                crate::frac::lemma_equiv_trans(tc, frac_mul(frac_of_int(0), w), frac_of_int(0));
            }
            crate::frac::lemma_equiv_refl(pc);
            crate::frac::lemma_add_congruence(pc, pc, tc, target);
            crate::frac::lemma_ops_valid(bcoeff.frac(), val.frac());
            if t.support().contains((a, b)) {
                t.terms_view()[(a, b)].lemma_wf();
            }
            crate::frac::lemma_ops_valid(pc, tc);
            crate::frac::lemma_equiv_trans(r.coeff_spec(a, b), frac_add(pc, tc), frac_add(pc, target));
        }
    }
    r
}

/// Coordinates and weight `(x, y, z, w)` of one control point.
pub type ControlPoint = (ExactRational, ExactRational, ExactRational, ExactRational);

/// The homogeneous polynomials `(X, Y, Z, W)` of one Bézier patch in the
/// power basis of its local parameters `(u, v)`.
pub struct PatchPolys {
    pub x: BiPoly,
    pub y: BiPoly,
    pub z: BiPoly,
    pub w: BiPoly,
}

impl PatchPolys {
    /// All four polynomials are well formed.
    pub open spec fn wf(&self) -> bool {
        self.x.wf() && self.y.wf() && self.z.wf() && self.w.wf()
    }

    /// The polynomial of channel `c`: 0 for `X`, 1 for `Y`, 2 for `Z`,
    /// otherwise `W`.
    pub open spec fn channel(&self, c: int) -> BiPoly {
        if c == 0 {
            self.x
        } else if c == 1 {
            self.y
        } else if c == 2 {
            self.z
        } else {
            self.w
        }
    }
}

/// The homogeneous value of a control point on channel `c`: `x w`,
/// `y w`, `z w` or `w`.
pub open spec fn control_value(e: ControlPoint, c: int) -> Frac {
    if c == 0 {
        frac_mul(e.0.frac(), e.3.frac())
    } else if c == 1 {
        frac_mul(e.1.frac(), e.3.frac())
    } else if c == 2 {
        frac_mul(e.2.frac(), e.3.frac())
    } else {
        e.3.frac()
    }
}

/// The shareution of the control point `e` at grid position `(i, j)` to
/// the coefficient of `u^a v^b` on channel `c`:
/// `m_u[i][a] m_v[j][b]` times its homogeneous value.
pub open spec fn cell_share(nu: nat, nv: nat, i: int, j: int, e: ControlPoint, c: int, a: int, b: int) -> Frac {
    frac_mul(
        frac_of_int(bernstein_coeff(nu, i as nat, a as nat) * bernstein_coeff(nv, j as nat, b as nat)),
        control_value(e, c),
    )
}

/// After part of a cell has been added to one channel: the coefficients
/// at the exponents in `done` carry the cell's shareution `share`, the
/// others are as `before`.
pub open spec fn channel_state(
    now: BiPoly,
    before: BiPoly,
    share: spec_fn(int, int) -> Frac,
    done: spec_fn(int, int) -> bool,
) -> bool {
    forall|a: u32, b: u32|
        frac_equiv(
            #[trigger] now.coeff_spec(a, b),
            if done(a as int, b as int) {
                frac_add(before.coeff_spec(a, b), share(a as int, b as int))
            } else {
                before.coeff_spec(a, b)
            },
        )
}

proof fn lemma_coeff_valid(p: BiPoly, a: u32, b: u32)
    requires
        p.wf(),
    ensures
        frac_valid(p.coeff_spec(a, b)),
{
    if p.support().contains((a, b)) {
        p.terms_view()[(a, b)].lemma_wf();
    }
}

/// The Bernstein coefficient vanishes outside `i <= a <= n`.
proof fn lemma_bernstein_zero(n: nat, i: nat, a: nat)
    requires
        i <= n,
        a < i || a > n,
    ensures
        bernstein_coeff(n, i, a) == 0,
{
    if a > n {
        lemma_binom_edges((n - i) as nat, (a - i) as nat);
        assert(binom(n, i) as int * 0 == 0);
    }
}

/// One step within a cell on one channel: the exponents `(k1, k2)` join
/// the done ones, with the term added (or with a zero shareution, nothing
/// added).
proof fn lemma_channel_step(
    now: BiPoly,
    new: BiPoly,
    before: BiPoly,
    share: spec_fn(int, int) -> Frac,
    done_old: spec_fn(int, int) -> bool,
    done_new: spec_fn(int, int) -> bool,
    k1: u32,
    k2: u32,
    v: Frac,
    added: bool,
)
    requires
        now.wf(),
        new.wf(),
        before.wf(),
        forall|a: int, b: int| frac_valid(#[trigger] share(a, b)),
        channel_state(now, before, share, done_old),
        !done_old(k1 as int, k2 as int),
        forall|a: int, b: int| #[trigger] done_new(a, b) == (done_old(a, b) || (a == k1 && b == k2)),
        added ==> frac_valid(v) && frac_equiv(v, share(k1 as int, k2 as int)) && forall|a: u32, b: u32|
            frac_equiv(
                #[trigger] new.coeff_spec(a, b),
                frac_add(now.coeff_spec(a, b), point_term(k1 as int, k2 as int, v, a as int, b as int)),
            ),
        !added ==> new == now && share(k1 as int, k2 as int).num == 0,
    ensures
        channel_state(new, before, share, done_new),
{
    assert forall|a: u32, b: u32|
        frac_equiv(
            #[trigger] new.coeff_spec(a, b),
            if done_new(a as int, b as int) {
                frac_add(before.coeff_spec(a, b), share(a as int, b as int))
            } else {
                before.coeff_spec(a, b)
            },
        ) by {
        let nw = now.coeff_spec(a, b);
        let bf = before.coeff_spec(a, b);
        let ct = share(a as int, b as int);
        lemma_coeff_valid(now, a, b);
        lemma_coeff_valid(before, a, b);
        crate::frac::lemma_ops_valid(bf, ct);
        let t = if done_old(a as int, b as int) { frac_add(bf, ct) } else { bf };
        assert(frac_equiv(nw, t));
        if a == k1 && b == k2 {
            if added {
                crate::frac::lemma_equiv_refl(bf);
                crate::frac::lemma_add_chain(new.coeff_spec(a, b), nw, v, bf, ct);
            } else {
                crate::frac::lemma_add_zero_num(bf, ct);
                crate::frac::lemma_equiv_symm(frac_add(bf, ct), bf);
                crate::frac::lemma_equiv_trans(nw, bf, frac_add(bf, ct));
            }
        } else {
            if added {
                crate::frac::lemma_add_zero_right(nw);
                crate::frac::lemma_equiv_trans(new.coeff_spec(a, b), nw, t);
            }
        }
    }
}

/// Exponents whose share is zero can join the done ones without a change.
proof fn lemma_channel_extend(
    now: BiPoly,
    before: BiPoly,
    share: spec_fn(int, int) -> Frac,
    done_old: spec_fn(int, int) -> bool,
    done_new: spec_fn(int, int) -> bool,
)
    requires
        now.wf(),
        before.wf(),
        forall|a: int, b: int| frac_valid(#[trigger] share(a, b)),
        channel_state(now, before, share, done_old),
        forall|a: int, b: int| 0 <= a && 0 <= b && #[trigger] done_old(a, b) ==> done_new(a, b),
        forall|a: int, b: int| 0 <= a && 0 <= b && #[trigger] done_new(a, b) && !done_old(a, b) ==> share(a, b).num == 0,
    ensures
        channel_state(now, before, share, done_new),
{
    assert forall|a: u32, b: u32|
        frac_equiv(
            #[trigger] now.coeff_spec(a, b),
            if done_new(a as int, b as int) {
                frac_add(before.coeff_spec(a, b), share(a as int, b as int))
            } else {
                before.coeff_spec(a, b)
            },
        ) by {
        let bf = before.coeff_spec(a, b);
        let ct = share(a as int, b as int);
        lemma_coeff_valid(before, a, b);
        if done_new(a as int, b as int) && !done_old(a as int, b as int) {
            crate::frac::lemma_add_zero_num(bf, ct);
            crate::frac::lemma_equiv_symm(frac_add(bf, ct), bf);
            crate::frac::lemma_equiv_trans(now.coeff_spec(a, b), bf, frac_add(bf, ct));
        }
    }
}

/// A value that holds an integer holds zero when its numerator is zero.
proof fn lemma_holds_zero(v: ExactRational, z: int)
    requires
        holds_int(v, z),
        v.frac().num == 0,
    ensures
        z == 0,
{
    v.lemma_wf();
    assert(z * v.frac().den == 0);
    assert(z == 0) by (nonlinear_arith)
        requires
            z * v.frac().den == 0,
            v.frac().den > 0,
    ;
}

/// Adds the control point `e` at grid position `(i, j)`: for every
/// `k1 >= i` and `k2 >= j`, the term `m_u[i][k1] m_v[j][k2] (x w, y w,
/// z w, w) u^k1 v^k2`, skipping the zero ones.
#[verifier::rlimit(60)]
fn accumulate_cell(
    patch: PatchPolys,
    pu: &Vec<Vec<ExactRational>>,
    pv: &Vec<Vec<ExactRational>>,
    nu: usize,
    nv: usize,
    i: usize,
    j: usize,
    e: &ControlPoint,
) -> (r: PatchPolys)
    requires
        patch.wf(),
        nu <= u32::MAX,
        nv <= u32::MAX,
        nu < usize::MAX,
        nv < usize::MAX,
        i <= nu,
        j <= nv,
        pu@.len() == nu + 1,
        pv@.len() == nv + 1,
        forall|k: int| 0 <= k <= nu ==> (#[trigger] pu@[k])@.len() == nu + 1,
        forall|k: int| 0 <= k <= nv ==> (#[trigger] pv@[k])@.len() == nv + 1,
        forall|k: int, l: int|
            0 <= k <= nu && 0 <= l <= nu ==> holds_int(#[trigger] pu@[k]@[l], bernstein_coeff(nu as nat, k as nat, l as nat)),
        forall|k: int, l: int|
            0 <= k <= nv && 0 <= l <= nv ==> holds_int(#[trigger] pv@[k]@[l], bernstein_coeff(nv as nat, k as nat, l as nat)),
        e.0.wf(),
        e.1.wf(),
        e.2.wf(),
        e.3.wf(),
    ensures
        r.wf(),
        channel_state(r.x, patch.x, |a: int, b: int| cell_share(nu as nat, nv as nat, i as int, j as int, *e, 0, a, b), |a: int, b: int| true),
        channel_state(r.y, patch.y, |a: int, b: int| cell_share(nu as nat, nv as nat, i as int, j as int, *e, 1, a, b), |a: int, b: int| true),
        channel_state(r.z, patch.z, |a: int, b: int| cell_share(nu as nat, nv as nat, i as int, j as int, *e, 2, a, b), |a: int, b: int| true),
        channel_state(r.w, patch.w, |a: int, b: int| cell_share(nu as nat, nv as nat, i as int, j as int, *e, 3, a, b), |a: int, b: int| true),
{
    let ghost sx = |a: int, b: int| cell_share(nu as nat, nv as nat, i as int, j as int, *e, 0, a, b);
    let ghost sy = |a: int, b: int| cell_share(nu as nat, nv as nat, i as int, j as int, *e, 1, a, b);
    let ghost sz = |a: int, b: int| cell_share(nu as nat, nv as nat, i as int, j as int, *e, 2, a, b);
    let ghost sw = |a: int, b: int| cell_share(nu as nat, nv as nat, i as int, j as int, *e, 3, a, b);
    let ghost none = |a: int, b: int| false;
    let ghost all = |a: int, b: int| true;
    proof {
        e.0.lemma_wf();
        e.1.lemma_wf();
        e.2.lemma_wf();
        e.3.lemma_wf();
        crate::frac::lemma_ops_valid(e.0.frac(), e.3.frac());
        crate::frac::lemma_ops_valid(e.1.frac(), e.3.frac());
        crate::frac::lemma_ops_valid(e.2.frac(), e.3.frac());
        assert forall|c: int, a: int, b: int| 0 <= c < 4 implies frac_valid(
            #[trigger] cell_share(nu as nat, nv as nat, i as int, j as int, *e, c, a, b),
        ) by {
            crate::frac::lemma_ops_valid(
                frac_of_int(bernstein_coeff(nu as nat, i as nat, a as nat) * bernstein_coeff(nv as nat, j as nat, b as nat)),
                control_value(*e, c),
            );
        }
        assert forall|a: int, b: int| frac_valid(#[trigger] sx(a, b)) by {
            assert(frac_valid(cell_share(nu as nat, nv as nat, i as int, j as int, *e, 0, a, b)));
        }
        assert forall|a: int, b: int| frac_valid(#[trigger] sy(a, b)) by {
            assert(frac_valid(cell_share(nu as nat, nv as nat, i as int, j as int, *e, 1, a, b)));
        }
        assert forall|a: int, b: int| frac_valid(#[trigger] sz(a, b)) by {
            assert(frac_valid(cell_share(nu as nat, nv as nat, i as int, j as int, *e, 2, a, b)));
        }
        assert forall|a: int, b: int| frac_valid(#[trigger] sw(a, b)) by {
            assert(frac_valid(cell_share(nu as nat, nv as nat, i as int, j as int, *e, 3, a, b)));
        }
        assert forall|a: u32, b: u32| frac_equiv(#[trigger] patch.x.coeff_spec(a, b), patch.x.coeff_spec(a, b)) by {}
        assert(channel_state(patch.x, patch.x, sx, none));
        assert(channel_state(patch.y, patch.y, sy, none));
        assert(channel_state(patch.z, patch.z, sz, none));
        assert(channel_state(patch.w, patch.w, sw, none));
    }
    let wr = &e.3;
    if wr.is_zero() {
        proof {
            let w = e.3.frac();
            assert forall|c: int, a: int, b: int| 0 <= c < 4 implies (#[trigger] cell_share(
                nu as nat,
                nv as nat,
                i as int,
                j as int,
                *e,
                c,
                a,
                b,
            )).num == 0 by {
                let m = bernstein_coeff(nu as nat, i as nat, a as nat) * bernstein_coeff(nv as nat, j as nat, b as nat);
                assert(e.0.frac().num * 0 == 0 && e.1.frac().num * 0 == 0 && e.2.frac().num * 0 == 0);
                assert(m * 0 == 0);
            }
            lemma_channel_extend(patch.x, patch.x, sx, none, all);
            lemma_channel_extend(patch.y, patch.y, sy, none, all);
            lemma_channel_extend(patch.z, patch.z, sz, none, all);
            lemma_channel_extend(patch.w, patch.w, sw, none, all);
        }
        return patch;
    }
    let xr = e.0.mul(wr);
    let yr = e.1.mul(wr);
    let zr = e.2.mul(wr);
    let ghost before = patch;
    let mut cur = patch;
    for k1 in i..nu + 1
        invariant
            cur.wf(),
            before.wf(),
            nu <= u32::MAX,
            nv <= u32::MAX,
            nu < usize::MAX,
            nv < usize::MAX,
            i <= nu,
            j <= nv,
            pu@.len() == nu + 1,
            pv@.len() == nv + 1,
            forall|k: int| 0 <= k <= nu ==> (#[trigger] pu@[k])@.len() == nu + 1,
            forall|k: int| 0 <= k <= nv ==> (#[trigger] pv@[k])@.len() == nv + 1,
            forall|k: int, l: int|
                0 <= k <= nu && 0 <= l <= nu ==> holds_int(#[trigger] pu@[k]@[l], bernstein_coeff(nu as nat, k as nat, l as nat)),
            forall|k: int, l: int|
                0 <= k <= nv && 0 <= l <= nv ==> holds_int(#[trigger] pv@[k]@[l], bernstein_coeff(nv as nat, k as nat, l as nat)),
            e.0.wf(),
            e.1.wf(),
            e.2.wf(),
            e.3.wf(),
            xr.wf(),
            yr.wf(),
            zr.wf(),
            wr.wf(),
            wr.frac().num != 0,
            frac_equiv(xr.frac(), control_value(*e, 0)),
            frac_equiv(yr.frac(), control_value(*e, 1)),
            frac_equiv(zr.frac(), control_value(*e, 2)),
            wr.frac() == control_value(*e, 3),
            forall|a: int, b: int| frac_valid(#[trigger] sx(a, b)),
            forall|a: int, b: int| frac_valid(#[trigger] sy(a, b)),
            forall|a: int, b: int| frac_valid(#[trigger] sz(a, b)),
            forall|a: int, b: int| frac_valid(#[trigger] sw(a, b)),
            sx == (|a: int, b: int| cell_share(nu as nat, nv as nat, i as int, j as int, *e, 0, a, b)),
            sy == (|a: int, b: int| cell_share(nu as nat, nv as nat, i as int, j as int, *e, 1, a, b)),
            sz == (|a: int, b: int| cell_share(nu as nat, nv as nat, i as int, j as int, *e, 2, a, b)),
            sw == (|a: int, b: int| cell_share(nu as nat, nv as nat, i as int, j as int, *e, 3, a, b)),
            channel_state(cur.x, before.x, sx, |a: int, b: int| i <= a < k1 && j <= b <= nv),
            channel_state(cur.y, before.y, sy, |a: int, b: int| i <= a < k1 && j <= b <= nv),
            channel_state(cur.z, before.z, sz, |a: int, b: int| i <= a < k1 && j <= b <= nv),
            channel_state(cur.w, before.w, sw, |a: int, b: int| i <= a < k1 && j <= b <= nv),
    {
        let cu = &pu[i][k1];
        let ghost row_old = |a: int, b: int| i <= a < k1 && j <= b <= nv;
        let ghost row_new = |a: int, b: int| i <= a < k1 + 1 && j <= b <= nv;
        if cu.is_zero() {
            proof {
                lemma_holds_zero(*cu, bernstein_coeff(nu as nat, i as nat, k1 as nat));
                assert forall|c: int, b: int| 0 <= c < 4 && 0 <= b implies (#[trigger] cell_share(
                    nu as nat,
                    nv as nat,
                    i as int,
                    j as int,
                    *e,
                    c,
                    k1 as int,
                    b,
                )).num == 0 by {
                    assert(0 * bernstein_coeff(nv as nat, j as nat, b as nat) == 0);
                    assert(0 * control_value(*e, c).num == 0);
                }
                assert(sx(k1 as int, 0) == cell_share(nu as nat, nv as nat, i as int, j as int, *e, 0, k1 as int, 0));
                lemma_channel_extend(cur.x, before.x, sx, row_old, row_new);
                lemma_channel_extend(cur.y, before.y, sy, row_old, row_new);
                lemma_channel_extend(cur.z, before.z, sz, row_old, row_new);
                lemma_channel_extend(cur.w, before.w, sw, row_old, row_new);
            }
        } else {
            for k2 in j..nv + 1
                invariant
                    cur.wf(),
                    before.wf(),
                    nu <= u32::MAX,
                    nv <= u32::MAX,
                    nv < usize::MAX,
                    i <= k1 <= nu,
                    j <= nv,
                    pv@.len() == nv + 1,
                    forall|k: int| 0 <= k <= nv ==> (#[trigger] pv@[k])@.len() == nv + 1,
                    forall|k: int, l: int|
                        0 <= k <= nv && 0 <= l <= nv ==> holds_int(#[trigger] pv@[k]@[l], bernstein_coeff(nv as nat, k as nat, l as nat)),
                    holds_int(*cu, bernstein_coeff(nu as nat, i as nat, k1 as nat)),
                    cu.frac().num != 0,
                    e.0.wf(),
                    e.1.wf(),
                    e.2.wf(),
                    e.3.wf(),
                    xr.wf(),
                    yr.wf(),
                    zr.wf(),
                    wr.wf(),
                    wr.frac().num != 0,
                    frac_equiv(xr.frac(), control_value(*e, 0)),
                    frac_equiv(yr.frac(), control_value(*e, 1)),
                    frac_equiv(zr.frac(), control_value(*e, 2)),
                    wr.frac() == control_value(*e, 3),
                    forall|a: int, b: int| frac_valid(#[trigger] sx(a, b)),
                    forall|a: int, b: int| frac_valid(#[trigger] sy(a, b)),
                    forall|a: int, b: int| frac_valid(#[trigger] sz(a, b)),
                    forall|a: int, b: int| frac_valid(#[trigger] sw(a, b)),
                    sx == (|a: int, b: int| cell_share(nu as nat, nv as nat, i as int, j as int, *e, 0, a, b)),
                    sy == (|a: int, b: int| cell_share(nu as nat, nv as nat, i as int, j as int, *e, 1, a, b)),
                    sz == (|a: int, b: int| cell_share(nu as nat, nv as nat, i as int, j as int, *e, 2, a, b)),
                    sw == (|a: int, b: int| cell_share(nu as nat, nv as nat, i as int, j as int, *e, 3, a, b)),
                    channel_state(cur.x, before.x, sx, |a: int, b: int| (i <= a < k1 && j <= b <= nv) || (a == k1 && j <= b < k2)),
                    channel_state(cur.y, before.y, sy, |a: int, b: int| (i <= a < k1 && j <= b <= nv) || (a == k1 && j <= b < k2)),
                    channel_state(cur.z, before.z, sz, |a: int, b: int| (i <= a < k1 && j <= b <= nv) || (a == k1 && j <= b < k2)),
                    channel_state(cur.w, before.w, sw, |a: int, b: int| (i <= a < k1 && j <= b <= nv) || (a == k1 && j <= b < k2)),
            {
                let cv = &pv[j][k2];
                let ghost d_old = |a: int, b: int| (i <= a < k1 && j <= b <= nv) || (a == k1 && j <= b < k2);
                let ghost d_new = |a: int, b: int| (i <= a < k1 && j <= b <= nv) || (a == k1 && j <= b < k2 + 1);
                let ghost mu = bernstein_coeff(nu as nat, i as nat, k1 as nat);
                let ghost mv = bernstein_coeff(nv as nat, j as nat, k2 as nat);
                if cv.is_zero() {
                    proof {
                        lemma_holds_zero(*cv, mv);
                        assert forall|c: int| 0 <= c < 4 implies (#[trigger] cell_share(
                            nu as nat,
                            nv as nat,
                            i as int,
                            j as int,
                            *e,
                            c,
                            k1 as int,
                            k2 as int,
                        )).num == 0 by {
                            assert(mu * 0 == 0);
                            assert(0 * control_value(*e, c).num == 0);
                        }
                        assert(sx(k1 as int, k2 as int).num == 0);
                        assert(sy(k1 as int, k2 as int).num == 0);
                        assert(sz(k1 as int, k2 as int).num == 0);
                        assert(sw(k1 as int, k2 as int).num == 0);
                        lemma_channel_extend(cur.x, before.x, sx, d_old, d_new);
                        lemma_channel_extend(cur.y, before.y, sy, d_old, d_new);
                        lemma_channel_extend(cur.z, before.z, sz, d_old, d_new);
                        lemma_channel_extend(cur.w, before.w, sw, d_old, d_new);
                    }
                } else {
                    let bcoeff = cu.mul(cv);
                    proof {
                        cu.lemma_wf();
                        cv.lemma_wf();
                        crate::frac::lemma_mul_chain(bcoeff.frac(), cu.frac(), cv.frac(), frac_of_int(mu), frac_of_int(mv));
                        assert(frac_mul(frac_of_int(mu), frac_of_int(mv)) == frac_of_int(mu * mv));
                        bcoeff.lemma_wf();
                        assert(bcoeff.frac().num != 0) by {
                            if bcoeff.frac().num == 0 {
                                crate::frac::lemma_equiv_zero(bcoeff.frac(), frac_of_int(mu * mv));
                                assert(mu * mv == 0);
                                assert(mu == 0 || mv == 0) by (nonlinear_arith)
                                    requires
                                        mu * mv == 0,
                                ;
                                if mu == 0 {
                                    assert(cu.frac().num * 1 == 0 * cu.frac().den);
                                } else {
                                    assert(cv.frac().num * 1 == 0 * cv.frac().den);
                                }
                            }
                        }
                        xr.lemma_wf();
                        yr.lemma_wf();
                        zr.lemma_wf();
                        wr.lemma_wf();
                    }
                    let k1u = k1 as u32;
                    let k2u = k2 as u32;
                    let ghost cx = cur.x;
                    let ghost cy = cur.y;
                    let ghost cz = cur.z;
                    let ghost cw = cur.w;
                    // X
                    if !xr.is_zero() {
                        let nx = add_term(&cur.x, k1u, k2u, &bcoeff, &xr);
                        proof {
                            crate::frac::lemma_ops_valid(bcoeff.frac(), xr.frac());
                            crate::frac::lemma_mul_congruence(bcoeff.frac(), frac_of_int(mu * mv), xr.frac(), control_value(*e, 0));
                            lemma_channel_step(cx, nx, before.x, sx, d_old, d_new, k1u, k2u, frac_mul(bcoeff.frac(), xr.frac()), true);
                        }
                        cur.x = nx;
                    } else {
                        proof {
                            e.0.lemma_wf();
                            e.3.lemma_wf();
                            crate::frac::lemma_ops_valid(e.0.frac(), e.3.frac());
                            crate::frac::lemma_equiv_zero(xr.frac(), control_value(*e, 0));
                            assert(mu * mv * 0 == 0);
                            lemma_channel_step(cx, cx, before.x, sx, d_old, d_new, k1u, k2u, frac_of_int(0), false);
                        }
                    }
                    // Y
                    if !yr.is_zero() {
                        let ny = add_term(&cur.y, k1u, k2u, &bcoeff, &yr);
                        proof {
                            crate::frac::lemma_ops_valid(bcoeff.frac(), yr.frac());
                            crate::frac::lemma_mul_congruence(bcoeff.frac(), frac_of_int(mu * mv), yr.frac(), control_value(*e, 1));
                            lemma_channel_step(cy, ny, before.y, sy, d_old, d_new, k1u, k2u, frac_mul(bcoeff.frac(), yr.frac()), true);
                        }
                        cur.y = ny;
                    } else {
                        proof {
                            e.1.lemma_wf();
                            e.3.lemma_wf();
                            crate::frac::lemma_ops_valid(e.1.frac(), e.3.frac());
                            crate::frac::lemma_equiv_zero(yr.frac(), control_value(*e, 1));
                            assert(mu * mv * 0 == 0);
                            lemma_channel_step(cy, cy, before.y, sy, d_old, d_new, k1u, k2u, frac_of_int(0), false);
                        }
                    }
                    // Z
                    if !zr.is_zero() {
                        let nz = add_term(&cur.z, k1u, k2u, &bcoeff, &zr);
                        proof {
                            crate::frac::lemma_ops_valid(bcoeff.frac(), zr.frac());
                            crate::frac::lemma_mul_congruence(bcoeff.frac(), frac_of_int(mu * mv), zr.frac(), control_value(*e, 2));
                            lemma_channel_step(cz, nz, before.z, sz, d_old, d_new, k1u, k2u, frac_mul(bcoeff.frac(), zr.frac()), true);
                        }
                        cur.z = nz;
                    } else {
                        proof {
                            e.2.lemma_wf();
                            e.3.lemma_wf();
                            crate::frac::lemma_ops_valid(e.2.frac(), e.3.frac());
                            crate::frac::lemma_equiv_zero(zr.frac(), control_value(*e, 2));
                            assert(mu * mv * 0 == 0);
                            lemma_channel_step(cz, cz, before.z, sz, d_old, d_new, k1u, k2u, frac_of_int(0), false);
                        }
                    }
                    // W
                    let nw = add_term(&cur.w, k1u, k2u, &bcoeff, wr);
                    proof {
                        crate::frac::lemma_ops_valid(bcoeff.frac(), wr.frac());
                        crate::frac::lemma_equiv_refl(wr.frac());
                        crate::frac::lemma_mul_congruence(bcoeff.frac(), frac_of_int(mu * mv), wr.frac(), control_value(*e, 3));
                        lemma_channel_step(cw, nw, before.w, sw, d_old, d_new, k1u, k2u, frac_mul(bcoeff.frac(), wr.frac()), true);
                    }
                    cur.w = nw;
                }
            }
            proof {
                let d_end = |a: int, b: int| (i <= a < k1 && j <= b <= nv) || (a == k1 && j <= b < nv + 1);
                assert forall|a: int, b: int| #[trigger] row_new(a, b) == d_end(a, b) by {}
                lemma_channel_extend(cur.x, before.x, sx, d_end, row_new);
                lemma_channel_extend(cur.y, before.y, sy, d_end, row_new);
                lemma_channel_extend(cur.z, before.z, sz, d_end, row_new);
                lemma_channel_extend(cur.w, before.w, sw, d_end, row_new);
            }
        }
    }
    proof {
        // outside `[i, nu] x [j, nv]` every share is zero
        let region = |a: int, b: int| i <= a < nu + 1 && j <= b <= nv;
        assert forall|c: int, a: int, b: int| 0 <= c < 4 && 0 <= a && 0 <= b && !region(a, b) implies (#[trigger] cell_share(
            nu as nat,
            nv as nat,
            i as int,
            j as int,
            *e,
            c,
            a,
            b,
        )).num == 0 by {
            if a < i || a > nu {
                lemma_bernstein_zero(nu as nat, i as nat, a as nat);
                assert(0 * bernstein_coeff(nv as nat, j as nat, b as nat) == 0);
            } else {
                lemma_bernstein_zero(nv as nat, j as nat, b as nat);
                assert(bernstein_coeff(nu as nat, i as nat, a as nat) * 0 == 0);
            }
            assert(0 * control_value(*e, c).num == 0);
        }
        lemma_channel_extend(cur.x, before.x, sx, region, all);
        lemma_channel_extend(cur.y, before.y, sy, region, all);
        lemma_channel_extend(cur.z, before.z, sz, region, all);
        lemma_channel_extend(cur.w, before.w, sw, region, all);
    }
    cur
}

/// The cells `(i, j)` of a `(nu + 1) x (nv + 1)` control grid.
pub open spec fn patch_grid(nu: nat, nv: nat) -> Set<(int, int)> {
    Set::new(|ij: (int, int)| 0 <= ij.0 <= nu && 0 <= ij.1 <= nv)
}

/// The coefficient of `u^a v^b` on channel `c` of the patch with control
/// grid `cps`: the sum over the grid of `m_u[i][a] m_v[j][b]` times the
/// homogeneous control values.
pub open spec fn patch_coeff(cps: Seq<Vec<ControlPoint>>, nu: nat, nv: nat, c: int, a: int, b: int) -> Frac {
    set_sum(patch_grid(nu, nv), |ij: (int, int)| cell_share(nu, nv, ij.0, ij.1, cps[ij.0]@[ij.1], c, a, b))
}

/// Converts a `(degree_u + 1) x (degree_v + 1)` grid of weighted control
/// points (one Bézier patch in tensor-product form) into the four
/// homogeneous polynomials of the patch over the local parameters
/// `[0, 1]^2`.
#[verifier::rlimit(40)]
pub fn bezier_grid_to_patch(degree_u: u32, degree_v: u32, cps: &Vec<Vec<ControlPoint>>) -> (patch: PatchPolys)
    requires
        degree_u < usize::MAX,
        degree_v < usize::MAX,
        cps@.len() == degree_u + 1,
        forall|i: int| 0 <= i <= degree_u ==> (#[trigger] cps@[i])@.len() == degree_v + 1,
        forall|i: int, j: int|
            0 <= i <= degree_u && 0 <= j <= degree_v ==> (#[trigger] cps@[i]@[j]).0.wf() && cps@[i]@[j].1.wf()
                && cps@[i]@[j].2.wf() && cps@[i]@[j].3.wf(),
    ensures
        patch.wf(),
        forall|c: int, a: u32, b: u32|
            0 <= c < 4 ==> frac_equiv(
                #[trigger] patch.channel(c).coeff_spec(a, b),
                patch_coeff(cps@, degree_u as nat, degree_v as nat, c, a as int, b as int),
            ),
{
    let pu = bernstein_power_matrix(degree_u);
    let pv = bernstein_power_matrix(degree_v);
    let nu = degree_u as usize;
    let nv = degree_v as usize;
    let mut patch = PatchPolys { x: BiPoly::zero(), y: BiPoly::zero(), z: BiPoly::zero(), w: BiPoly::zero() };
    let ghost mut done: Set<(int, int)> = Set::empty();
    let ghost sum_fn = |c: int, a: int, b: int|
        (|ij: (int, int)| cell_share(nu as nat, nv as nat, ij.0, ij.1, cps@[ij.0]@[ij.1], c, a, b));
    proof {
        assert forall|c: int, a: u32, b: u32| 0 <= c < 4 implies frac_equiv(
            #[trigger] patch.channel(c).coeff_spec(a, b),
            set_sum(done, sum_fn(c, a as int, b as int)),
        ) by {
            lemma_sum_empty(sum_fn(c, a as int, b as int));
        }
    }
    for i in 0..nu + 1
        invariant
            nu == degree_u,
            nv == degree_v,
            nu < usize::MAX,
            nv < usize::MAX,
            cps@.len() == nu + 1,
            forall|i2: int| 0 <= i2 <= nu ==> (#[trigger] cps@[i2])@.len() == nv + 1,
            forall|i2: int, j2: int|
                0 <= i2 <= nu && 0 <= j2 <= nv ==> (#[trigger] cps@[i2]@[j2]).0.wf() && cps@[i2]@[j2].1.wf()
                    && cps@[i2]@[j2].2.wf() && cps@[i2]@[j2].3.wf(),
            pu@.len() == nu + 1,
            pv@.len() == nv + 1,
            forall|k: int| 0 <= k <= nu ==> (#[trigger] pu@[k])@.len() == nu + 1,
            forall|k: int| 0 <= k <= nv ==> (#[trigger] pv@[k])@.len() == nv + 1,
            forall|k: int, l: int|
                0 <= k <= nu && 0 <= l <= nu ==> holds_int(#[trigger] pu@[k]@[l], bernstein_coeff(nu as nat, k as nat, l as nat)),
            forall|k: int, l: int|
                0 <= k <= nv && 0 <= l <= nv ==> holds_int(#[trigger] pv@[k]@[l], bernstein_coeff(nv as nat, k as nat, l as nat)),
            sum_fn == (|c: int, a: int, b: int|
                (|ij: (int, int)| cell_share(nu as nat, nv as nat, ij.0, ij.1, cps@[ij.0]@[ij.1], c, a, b))),
            patch.wf(),
            done.finite(),
            forall|ij: (int, int)| #[trigger] done.contains(ij) <==> 0 <= ij.0 < i && 0 <= ij.1 <= nv,
            forall|c: int, a: u32, b: u32|
                0 <= c < 4 ==> frac_equiv(
                    #[trigger] patch.channel(c).coeff_spec(a, b),
                    set_sum(done, sum_fn(c, a as int, b as int)),
                ),
    {
        for j in 0..nv + 1
            invariant
                nu == degree_u,
                nv == degree_v,
                nu < usize::MAX,
                nv < usize::MAX,
                i <= nu,
                cps@.len() == nu + 1,
                forall|i2: int| 0 <= i2 <= nu ==> (#[trigger] cps@[i2])@.len() == nv + 1,
                forall|i2: int, j2: int|
                    0 <= i2 <= nu && 0 <= j2 <= nv ==> (#[trigger] cps@[i2]@[j2]).0.wf() && cps@[i2]@[j2].1.wf()
                        && cps@[i2]@[j2].2.wf() && cps@[i2]@[j2].3.wf(),
                pu@.len() == nu + 1,
                pv@.len() == nv + 1,
                forall|k: int| 0 <= k <= nu ==> (#[trigger] pu@[k])@.len() == nu + 1,
                forall|k: int| 0 <= k <= nv ==> (#[trigger] pv@[k])@.len() == nv + 1,
                forall|k: int, l: int|
                    0 <= k <= nu && 0 <= l <= nu ==> holds_int(#[trigger] pu@[k]@[l], bernstein_coeff(nu as nat, k as nat, l as nat)),
                forall|k: int, l: int|
                    0 <= k <= nv && 0 <= l <= nv ==> holds_int(#[trigger] pv@[k]@[l], bernstein_coeff(nv as nat, k as nat, l as nat)),
                sum_fn == (|c: int, a: int, b: int|
                    (|ij: (int, int)| cell_share(nu as nat, nv as nat, ij.0, ij.1, cps@[ij.0]@[ij.1], c, a, b))),
                patch.wf(),
                done.finite(),
                forall|ij: (int, int)|
                    #[trigger] done.contains(ij) <==> (0 <= ij.0 < i && 0 <= ij.1 <= nv) || (ij.0 == i && 0 <= ij.1 < j),
                forall|c: int, a: u32, b: u32|
                    0 <= c < 4 ==> frac_equiv(
                        #[trigger] patch.channel(c).coeff_spec(a, b),
                        set_sum(done, sum_fn(c, a as int, b as int)),
                    ),
        {
            let ghost before = patch;
            let e = &cps[i][j];
            proof {
                assert(e.0.wf() && e.1.wf() && e.2.wf() && e.3.wf());
            }
            patch = accumulate_cell(patch, &pu, &pv, nu, nv, i, j, e);
            proof {
                let cell = (i as int, j as int);
                assert(!done.contains(cell));
                assert forall|c: int, a: u32, b: u32| 0 <= c < 4 implies frac_equiv(
                    #[trigger] patch.channel(c).coeff_spec(a, b),
                    set_sum(done.insert(cell), sum_fn(c, a as int, b as int)),
                ) by {
                    let f = sum_fn(c, a as int, b as int);
                    let sh = cell_share(nu as nat, nv as nat, i as int, j as int, *e, c, a as int, b as int);
                    assert(f(cell) == sh);
                    lemma_sum_insert(done, f, cell);
                    lemma_coeff_valid(before.channel(c), a, b);
                    e.0.lemma_wf();
                    e.1.lemma_wf();
                    e.2.lemma_wf();
                    e.3.lemma_wf();
                    crate::frac::lemma_ops_valid(e.0.frac(), e.3.frac());
                    crate::frac::lemma_ops_valid(e.1.frac(), e.3.frac());
                    crate::frac::lemma_ops_valid(e.2.frac(), e.3.frac());
                    crate::frac::lemma_ops_valid(
                        frac_of_int(bernstein_coeff(nu as nat, i as nat, a as nat) * bernstein_coeff(nv as nat, j as nat, b as nat)),
                        control_value(*e, c),
                    );
                    assert(frac_equiv(patch.channel(c).coeff_spec(a, b), frac_add(before.channel(c).coeff_spec(a, b), sh)));
                    crate::frac::lemma_equiv_refl(sh);
                    crate::frac::lemma_add_chain(
                        patch.channel(c).coeff_spec(a, b),
                        before.channel(c).coeff_spec(a, b),
                        sh,
                        set_sum(done, f),
                        sh,
                    );
                }
                done = done.insert(cell);
            }
        }
    }
    proof {
        assert(done =~= patch_grid(nu as nat, nv as nat));
    }
    patch
}

/// `n!`.
pub open spec fn fact(n: nat) -> nat
    decreases n,
{
    if n == 0 {
        1
    } else {
        n * fact((n - 1) as nat)
    }
}

proof fn lemma_fact_pos(n: nat)
    ensures
        fact(n) > 0,
    decreases n,
{
    if n > 0 {
        lemma_fact_pos((n - 1) as nat);
        assert(n * fact((n - 1) as nat) > 0) by (nonlinear_arith)
            requires
                n > 0,
                fact((n - 1) as nat) > 0,
        ;
    }
}

/// `C(n, k) k! (n - k)! = n!`.
proof fn lemma_binom_fact(n: nat, k: nat)
    requires
        k <= n,
    ensures
        binom(n, k) * fact(k) * fact((n - k) as nat) == fact(n),
    decreases n,
{
    lemma_binom_edges(n, k);
    if k == 0 {
        assert(fact(0) == 1);
        assert(binom(n, 0) == 1);
        assert(1 * 1 * fact(n) == fact(n));
    } else if k == n {
        assert(fact(0) == 1);
        assert(1 * fact(n) * 1 == fact(n));
    } else {
        let n1 = (n - 1) as nat;
        let k1 = (k - 1) as nat;
        lemma_binom_fact(n1, k1);
        lemma_binom_fact(n1, k);
        let a = binom(n1, k1);
        let b = binom(n1, k);
        let fk = fact(k);
        let fk1 = fact(k1);
        let fnk = fact((n - k) as nat);
        let fnk1 = fact((n1 - k) as nat);
        assert(fk == k * fk1);
        assert(fnk == (n - k) * fnk1);
        assert(binom(n, k) == a + b);
        // a (k-1)! (n-k)! = (n-1)! and b k! (n-1-k)! = (n-1)!
        assert(a * fk1 * fnk == fact(n1));
        assert(b * fk * fnk1 == fact(n1));
        assert((a + b) * fk * fnk == (a * fk1 * fnk) * k + (b * fk * fnk1) * (n - k)) by (nonlinear_arith)
            requires
                fk == k * fk1,
                fnk == (n - k) * fnk1,
        ;
        assert(fact(n1) * k + fact(n1) * (n - k) == n * fact(n1)) by (nonlinear_arith);
    }
}

/// `C(n, i) C(n - i, j - i) = C(n, j) C(j, i)` for `i <= j <= n`.
proof fn lemma_binom_revision(n: nat, i: nat, j: nat)
    requires
        i <= j <= n,
    ensures
        binom(n, i) * binom((n - i) as nat, (j - i) as nat) == binom(n, j) * binom(j, i),
{
    lemma_binom_fact(n, i);
    lemma_binom_fact((n - i) as nat, (j - i) as nat);
    lemma_binom_fact(n, j);
    lemma_binom_fact(j, i);
    lemma_fact_pos(i);
    lemma_fact_pos((j - i) as nat);
    lemma_fact_pos((n - j) as nat);
    let fi = fact(i);
    let fji = fact((j - i) as nat);
    let fnj = fact((n - j) as nat);
    let fni = fact((n - i) as nat);
    let fj = fact(j);
    let l = binom(n, i) * binom((n - i) as nat, (j - i) as nat);
    let r = binom(n, j) * binom(j, i);
    assert(((n - i) as nat - (j - i) as nat) as nat == (n - j) as nat);
    // both products times i! (j - i)! (n - j)! equal n!
    assert(l * (fi * fji * fnj) == fact(n)) by (nonlinear_arith)
        requires
            l == binom(n, i) * binom((n - i) as nat, (j - i) as nat),
            binom(n, i) * fi * fni == fact(n),
            binom((n - i) as nat, (j - i) as nat) * fji * fnj == fni,
    ;
    assert(r * (fi * fji * fnj) == fact(n)) by (nonlinear_arith)
        requires
            r == binom(n, j) * binom(j, i),
            binom(n, j) * fj * fnj == fact(n),
            binom(j, i) * fi * fji == fj,
    ;
    assert(fi * fji * fnj > 0) by (nonlinear_arith)
        requires
            fi > 0,
            fji > 0,
            fnj > 0,
    ;
    assert(l == r) by (nonlinear_arith)
        requires
            l * (fi * fji * fnj) == r * (fi * fji * fnj),
            fi * fji * fnj > 0,
    ;
}

/// `(-1)^i`.
pub open spec fn parity_sign(i: int) -> int {
    if i % 2 == 0 {
        1
    } else {
        -1
    }
}

/// `sum over i < m of (-1)^i C(j, i)`.
pub open spec fn alternating_prefix(j: nat, m: nat) -> int
    decreases m,
{
    if m == 0 {
        0
    } else {
        alternating_prefix(j, (m - 1) as nat) + parity_sign(m - 1) * binom(j, (m - 1) as nat)
    }
}

/// The alternating prefix sums of a row of Pascal's triangle are
/// differences of those of the row above.
proof fn lemma_alternating_pascal(j: nat, m: nat)
    requires
        j >= 1,
        m >= 1,
    ensures
        alternating_prefix(j, m) == alternating_prefix((j - 1) as nat, m) - alternating_prefix(
            (j - 1) as nat,
            (m - 1) as nat,
        ),
    decreases m,
{
    let j1 = (j - 1) as nat;
    if m == 1 {
        assert(alternating_prefix(j, 0) == 0);
        assert(alternating_prefix(j1, 0) == 0);
        assert(parity_sign(0) == 1);
        assert(binom(j, 0) == 1 && binom(j1, 0) == 1);
        assert(alternating_prefix(j, 1) == 1);
        assert(alternating_prefix(j1, 1) == 1);
    } else {
        let m1 = (m - 1) as nat;
        let m2 = (m - 2) as nat;
        lemma_alternating_pascal(j, m1);
        let s1 = parity_sign(m1 as int);
        let s2 = parity_sign(m2 as int);
        assert(s1 == -s2);
        assert(binom(j, m1) == binom(j1, m2) + binom(j1, m1));
        assert(s1 * (binom(j1, m2) + binom(j1, m1)) == s1 * binom(j1, m2) + s1 * binom(j1, m1)) by (nonlinear_arith);
        assert(s1 * binom(j1, m2) == -(s2 * binom(j1, m2))) by (nonlinear_arith)
            requires
                s1 == -s2,
        ;
    }
}

/// `sum over i <= j of (-1)^i C(j, i)` is 1 for `j = 0` and 0 otherwise.
proof fn lemma_alternating_sum(j: nat)
    ensures
        alternating_prefix(j, j + 1) == if j == 0 {
            1int
        } else {
            0int
        },
{
    if j == 0 {
        assert(alternating_prefix(0, 0) == 0);
        assert(parity_sign(0) == 1);
        assert(binom(0, 0) == 1);
        assert(alternating_prefix(j, j + 1) == alternating_prefix(j, j) + parity_sign(j as int) * binom(j, j));
    } else {
        let j1 = (j - 1) as nat;
        lemma_alternating_pascal(j, j + 1);
        lemma_binom_edges(j1, j);
        assert(alternating_prefix(j1, j + 1) == alternating_prefix(j1, j) + parity_sign(j as int) * binom(j1, j));
        assert(parity_sign(j as int) * 0 == 0);
    }
}

/// `sum over i < m of m_n[i][j]`: a column of the Bernstein-to-power
/// matrix, summed over its first `m` rows.
pub open spec fn bernstein_column(n: nat, j: nat, m: nat) -> int
    decreases m,
{
    if m == 0 {
        0
    } else {
        bernstein_column(n, j, (m - 1) as nat) + bernstein_coeff(n, (m - 1) as nat, j)
    }
}

proof fn lemma_column_prefix(n: nat, j: nat, m: nat)
    requires
        j <= n,
        m <= j + 1,
    ensures
        bernstein_column(n, j, m) == parity_sign(j as int) * binom(n, j) * alternating_prefix(j, m),
    decreases m,
{
    let sj = parity_sign(j as int);
    let c = binom(n, j) as int;
    if m == 0 {
        assert(sj * c * 0 == 0) by (nonlinear_arith);
    } else {
        let i = (m - 1) as nat;
        lemma_column_prefix(n, j, i);
        lemma_binom_revision(n, i, j);
        let si = parity_sign(i as int);
        let sji = parity_sign(j - i);
        assert(sji == sj * si);
        let r = binom(n, j) * binom(j, i);
        let term = binom(n, i) as int * binom((n - i) as nat, (j - i) as nat) as int;
        if (j - i) % 2 == 0 {
            assert(sji == 1);
            assert(bernstein_coeff(n, i, j) == term);
            assert(sji * term == term);
        } else {
            assert(sji == -1);
            assert(bernstein_coeff(n, i, j) == -term);
            assert(sji * term == -term);
        }
        assert(term == r);
        let pa = alternating_prefix(j, i);
        assert(sji * r == sj * c * (si * binom(j, i))) by (nonlinear_arith)
            requires
                sji == sj * si,
                r == c * binom(j, i),
        ;
        assert(sj * c * pa + sj * c * (si * binom(j, i)) == sj * c * (pa + si * binom(j, i))) by (nonlinear_arith);
    }
}

proof fn lemma_column_tail(n: nat, j: nat, m: nat)
    requires
        j <= n,
        j + 1 <= m,
    ensures
        bernstein_column(n, j, m) == bernstein_column(n, j, j + 1),
    decreases m,
{
    if m > j + 1 {
        lemma_column_tail(n, j, (m - 1) as nat);
        assert(bernstein_coeff(n, (m - 1) as nat, j) == 0);
    }
}

/// The Bernstein polynomials of degree `n` sum to the constant 1: in each
/// column `j` of the Bernstein-to-power matrix the entries add up to 1
/// for `j = 0` and to 0 otherwise.
pub proof fn law_bernstein_partition_of_unity(n: nat, j: nat)
    requires
        j <= n,
    ensures
        bernstein_column(n, j, n + 1) == if j == 0 {
            1int
        } else {
            0int
        },
{
    lemma_column_tail(n, j, n + 1);
    lemma_column_prefix(n, j, j + 1);
    lemma_alternating_sum(j);
    let sj = parity_sign(j as int);
    let c = binom(n, j) as int;
    if j == 0 {
        assert(binom(n, 0) == 1);
        assert(sj * c * 1 == 1);
    } else {
        assert(sj * c * 0 == 0) by (nonlinear_arith);
    }
}

/// At `t = 0` only the first Bernstein polynomial is nonzero, with value 1:
/// the constant coefficients are 1 for `i = 0` and 0 otherwise.
pub proof fn law_bernstein_at_zero(n: nat, i: nat)
    requires
        i <= n,
    ensures
        bernstein_coeff(n, i, 0) == if i == 0 {
            1int
        } else {
            0int
        },
{
    if i == 0 {
        assert(binom(n, 0) == 1);
        assert(binom(n, 0) as int * binom(n, 0) as int == 1);
    }
}

} // verus!
