//! Sparse bivariate polynomials with exact rational coefficients.
//!
//! P(x, y) = sum of c_ij x^i y^j over the stored terms, keyed by
//! `(i, j)`; only nonzero coefficients are stored.

use std::collections::BTreeMap;
use vstd::prelude::*;
use vstd::std_specs::btree::{increasing_seq, key_obeys_cmp_spec};
use vstd::std_specs::cmp::OrdSpec;
use vstd::std_specs::iter::IteratorSpec;

use crate::sums::{lemma_sum_empty, lemma_sum_insert, set_sum};

use crate::frac::{frac_pow, lemma_pow_valid, frac_add, frac_equiv, frac_mul, frac_of_int, frac_sub, frac_valid, Frac};
use crate::rational::ExactRational;

verus! {

broadcast use {vstd::std_specs::btree::group_btree_axioms, vstd::laws_cmp::group_laws_cmp};

/// The coefficient stored under `k` in `m`, zero when absent.
pub open spec fn map_coeff(m: Map<(u32, u32), ExactRational>, k: (u32, u32)) -> Frac {
    if m.contains_key(k) {
        m[k].frac()
    } else {
        frac_of_int(0)
    }
}

/// All stored coefficients are well formed and nonzero.
pub open spec fn terms_wf(m: Map<(u32, u32), ExactRational>) -> bool {
    forall|k: (u32, u32)| #[trigger] m.contains_key(k) ==> m[k].wf() && m[k].frac().num != 0
}

/// Lexicographic order on exponent pairs.
pub open spec fn key_less(a: (u32, u32), b: (u32, u32)) -> bool {
    a.0 < b.0 || (a.0 == b.0 && a.1 < b.1)
}

/// Maps keyed by exponent pairs obey the ordering laws.
proof fn lemma_key_order()
    ensures
        key_obeys_cmp_spec::<(u32, u32)>(),
{
    assert(vstd::laws_cmp::obeys_cmp::<u32>());
    assert(vstd::laws_cmp::obeys_cmp::<(u32, u32)>());
}

/// A map's iteration yields its keys in strictly increasing order.
proof fn lemma_iter_keys_sorted<'a>(
    m: &'a BTreeMap<(u32, u32), ExactRational>,
    iter: std::collections::btree_map::Iter<'a, (u32, u32), ExactRational>,
)
    requires
        increasing_seq(iter.remaining().map_values(|kv: (&(u32, u32), &ExactRational)| *kv.0)),
    ensures
        forall|t: int, u: int|
            0 <= t < u < iter.remaining().len() ==> key_less(
                *(#[trigger] iter.remaining()[t]).0,
                *(#[trigger] iter.remaining()[u]).0,
            ),
{
    let keys = iter.remaining().map_values(|kv: (&(u32, u32), &ExactRational)| *kv.0);
    assert(vstd::laws_cmp::obeys_cmp::<u32>());
    assert(vstd::laws_cmp::obeys_cmp::<(u32, u32)>());
    assert forall|t: int, u: int|
        0 <= t < u < iter.remaining().len() implies key_less(
        *(#[trigger] iter.remaining()[t]).0,
        *(#[trigger] iter.remaining()[u]).0,
    ) by {
        assert(keys[t] == *iter.remaining()[t].0);
        assert(keys[u] == *iter.remaining()[u].0);
        assert(keys[t].cmp_spec(&keys[u]) is Less);
    }
}

/// The coefficient of a sum or difference at `k`.
pub open spec fn combine_target(
    a: Map<(u32, u32), ExactRational>,
    b: Map<(u32, u32), ExactRational>,
    subtract: bool,
    k: (u32, u32),
) -> Frac {
    if subtract {
        frac_sub(map_coeff(a, k), map_coeff(b, k))
    } else {
        frac_add(map_coeff(a, k), map_coeff(b, k))
    }
}

/// The degree measured by `which`: `i + j` (0), `i` (1) or `j` (otherwise).
pub open spec fn degree_measure(which: u8, k: (u32, u32)) -> int {
    if which == 0 {
        k.0 + k.1
    } else if which == 1 {
        k.0 as int
    } else {
        k.1 as int
    }
}

/// The exponent of the variable differentiated.
pub open spec fn derivative_exponent(by_y: bool, k: (u32, u32)) -> u32 {
    if by_y {
        k.1
    } else {
        k.0
    }
}

/// The term whose derivative lands on exponent `k`: one degree higher in
/// the variable differentiated (wrapping past the largest exponent, where
/// no term lands).
pub open spec fn derivative_source(by_y: bool, k: (u32, u32)) -> (u32, u32) {
    if by_y {
        (k.0, (k.1 + 1) as u32)
    } else {
        ((k.0 + 1) as u32, k.1)
    }
}

/// The coefficient at `k` of a partial derivative: `(e + 1) c` where `c`
/// is the coefficient one degree up and `e` the exponent of the variable
/// at `k`; zero at the largest exponent.
pub open spec fn derivative_target(m: Map<(u32, u32), ExactRational>, by_y: bool, k: (u32, u32)) -> Frac {
    let e = derivative_exponent(by_y, k);
    if e == u32::MAX {
        frac_of_int(0)
    } else {
        frac_mul(map_coeff(m, derivative_source(by_y, k)), frac_of_int(e + 1))
    }
}

proof fn lemma_derivative_source_injective(by_y: bool, a: (u32, u32), b: (u32, u32))
    requires
        derivative_source(by_y, a) == derivative_source(by_y, b),
        derivative_exponent(by_y, a) < u32::MAX,
        derivative_exponent(by_y, b) < u32::MAX,
    ensures
        a == b,
{
}

/// A set's iteration yields its elements in strictly increasing order.
proof fn lemma_u32_iter_sorted<'a>(iter: std::collections::btree_set::Iter<'a, u32>)
    requires
        increasing_seq(iter.remaining()),
    ensures
        forall|t: int, u: int|
            0 <= t < u < iter.remaining().len() ==> *(#[trigger] iter.remaining()[t]) < *(#[trigger] iter.remaining()[u]),
{
    assert(vstd::laws_cmp::obeys_cmp::<u32>());
    assert(vstd::laws_cmp::obeys_cmp::<&u32>());
    assert forall|t: int, u: int|
        0 <= t < u < iter.remaining().len() implies *(#[trigger] iter.remaining()[t]) < *(#[trigger] iter.remaining()[u]) by {
        assert(OrdSpec::cmp_spec(&iter.remaining()[t], &iter.remaining()[u]) is Less);
    }
}

/// A pair of exponents, one from each factor of a product.
pub type ExpPair = ((u32, u32), (u32, u32));

/// Do the two exponents of `ab` add up to `k`?
pub open spec fn pair_sums_to(ab: ExpPair, k: (u32, u32)) -> bool {
    ab.0.0 + ab.1.0 == k.0 && ab.0.1 + ab.1.1 == k.1
}

/// The product of the two coefficients that `ab` selects.
pub open spec fn pair_product(
    pm: Map<(u32, u32), ExactRational>,
    qm: Map<(u32, u32), ExactRational>,
    ab: ExpPair,
) -> Frac {
    frac_mul(map_coeff(pm, ab.0), map_coeff(qm, ab.1))
}

/// The sum of `p_a q_b` over the pairs `(a, b)` of `s` with `a + b = k`.
pub open spec fn sum_products_to(
    pm: Map<(u32, u32), ExactRational>,
    qm: Map<(u32, u32), ExactRational>,
    s: Set<ExpPair>,
    k: (u32, u32),
) -> Frac {
    set_sum(s.filter(|ab: ExpPair| pair_sums_to(ab, k)), |ab: ExpPair| pair_product(pm, qm, ab))
}

/// All pairs of exponents with the first in `ps` and the second in `qs`.
pub open spec fn support_pairs(ps: Set<(u32, u32)>, qs: Set<(u32, u32)>) -> Set<ExpPair> {
    Set::new(|ab: ExpPair| ps.contains(ab.0) && qs.contains(ab.1))
}

/// The coefficient at `k` of a product: the sum of `p_a q_b` over all
/// exponents `a` of `p` and `b` of `q` with `a + b = k`.
pub open spec fn mul_target(
    pm: Map<(u32, u32), ExactRational>,
    qm: Map<(u32, u32), ExactRational>,
    k: (u32, u32),
) -> Frac {
    sum_products_to(pm, qm, support_pairs(pm.dom(), qm.dom()), k)
}

/// The value at `(x, y)` of the term with exponents `k`: `c x^i y^j`.
pub open spec fn term_value(m: Map<(u32, u32), ExactRational>, k: (u32, u32), x: Frac, y: Frac) -> Frac {
    frac_mul(frac_mul(map_coeff(m, k), frac_pow(x, k.0 as nat)), frac_pow(y, k.1 as nat))
}

/// `groups` regroups `p` by powers of `y`: one group for each power that
/// occurs, in increasing order, holding the coefficients of that power as
/// a polynomial in `x` alone.
pub open spec fn collected_by_y(p: BiPoly, groups: Seq<(u32, BiPoly)>) -> bool {
    &&& forall|g: int, h: int| 0 <= g < h < groups.len() ==> (#[trigger] groups[g]).0 < (#[trigger] groups[h]).0
    &&& forall|j: u32| p.has_y_exponent(j) <==> exists|g: int| 0 <= g < groups.len() && (#[trigger] groups[g]).0 == j
    &&& forall|g: int|
        0 <= g < groups.len() ==> (#[trigger] groups[g]).1.wf() && (forall|i: u32, e: u32|
            #[trigger] groups[g].1.support().contains((i, e)) <==> e == 0 && p.support().contains((i, groups[g].0)))
            && (forall|i: u32| #[trigger] groups[g].1.coeff_spec(i, 0) == p.coeff_spec(i, groups[g].0))
}

/// A sparse bivariate polynomial with exact rational coefficients.
pub struct BiPoly {
    terms: BTreeMap<(u32, u32), ExactRational>,
}

impl BiPoly {
    /// The stored terms.
    pub closed spec fn terms_view(&self) -> Map<(u32, u32), ExactRational> {
        self.terms@
    }

    /// Every stored coefficient is a well-formed, nonzero rational.
    pub open spec fn wf(&self) -> bool {
        terms_wf(self.terms_view())
    }

    /// The coefficient of `x^i y^j`.
    pub open spec fn coeff_spec(&self, i: u32, j: u32) -> Frac {
        map_coeff(self.terms_view(), (i, j))
    }

    /// The exponents with a nonzero coefficient.
    pub open spec fn support(&self) -> Set<(u32, u32)> {
        self.terms_view().dom()
    }

    /// The value at `(x, y)` of each term, `c x^i y^j` (zero off the support).
    pub open spec fn term_fn(&self, x: Frac, y: Frac) -> spec_fn((u32, u32)) -> Frac {
        |k: (u32, u32)| term_value(self.terms_view(), k, x, y)
    }

    /// The value at `(x, y)`: the sum of `c x^i y^j` over the terms.
    pub open spec fn eval_spec(&self, x: Frac, y: Frac) -> Frac {
        set_sum(self.support(), self.term_fn(x, y))
    }

    /// A polynomial has finitely many terms.
    pub proof fn lemma_support_finite(&self)
        ensures
            self.support().finite(),
    {
        assert(self.terms@.dom().finite());
    }

    /// Zero polynomial.
    pub fn zero() -> (p: BiPoly)
        ensures
            p.wf(),
            p.support() == Set::<(u32, u32)>::empty(),
    {
        BiPoly { terms: BTreeMap::new() }
    }

    /// Constant polynomial.
    pub fn constant(c: ExactRational) -> (p: BiPoly)
        requires
            c.wf(),
        ensures
            p.wf(),
            c.frac().num == 0 ==> p.support() == Set::<(u32, u32)>::empty(),
            c.frac().num != 0 ==> p.support() == set![(0u32, 0u32)] && p.coeff_spec(0, 0)
                == c.frac(),
    {
        Self::monomial(0, 0, c)
    }

    /// Single monomial `c x^i y^j`.
    pub fn monomial(i: u32, j: u32, c: ExactRational) -> (p: BiPoly)
        requires
            c.wf(),
        ensures
            p.wf(),
            c.frac().num == 0 ==> p.support() == Set::<(u32, u32)>::empty(),
            c.frac().num != 0 ==> p.support() == set![(i, j)] && p.coeff_spec(i, j) == c.frac(),
    {
        let mut terms: BTreeMap<(u32, u32), ExactRational> = BTreeMap::new();
        if !c.is_zero() {
            terms.insert((i, j), c);
        }
        let p = BiPoly { terms };
        assert(p.support() =~= (if c.frac().num == 0 { Set::empty() } else { set![(i, j)] }));
        p
    }

    /// The variable x.
    pub fn x() -> (p: BiPoly)
        ensures
            p.wf(),
            p.support() == set![(1u32, 0u32)],
            p.coeff_spec(1, 0) == frac_of_int(1),
    {
        Self::monomial(1, 0, ExactRational::from_i64(1))
    }

    /// The variable y.
    pub fn y() -> (p: BiPoly)
        ensures
            p.wf(),
            p.support() == set![(0u32, 1u32)],
            p.coeff_spec(0, 1) == frac_of_int(1),
    {
        Self::monomial(0, 1, ExactRational::from_i64(1))
    }

    /// Is this the zero polynomial?
    pub fn is_zero(&self) -> (b: bool)
        ensures
            b == (self.support() == Set::<(u32, u32)>::empty()),
    {
        let b = self.terms.is_empty();
        assert(b == (self.support() =~= Set::<(u32, u32)>::empty()));
        b
    }

    /// Number of nonzero terms.
    pub fn num_terms(&self) -> (n: usize)
        ensures
            n == self.support().len(),
    {
        self.terms.len()
    }

    /// The coefficient of `x^i y^j` (zero when there is no such term).
    pub fn coeff(&self, i: u32, j: u32) -> (c: ExactRational)
        requires
            self.wf(),
        ensures
            c.wf(),
            c.frac() == self.coeff_spec(i, j),
    {
        match self.terms.get(&(i, j)) {
            Some(c) => c.copy(),
            None => ExactRational::zero(),
        }
    }

    /// The terms as `(i, j, coefficient)` triples in increasing order of
    /// `(i, j)`.
    pub fn terms_list(&self) -> (v: Vec<(u32, u32, ExactRational)>)
        requires
            self.wf(),
        ensures
            v@.len() == self.support().len(),
            forall|t: int|
                0 <= t < v@.len() ==> self.support().contains(((#[trigger] v@[t]).0, v@[t].1))
                    && v@[t].2.wf() && v@[t].2.frac() == self.coeff_spec(v@[t].0, v@[t].1),
            forall|t: int, u: int|
                0 <= t < u < v@.len() ==> (#[trigger] v@[t]).0 < (#[trigger] v@[u]).0 || (v@[t].0
                    == v@[u].0 && v@[t].1 < v@[u].1),
            forall|k: (u32, u32)|
                #[trigger] self.support().contains(k) ==> exists|t: int|
                    0 <= t < v@.len() && v@[t].0 == k.0 && v@[t].1 == k.1,
    {
        let mut v: Vec<(u32, u32, ExactRational)> = Vec::new();
        proof {
            lemma_key_order();
        }
        let iter = self.terms.iter();
        proof {
            lemma_iter_keys_sorted(&self.terms, iter);
        }
        for kv in it: iter
            invariant
                self.wf(),
                v@.len() == it.index(),
                forall|t: int|
                    0 <= t < v@.len() ==> (#[trigger] v@[t]).0 == (*it.seq()[t].0).0 && v@[t].1 == (
                    *it.seq()[t].0).1 && v@[t].2.wf() && v@[t].2.frac() == (*it.seq()[t].1).frac(),
                forall|t: int|
                    0 <= t < it.seq().len() ==> self.terms_view().contains_key(*it.seq()[t].0)
                        && self.terms_view()[*it.seq()[t].0] == *it.seq()[t].1,
                it.seq().len() == self.support().len(),
                forall|t: int, u: int|
                    0 <= t < u < it.seq().len() ==> key_less(*(#[trigger] it.seq()[t]).0, *(#[trigger] it.seq()[u]).0),
                forall|k: (u32, u32)|
                    #[trigger] self.terms_view().contains_key(k) ==> (exists|t: int|
                        0 <= t < v@.len() && v@[t].0 == k.0 && v@[t].1 == k.1) || exists|t: int|
                        it.index() <= t < it.seq().len() && *it.seq()[t].0 == k,
        {
            let (k, c) = kv;
            let ghost idx = it.index();
            let ghost v0 = v@;
            v.push((k.0, k.1, c.copy()));
            proof {
                assert forall|k2: (u32, u32)| #[trigger] self.terms_view().contains_key(k2) implies (exists|t: int|
                    0 <= t < v@.len() && v@[t].0 == k2.0 && v@[t].1 == k2.1) || exists|t: int|
                    idx + 1 <= t < it.seq().len() && *it.seq()[t].0 == k2 by {
                    if exists|t: int| idx <= t < it.seq().len() && *it.seq()[t].0 == k2 {
                        let t = choose|t: int| idx <= t < it.seq().len() && *it.seq()[t].0 == k2;
                        if t == idx {
                            assert(v@[idx].0 == k2.0 && v@[idx].1 == k2.1);
                        }
                    } else {
                        let t = choose|t: int| 0 <= t < v0.len() && v0[t].0 == k2.0 && v0[t].1 == k2.1;
                        assert(v@[t] == v0[t]);
                    }
                }
            }
        }
        proof {
            assert forall|k: (u32, u32)| #[trigger] self.support().contains(k) implies exists|t: int|
                0 <= t < v@.len() && v@[t].0 == k.0 && v@[t].1 == k.1 by {
                assert(self.terms_view().contains_key(k));
            }
        }
        v
    }

    /// A copy of the stored terms.
    fn copy_terms(&self) -> (m: BTreeMap<(u32, u32), ExactRational>)
        requires
            self.wf(),
        ensures
            terms_wf(m@),
            m@.dom() == self.support(),
            forall|k: (u32, u32)| map_coeff(m@, k) == #[trigger] map_coeff(self.terms_view(), k),
    {
        proof {
            lemma_key_order();
        }
        let mut m: BTreeMap<(u32, u32), ExactRational> = BTreeMap::new();
        for kv in it: self.terms.iter()
            invariant
                self.wf(),
                forall|k: (u32, u32)|
                    #[trigger] m@.contains_key(k) ==> self.terms_view().contains_key(k) && m@[k].wf()
                        && m@[k].frac() == self.terms_view()[k].frac(),
                forall|k: (u32, u32)|
                    #[trigger] self.terms_view().contains_key(k) ==> m@.contains_key(k) || exists|t: int|
                        it.index() <= t < it.seq().len() && *it.seq()[t].0 == k,
                forall|t: int|
                    0 <= t < it.seq().len() ==> self.terms_view().contains_key(*it.seq()[t].0)
                        && self.terms_view()[*it.seq()[t].0] == *it.seq()[t].1,
        {
            let (k, c) = kv;
            m.insert(*k, c.copy());
        }
        assert(m@.dom() =~= self.support());
        m
    }

    /// The sum (`subtract == false`) or difference of two polynomials.
    fn combine(&self, other: &BiPoly, subtract: bool) -> (r: BiPoly)
        requires
            self.wf(),
            other.wf(),
        ensures
            r.wf(),
            forall|i: u32, j: u32|
                frac_equiv(
                    #[trigger] r.coeff_spec(i, j),
                    combine_target(self.terms_view(), other.terms_view(), subtract, (i, j)),
                ),
    {
        let mut result = self.copy_terms();
        proof {
            lemma_key_order();
            assert forall|k: (u32, u32)| !other.terms_view().contains_key(k) implies frac_equiv(
                #[trigger] map_coeff(result@, k),
                combine_target(self.terms_view(), other.terms_view(), subtract, k),
            ) by {
                let x = map_coeff(self.terms_view(), k);
                if self.terms_view().contains_key(k) {
                    self.terms_view()[k].lemma_wf();
                }
                assert(x.num * 1 + 0 * x.den == x.num);
                assert(x.num * 1 - 0 * x.den == x.num);
                assert(x.den * 1 == x.den);
            }
        }
        let iter = other.terms.iter();
        proof {
            lemma_iter_keys_sorted(&other.terms, iter);
        }
        for kv in it: iter
            invariant
                self.wf(),
                other.wf(),
                terms_wf(result@),
                forall|t: int, u: int|
                    0 <= t < u < it.seq().len() ==> key_less(*(#[trigger] it.seq()[t]).0, *(#[trigger] it.seq()[u]).0),
                forall|t: int|
                    0 <= t < it.seq().len() ==> other.terms_view().contains_key(*it.seq()[t].0)
                        && other.terms_view()[*it.seq()[t].0] == *it.seq()[t].1,
                forall|k: (u32, u32)|
                    frac_equiv(
                        #[trigger] map_coeff(result@, k),
                        combine_target(self.terms_view(), other.terms_view(), subtract, k),
                    ) || exists|t: int| it.index() <= t < it.seq().len() && *it.seq()[t].0 == k,
                forall|k: (u32, u32)|
                    (exists|t: int| it.index() <= t < it.seq().len() && *it.seq()[t].0 == k) ==> #[trigger] map_coeff(result@, k)
                        == map_coeff(self.terms_view(), k),
        {
            let (k, c) = kv;
            let ghost kk = *k;
            let ghost idx = it.index();
            let ghost r0 = result@;
            proof {
                assert(c.wf() && c.frac().num != 0);
                assert(map_coeff(r0, kk) == map_coeff(self.terms_view(), kk));
            }
            let newc = match result.get(k) {
                Some(a) => {
                    if subtract {
                        a.sub(c)
                    } else {
                        a.add(c)
                    }
                },
                None => {
                    if subtract {
                        c.neg()
                    } else {
                        c.copy()
                    }
                },
            };
            let ghost target = combine_target(self.terms_view(), other.terms_view(), subtract, kk);
            proof {
                assert(map_coeff(other.terms_view(), kk) == c.frac());
                newc.lemma_wf();
                c.lemma_wf();
                let z = c.frac();
                assert(z.num * 1 == z.num && 1 * z.den == z.den && 0 * z.den == 0);
                assert(frac_equiv(newc.frac(), target));
            }
            if newc.is_zero() {
                result.remove(k);
                proof {
                    crate::frac::lemma_equiv_zero(newc.frac(), target);
                }
            } else {
                result.insert(*k, newc);
            }
            proof {
                assert forall|k2: (u32, u32)|
                    frac_equiv(
                        #[trigger] map_coeff(result@, k2),
                        combine_target(self.terms_view(), other.terms_view(), subtract, k2),
                    ) || exists|t: int| idx + 1 <= t < it.seq().len() && *it.seq()[t].0 == k2 by {
                    if k2 != kk {
                        assert(map_coeff(result@, k2) == map_coeff(r0, k2));
                        if exists|t: int| idx <= t < it.seq().len() && *it.seq()[t].0 == k2 {
                            let t = choose|t: int| idx <= t < it.seq().len() && *it.seq()[t].0 == k2;
                            assert(t != idx);
                        }
                    }
                }
                assert forall|k2: (u32, u32)|
                    (exists|t: int| idx + 1 <= t < it.seq().len() && *it.seq()[t].0 == k2) implies #[trigger] map_coeff(result@, k2)
                        == map_coeff(self.terms_view(), k2) by {
                    let t = choose|t: int| idx + 1 <= t < it.seq().len() && *it.seq()[t].0 == k2;
                    assert(key_less(*it.seq()[idx].0, *it.seq()[t].0));
                    assert(k2 != kk);
                    assert(map_coeff(result@, k2) == map_coeff(r0, k2));
                }
            }
        }
        BiPoly { terms: result }
    }

    /// Add two polynomials.
    pub fn add(&self, other: &BiPoly) -> (r: BiPoly)
        requires
            self.wf(),
            other.wf(),
        ensures
            r.wf(),
            forall|i: u32, j: u32|
                frac_equiv(
                    #[trigger] r.coeff_spec(i, j),
                    frac_add(self.coeff_spec(i, j), other.coeff_spec(i, j)),
                ),
    {
        let r = self.combine(other, false);
        assert(forall|i: u32, j: u32| #[trigger] combine_target(self.terms_view(), other.terms_view(), false, (i, j)) == frac_add(self.coeff_spec(i, j), other.coeff_spec(i, j)));
        r
    }

    /// Subtract: `self - other`.
    pub fn sub(&self, other: &BiPoly) -> (r: BiPoly)
        requires
            self.wf(),
            other.wf(),
        ensures
            r.wf(),
            forall|i: u32, j: u32|
                frac_equiv(
                    #[trigger] r.coeff_spec(i, j),
                    frac_sub(self.coeff_spec(i, j), other.coeff_spec(i, j)),
                ),
    {
        let r = self.combine(other, true);
        assert(forall|i: u32, j: u32| #[trigger] combine_target(self.terms_view(), other.terms_view(), true, (i, j)) == frac_sub(self.coeff_spec(i, j), other.coeff_spec(i, j)));
        r
    }
    /// Multiply two polynomials.
    #[verifier::rlimit(60)]
    pub fn mul(&self, other: &BiPoly) -> (r: BiPoly)
        requires
            self.wf(),
            other.wf(),
            forall|a: (u32, u32), b: (u32, u32)|
                #![trigger self.support().contains(a), other.support().contains(b)]
                self.support().contains(a) && other.support().contains(b) ==> a.0 + b.0 <= u32::MAX
                    && a.1 + b.1 <= u32::MAX,
        ensures
            r.wf(),
            forall|i: u32, j: u32|
                frac_equiv(
                    #[trigger] r.coeff_spec(i, j),
                    mul_target(self.terms_view(), other.terms_view(), (i, j)),
                ),
            r.support() == Set::<(u32, u32)>::empty() <==> (self.support() == Set::<(u32, u32)>::empty()
                || other.support() == Set::<(u32, u32)>::empty()),
    {
        let ghost pm = self.terms_view();
        let ghost qm = other.terms_view();
        let ghost f = |ab: ExpPair| pair_product(pm, qm, ab);
        let mut result: BTreeMap<(u32, u32), ExactRational> = BTreeMap::new();
        let ghost mut done: Set<ExpPair> = Set::empty();
        proof {
            lemma_key_order();
            assert forall|k: (u32, u32)| #[trigger] sum_products_to(pm, qm, done, k) == frac_of_int(0) by {
                assert(done.filter(|ab: ExpPair| pair_sums_to(ab, k)) =~= Set::<ExpPair>::empty());
                lemma_sum_empty(f);
            }
            assert forall|k: (u32, u32)| frac_equiv(#[trigger] map_coeff(result@, k), sum_products_to(pm, qm, done, k)) by {
                assert(map_coeff(result@, k) == frac_of_int(0));
            }
        }
        let iter_p = self.terms.iter();
        proof {
            lemma_iter_keys_sorted(&self.terms, iter_p);
        }
        for kv1 in it1: iter_p
            invariant
                self.wf(),
                other.wf(),
                pm == self.terms_view(),
                qm == other.terms_view(),
                f == (|ab: ExpPair| pair_product(pm, qm, ab)),
                forall|a: (u32, u32), b: (u32, u32)|
                    #![trigger self.support().contains(a), other.support().contains(b)]
                    self.support().contains(a) && other.support().contains(b) ==> a.0 + b.0 <= u32::MAX
                        && a.1 + b.1 <= u32::MAX,
                terms_wf(result@),
                done.finite(),
                forall|t: int, u: int|
                    0 <= t < u < it1.seq().len() ==> key_less(*(#[trigger] it1.seq()[t]).0, *(#[trigger] it1.seq()[u]).0),
                forall|t: int|
                    0 <= t < it1.seq().len() ==> pm.contains_key(*it1.seq()[t].0) && pm[*it1.seq()[t].0] == *it1.seq()[t].1,
                forall|k: (u32, u32)|
                    #[trigger] pm.contains_key(k) ==> exists|t: int| 0 <= t < it1.seq().len() && *it1.seq()[t].0 == k,
                forall|ab: ExpPair|
                    #[trigger] done.contains(ab) <==> (exists|t: int| 0 <= t < it1.index() && *it1.seq()[t].0 == ab.0)
                        && qm.contains_key(ab.1),
                forall|k: (u32, u32)| frac_valid(#[trigger] sum_products_to(pm, qm, done, k)),
                forall|k: (u32, u32)| frac_equiv(#[trigger] map_coeff(result@, k), sum_products_to(pm, qm, done, k)),
        {
            let (a, ca) = kv1;
            let ghost t1 = it1.index();
            let ghost seq1 = it1.seq();
            let ghost done0 = done;
            proof {
                assert(pm.contains_key(*a) && pm[*a] == *ca);
            }
            let iter_q = other.terms.iter();
            proof {
                lemma_iter_keys_sorted(&other.terms, iter_q);
            }
            for kv2 in it2: iter_q
                invariant
                    self.wf(),
                    other.wf(),
                    pm == self.terms_view(),
                    qm == other.terms_view(),
                    f == (|ab: ExpPair| pair_product(pm, qm, ab)),
                    forall|a2: (u32, u32), b: (u32, u32)|
                        #![trigger self.support().contains(a2), other.support().contains(b)]
                        self.support().contains(a2) && other.support().contains(b) ==> a2.0 + b.0 <= u32::MAX
                            && a2.1 + b.1 <= u32::MAX,
                    pm.contains_key(*a),
                    pm[*a] == *ca,
                    0 <= t1 < seq1.len(),
                    *seq1[t1].0 == *a,
                    forall|t: int, u: int|
                        0 <= t < u < seq1.len() ==> key_less(*(#[trigger] seq1[t]).0, *(#[trigger] seq1[u]).0),
                    terms_wf(result@),
                    done.finite(),
                    forall|t: int, u: int|
                        0 <= t < u < it2.seq().len() ==> key_less(*(#[trigger] it2.seq()[t]).0, *(#[trigger] it2.seq()[u]).0),
                    forall|t: int|
                        0 <= t < it2.seq().len() ==> qm.contains_key(*it2.seq()[t].0) && qm[*it2.seq()[t].0] == *it2.seq()[t].1,
                    forall|k: (u32, u32)|
                        #[trigger] qm.contains_key(k) ==> exists|t: int| 0 <= t < it2.seq().len() && *it2.seq()[t].0 == k,
                    forall|ab: ExpPair|
                        #[trigger] done.contains(ab) <==> ((exists|t: int| 0 <= t < t1 && *seq1[t].0 == ab.0)
                            && qm.contains_key(ab.1)) || (ab.0 == *a && exists|u: int|
                            0 <= u < it2.index() && *it2.seq()[u].0 == ab.1),
                    forall|k: (u32, u32)| frac_valid(#[trigger] sum_products_to(pm, qm, done, k)),
                    forall|k: (u32, u32)| frac_equiv(#[trigger] map_coeff(result@, k), sum_products_to(pm, qm, done, k)),
            {
                let (b, cb) = kv2;
                let ghost t2 = it2.index();
                proof {
                    assert(qm.contains_key(*b) && qm[*b] == *cb);
                    assert(self.support().contains(*a) && other.support().contains(*b));
                }
                let key: (u32, u32) = (a.0 + b.0, a.1 + b.1);
                let prod = ca.mul(cb);
                let old = match result.get(&key) {
                    Some(c) => c.copy(),
                    None => ExactRational::zero(),
                };
                let newc = old.add(&prod);
                let ghost pair: ExpPair = (*a, *b);
                let ghost done_before = done;
                let ghost r0 = result@;
                proof {
                    assert(!done.contains(pair)) by {
                        if exists|t: int| 0 <= t < t1 && *seq1[t].0 == pair.0 {
                            let t = choose|t: int| 0 <= t < t1 && *seq1[t].0 == pair.0;
                            assert(key_less(*seq1[t].0, *seq1[t1].0));
                        }
                        if exists|u: int| 0 <= u < t2 && *it2.seq()[u].0 == pair.1 {
                            let u = choose|u: int| 0 <= u < t2 && *it2.seq()[u].0 == pair.1;
                            assert(key_less(*it2.seq()[u].0, *it2.seq()[t2].0));
                        }
                    }
                    let sk = done.filter(|ab: ExpPair| pair_sums_to(ab, key));
                    lemma_sum_insert(sk, f, pair);
                    assert(done.insert(pair).filter(|ab: ExpPair| pair_sums_to(ab, key)) =~= sk.insert(pair));
                    assert(pair_product(pm, qm, pair) == frac_mul(ca.frac(), cb.frac()));
                    ca.lemma_wf();
                    cb.lemma_wf();
                    prod.lemma_wf();
                    old.lemma_wf();
                    assert(old.frac() == map_coeff(result@, key));
                    assert(frac_equiv(old.frac(), sum_products_to(pm, qm, done, key)));
                    crate::frac::lemma_ops_valid(ca.frac(), cb.frac());
                    crate::frac::lemma_equiv_refl(frac_mul(ca.frac(), cb.frac()));
                    crate::frac::lemma_equiv_symm(prod.frac(), frac_mul(ca.frac(), cb.frac()));
                    crate::frac::lemma_add_chain(newc.frac(), old.frac(), prod.frac(),
                        sum_products_to(pm, qm, done, key), pair_product(pm, qm, pair));
                    crate::frac::lemma_ops_valid(sum_products_to(pm, qm, done, key), pair_product(pm, qm, pair));
                    crate::frac::lemma_ops_valid(ca.frac(), cb.frac());
                    done = done.insert(pair);
                    assert(sum_products_to(pm, qm, done, key) == frac_add(sum_products_to(pm, qm, done_before, key), pair_product(pm, qm, pair)));
                    assert forall|k: (u32, u32)| k != key implies #[trigger] sum_products_to(pm, qm, done, k) == sum_products_to(pm, qm, done_before, k) by {
                        assert(done.filter(|ab: ExpPair| pair_sums_to(ab, k)) =~= done_before.filter(|ab: ExpPair| pair_sums_to(ab, k)));
                    }
                }
                if newc.is_zero() {
                    result.remove(&key);
                    proof {
                        newc.lemma_wf();
                        crate::frac::lemma_equiv_zero(newc.frac(), sum_products_to(pm, qm, done, key));
                    }
                } else {
                    result.insert(key, newc);
                }
                proof {
                    assert forall|k: (u32, u32)| frac_equiv(#[trigger] map_coeff(result@, k), sum_products_to(pm, qm, done, k)) by {
                        if k != key {
                            assert(map_coeff(result@, k) == map_coeff(r0, k));
                        }
                    }
                    assert forall|ab: ExpPair|
                        #[trigger] done.contains(ab) <==> ((exists|t: int| 0 <= t < t1 && *seq1[t].0 == ab.0)
                            && qm.contains_key(ab.1)) || (ab.0 == *a && exists|u: int|
                            0 <= u < t2 + 1 && *it2.seq()[u].0 == ab.1) by {
                        if ab == pair {
                            assert(*it2.seq()[t2].0 == ab.1);
                        }
                    }
                }
            }
            proof {
                assert forall|ab: ExpPair|
                    #[trigger] done.contains(ab) <==> (exists|t: int| 0 <= t < t1 + 1 && *seq1[t].0 == ab.0)
                        && qm.contains_key(ab.1) by {
                    if ab.0 == *a && qm.contains_key(ab.1) {
                        assert(*seq1[t1].0 == ab.0);
                    }
                    if exists|t: int| 0 <= t < t1 + 1 && *seq1[t].0 == ab.0 {
                        let t = choose|t: int| 0 <= t < t1 + 1 && *seq1[t].0 == ab.0;
                        if t == t1 {
                            assert(ab.0 == *a);
                        }
                    }
                }
            }
        }
        proof {
            assert(done =~= support_pairs(pm.dom(), qm.dom()));
        }
        let r = BiPoly { terms: result };
        proof {
            crate::evaluation::law_mul_zero(*self, *other, r);
        }
        r
    }

    /// `c * base^n`, by repeated exact multiplication.
    fn times_power(c: &ExactRational, base: &ExactRational, n: u32) -> (r: ExactRational)
        requires
            c.wf(),
            base.wf(),
        ensures
            r.wf(),
            frac_equiv(r.frac(), frac_mul(c.frac(), frac_pow(base.frac(), n as nat))),
    {
        let mut r = c.copy();
        proof {
            c.lemma_wf();
            base.lemma_wf();
            let z = c.frac();
            assert(z.num * 1 == z.num && z.den * 1 == z.den);
            assert(frac_equiv(z, frac_mul(z, frac_pow(base.frac(), 0))));
        }
        for e in 0..n
            invariant
                c.wf(),
                base.wf(),
                r.wf(),
                frac_equiv(r.frac(), frac_mul(c.frac(), frac_pow(base.frac(), e as nat))),
        {
            let next = r.mul(base);
            proof {
                c.lemma_wf();
                base.lemma_wf();
                r.lemma_wf();
                lemma_pow_valid(base.frac(), e as nat);
                crate::frac::lemma_ops_valid(c.frac(), frac_pow(base.frac(), e as nat));
                crate::frac::lemma_equiv_refl(base.frac());
                crate::frac::lemma_mul_chain(next.frac(), r.frac(), base.frac(),
                    frac_mul(c.frac(), frac_pow(base.frac(), e as nat)), base.frac());
                crate::frac::lemma_mul_assoc(c.frac(), frac_pow(base.frac(), e as nat), base.frac());
                assert(frac_pow(base.frac(), (e + 1) as nat) == frac_mul(frac_pow(base.frac(), e as nat), base.frac()));
            }
            r = next;
        }
        r
    }

    /// Evaluate at `(x, y)` with exact arithmetic.
    pub fn eval(&self, x: &ExactRational, y: &ExactRational) -> (r: ExactRational)
        requires
            self.wf(),
            x.wf(),
            y.wf(),
        ensures
            r.wf(),
            frac_equiv(r.frac(), self.eval_spec(x.frac(), y.frac())),
    {
        let ghost m = self.terms_view();
        let ghost f = self.term_fn(x.frac(), y.frac());
        let ghost mut done: Set<(u32, u32)> = Set::empty();
        let mut result = ExactRational::zero();
        proof {
            lemma_key_order();
            lemma_sum_empty(f);
            crate::frac::lemma_equiv_refl(frac_of_int(0));
            x.lemma_wf();
            y.lemma_wf();
        }
        let iter = self.terms.iter();
        proof {
            lemma_iter_keys_sorted(&self.terms, iter);
        }
        for kv in it: iter
            invariant
                self.wf(),
                x.wf(),
                y.wf(),
                frac_valid(x.frac()),
                frac_valid(y.frac()),
                m == self.terms_view(),
                f == self.term_fn(x.frac(), y.frac()),
                result.wf(),
                done.finite(),
                forall|t: int, u: int|
                    0 <= t < u < it.seq().len() ==> key_less(*(#[trigger] it.seq()[t]).0, *(#[trigger] it.seq()[u]).0),
                forall|t: int|
                    0 <= t < it.seq().len() ==> m.contains_key(*it.seq()[t].0) && m[*it.seq()[t].0] == *it.seq()[t].1,
                forall|k: (u32, u32)|
                    #[trigger] m.contains_key(k) ==> exists|t: int| 0 <= t < it.seq().len() && *it.seq()[t].0 == k,
                forall|k: (u32, u32)|
                    #[trigger] done.contains(k) <==> exists|t: int| 0 <= t < it.index() && *it.seq()[t].0 == k,
                frac_valid(set_sum(done, f)),
                frac_equiv(result.frac(), set_sum(done, f)),
        {
            let (k, c) = kv;
            let ghost idx = it.index();
            proof {
                assert(m.contains_key(*k) && m[*k] == *c);
            }
            let tx = Self::times_power(c, x, k.0);
            let term = Self::times_power(&tx, y, k.1);
            let next = result.add(&term);
            proof {
                let tv = term_value(m, *k, x.frac(), y.frac());
                let cx = frac_mul(c.frac(), frac_pow(x.frac(), k.0 as nat));
                assert(c.frac() == map_coeff(m, *k));
                c.lemma_wf();
                tx.lemma_wf();
                term.lemma_wf();
                result.lemma_wf();
                lemma_pow_valid(x.frac(), k.0 as nat);
                lemma_pow_valid(y.frac(), k.1 as nat);
                crate::frac::lemma_ops_valid(c.frac(), frac_pow(x.frac(), k.0 as nat));
                crate::frac::lemma_ops_valid(cx, frac_pow(y.frac(), k.1 as nat));
                crate::frac::lemma_equiv_refl(frac_pow(y.frac(), k.1 as nat));
                crate::frac::lemma_mul_chain(term.frac(), tx.frac(), frac_pow(y.frac(), k.1 as nat),
                    cx, frac_pow(y.frac(), k.1 as nat));
                assert(frac_equiv(term.frac(), tv));
                crate::frac::lemma_add_chain(next.frac(), result.frac(), term.frac(),
                    set_sum(done, f), tv);
                assert(!done.contains(*k)) by {
                    if exists|t: int| 0 <= t < idx && *it.seq()[t].0 == *k {
                        let t = choose|t: int| 0 <= t < idx && *it.seq()[t].0 == *k;
                        assert(key_less(*it.seq()[t].0, *it.seq()[idx].0));
                    }
                }
                lemma_sum_insert(done, f, *k);
                crate::frac::lemma_ops_valid(set_sum(done, f), tv);
                done = done.insert(*k);
                assert forall|k2: (u32, u32)|
                    #[trigger] done.contains(k2) <==> exists|t: int| 0 <= t < idx + 1 && *it.seq()[t].0 == k2 by {
                    if k2 == *k {
                        assert(*it.seq()[idx].0 == k2);
                    }
                }
            }
            result = next;
        }
        proof {
            assert(done =~= self.support());
        }
        result
    }

    /// Multiply by a scalar.
    pub fn scale(&self, s: &ExactRational) -> (r: BiPoly)
        requires
            self.wf(),
            s.wf(),
        ensures
            r.wf(),
            forall|i: u32, j: u32|
                frac_equiv(#[trigger] r.coeff_spec(i, j), frac_mul(self.coeff_spec(i, j), s.frac())),
    {
        proof {
            s.lemma_wf();
        }
        if s.is_zero() {
            let r = BiPoly::zero();
            proof {
                assert forall|i: u32, j: u32|
                    frac_equiv(#[trigger] r.coeff_spec(i, j), frac_mul(self.coeff_spec(i, j), s.frac())) by {
                    let x = self.coeff_spec(i, j);
                    assert(x.num * s.frac().num == 0);
                    crate::frac::lemma_zero_equiv(frac_mul(x, s.frac()));
                }
            }
            return r;
        }
        proof {
            lemma_key_order();
        }
        let mut result: BTreeMap<(u32, u32), ExactRational> = BTreeMap::new();
        proof {
            assert forall|k: (u32, u32)| !self.terms_view().contains_key(k) implies frac_equiv(
                #[trigger] map_coeff(result@, k),
                frac_mul(map_coeff(self.terms_view(), k), s.frac()),
            ) by {
                crate::frac::lemma_zero_equiv(frac_mul(map_coeff(self.terms_view(), k), s.frac()));
            }
        }
        for kv in it: self.terms.iter()
            invariant
                self.wf(),
                s.wf(),
                frac_valid(s.frac()),
                terms_wf(result@),
                forall|t: int|
                    0 <= t < it.seq().len() ==> self.terms_view().contains_key(*it.seq()[t].0)
                        && self.terms_view()[*it.seq()[t].0] == *it.seq()[t].1,
                it.seq().no_duplicates(),
                forall|k: (u32, u32)|
                    #[trigger] self.terms_view().contains_key(k) ==> exists|t: int|
                        0 <= t < it.seq().len() && *it.seq()[t].0 == k,
                forall|k: (u32, u32)|
                    frac_equiv(#[trigger] map_coeff(result@, k), frac_mul(map_coeff(self.terms_view(), k), s.frac()))
                        || exists|t: int| it.index() <= t < it.seq().len() && *it.seq()[t].0 == k,
                forall|k: (u32, u32)|
                    (exists|t: int| it.index() <= t < it.seq().len() && *it.seq()[t].0 == k) ==> !#[trigger] result@.contains_key(k),
        {
            let (k, c) = kv;
            let ghost kk = *k;
            let ghost idx = it.index();
            let ghost r0 = result@;
            let prod = c.mul(s);
            proof {
                assert(c.wf() && c.frac().num != 0);
                assert(!r0.contains_key(kk));
                prod.lemma_wf();
            }
            if prod.is_zero() {
                proof {
                    crate::frac::lemma_equiv_zero(prod.frac(), frac_mul(c.frac(), s.frac()));
                }
            } else {
                result.insert(*k, prod);
            }
            proof {
                assert forall|k2: (u32, u32)|
                    frac_equiv(#[trigger] map_coeff(result@, k2), frac_mul(map_coeff(self.terms_view(), k2), s.frac()))
                        || exists|t: int| idx + 1 <= t < it.seq().len() && *it.seq()[t].0 == k2 by {
                    if k2 != kk {
                        assert(map_coeff(result@, k2) == map_coeff(r0, k2));
                        if exists|t: int| idx <= t < it.seq().len() && *it.seq()[t].0 == k2 {
                            let t = choose|t: int| idx <= t < it.seq().len() && *it.seq()[t].0 == k2;
                            assert(t != idx);
                        }
                    }
                }
                assert forall|k2: (u32, u32)|
                    (exists|t: int| idx + 1 <= t < it.seq().len() && *it.seq()[t].0 == k2) implies !#[trigger] result@.contains_key(k2) by {
                    let t = choose|t: int| idx + 1 <= t < it.seq().len() && *it.seq()[t].0 == k2;
                    assert(it.seq()[t] != it.seq()[idx]);
                    assert(k2 != kk);
                }
            }
        }
        BiPoly { terms: result }
    }

    /// Partial derivative with respect to x (`by_y == false`) or y.
    fn derivative(&self, by_y: bool) -> (r: BiPoly)
        requires
            self.wf(),
        ensures
            r.wf(),
            forall|i: u32, j: u32|
                frac_equiv(#[trigger] r.coeff_spec(i, j), derivative_target(self.terms_view(), by_y, (i, j))),
    {
        proof {
            lemma_key_order();
        }
        let mut result: BTreeMap<(u32, u32), ExactRational> = BTreeMap::new();
        proof {
            assert forall|k: (u32, u32)| !(derivative_exponent(by_y, k) < u32::MAX && self.terms_view().contains_key(derivative_source(by_y, k))) implies frac_equiv(
                #[trigger] map_coeff(result@, k),
                derivative_target(self.terms_view(), by_y, k),
            ) by {
                if derivative_exponent(by_y, k) < u32::MAX {
                    crate::frac::lemma_zero_equiv(derivative_target(self.terms_view(), by_y, k));
                }
            }
        }
        for kv in it: self.terms.iter()
            invariant
                self.wf(),
                terms_wf(result@),
                forall|t: int|
                    0 <= t < it.seq().len() ==> self.terms_view().contains_key(*it.seq()[t].0)
                        && self.terms_view()[*it.seq()[t].0] == *it.seq()[t].1,
                it.seq().no_duplicates(),
                forall|k: (u32, u32)|
                    #[trigger] self.terms_view().contains_key(k) ==> exists|t: int|
                        0 <= t < it.seq().len() && *it.seq()[t].0 == k,
                forall|k: (u32, u32)|
                    frac_equiv(#[trigger] map_coeff(result@, k), derivative_target(self.terms_view(), by_y, k))
                        || (derivative_exponent(by_y, k) < u32::MAX && exists|t: int| it.index() <= t < it.seq().len() && *it.seq()[t].0 == derivative_source(by_y, k)),
                forall|k: (u32, u32)|
                    (derivative_exponent(by_y, k) < u32::MAX && exists|t: int| it.index() <= t < it.seq().len() && *it.seq()[t].0 == derivative_source(by_y, k)) ==> !#[trigger] result@.contains_key(k),
        {
            let (k, c) = kv;
            let ghost kk = *k;
            let ghost idx = it.index();
            let ghost r0 = result@;
            let (i, j) = *k;
            let e = if by_y { j } else { i };
            if e > 0 {
                let nk = if by_y { (i, j - 1) } else { (i - 1, j) };
                let factor = ExactRational::from_i64(e as i64);
                let newc = c.mul(&factor);
                proof {
                    assert(c.wf() && c.frac().num != 0);
                    assert(derivative_source(by_y, nk) == kk);
                    assert(!r0.contains_key(nk));
                    newc.lemma_wf();
                    assert(map_coeff(self.terms_view(), kk) == c.frac());
                    assert(derivative_target(self.terms_view(), by_y, nk) == frac_mul(c.frac(), frac_of_int(e as int)));
                }
                if newc.is_zero() {
                    proof {
                        crate::frac::lemma_equiv_zero(newc.frac(), frac_mul(c.frac(), factor.frac()));
                    }
                } else {
                    result.insert(nk, newc);
                }
                proof {
                    assert forall|k2: (u32, u32)|
                        frac_equiv(#[trigger] map_coeff(result@, k2), derivative_target(self.terms_view(), by_y, k2))
                            || (derivative_exponent(by_y, k2) < u32::MAX && exists|t: int| idx + 1 <= t < it.seq().len() && *it.seq()[t].0 == derivative_source(by_y, k2)) by {
                        if k2 != nk {
                            assert(map_coeff(result@, k2) == map_coeff(r0, k2));
                            if derivative_exponent(by_y, k2) < u32::MAX && exists|t: int| idx <= t < it.seq().len() && *it.seq()[t].0 == derivative_source(by_y, k2) {
                                let t = choose|t: int| idx <= t < it.seq().len() && *it.seq()[t].0 == derivative_source(by_y, k2);
                                if t == idx {
                                    lemma_derivative_source_injective(by_y, k2, nk);
                                }
                            }
                        }
                    }
                    assert forall|k2: (u32, u32)|
                        (derivative_exponent(by_y, k2) < u32::MAX && exists|t: int| idx + 1 <= t < it.seq().len() && *it.seq()[t].0 == derivative_source(by_y, k2)) implies !#[trigger] result@.contains_key(k2) by {
                        let t = choose|t: int| idx + 1 <= t < it.seq().len() && *it.seq()[t].0 == derivative_source(by_y, k2);
                        assert(it.seq()[t] != it.seq()[idx]);
                        if k2 == nk {
                            assert(derivative_source(by_y, k2) == kk);
                        }
                    }
                }
            } else {
                proof {
                    assert forall|k2: (u32, u32)|
                        frac_equiv(#[trigger] map_coeff(result@, k2), derivative_target(self.terms_view(), by_y, k2))
                            || (derivative_exponent(by_y, k2) < u32::MAX && exists|t: int| idx + 1 <= t < it.seq().len() && *it.seq()[t].0 == derivative_source(by_y, k2)) by {
                        if derivative_exponent(by_y, k2) < u32::MAX && exists|t: int| idx <= t < it.seq().len() && *it.seq()[t].0 == derivative_source(by_y, k2) {
                            let t = choose|t: int| idx <= t < it.seq().len() && *it.seq()[t].0 == derivative_source(by_y, k2);
                            if t == idx {
                                assert(derivative_source(by_y, k2) == kk);
                            }
                        }
                    }
                    assert forall|k2: (u32, u32)|
                        (derivative_exponent(by_y, k2) < u32::MAX && exists|t: int| idx + 1 <= t < it.seq().len() && *it.seq()[t].0 == derivative_source(by_y, k2)) implies !#[trigger] result@.contains_key(k2) by {
                        let t = choose|t: int| idx + 1 <= t < it.seq().len() && *it.seq()[t].0 == derivative_source(by_y, k2);
                        assert(idx <= t);
                    }
                }
            }
        }
        BiPoly { terms: result }
    }

    /// Partial derivative with respect to x.
    pub fn diff_x(&self) -> (r: BiPoly)
        requires
            self.wf(),
        ensures
            r.wf(),
            forall|i: u32, j: u32|
                frac_equiv(#[trigger] r.coeff_spec(i, j), derivative_target(self.terms_view(), false, (i, j))),
    {
        self.derivative(false)
    }

    /// Partial derivative with respect to y.
    pub fn diff_y(&self) -> (r: BiPoly)
        requires
            self.wf(),
        ensures
            r.wf(),
            forall|i: u32, j: u32|
                frac_equiv(#[trigger] r.coeff_spec(i, j), derivative_target(self.terms_view(), true, (i, j))),
    {
        self.derivative(true)
    }
    /// The largest value of `measure` over the exponents of the terms, or 0
    /// for the zero polynomial (`which` selects `i + j`, `i` or `j`).
    fn max_degree(&self, which: u8) -> (d: u32)
        requires
            which == 0 ==> forall|k: (u32, u32)| #[trigger] self.support().contains(k) ==> k.0 + k.1 <= u32::MAX,
        ensures
            forall|k: (u32, u32)| #[trigger] self.support().contains(k) ==> degree_measure(which, k) <= d,
            self.support() == Set::<(u32, u32)>::empty() ==> d == 0,
            self.support() != Set::<(u32, u32)>::empty() ==> exists|k: (u32, u32)|
                #[trigger] self.support().contains(k) && degree_measure(which, k) == d,
    {
        proof {
            lemma_key_order();
        }
        let mut best: u32 = 0;
        let mut found = false;
        for kv in it: self.terms.iter()
            invariant
                which == 0 ==> forall|k: (u32, u32)| #[trigger] self.support().contains(k) ==> k.0 + k.1 <= u32::MAX,
                forall|t: int| 0 <= t < it.seq().len() ==> self.support().contains(*it.seq()[t].0),
                forall|k: (u32, u32)|
                    #[trigger] self.terms_view().contains_key(k) ==> exists|t: int|
                        0 <= t < it.seq().len() && *it.seq()[t].0 == k,
                forall|k: (u32, u32)|
                    #[trigger] self.support().contains(k) ==> degree_measure(which, k) <= best || exists|t: int|
                        it.index() <= t < it.seq().len() && *it.seq()[t].0 == k,
                found ==> exists|k: (u32, u32)| #[trigger] self.support().contains(k) && degree_measure(which, k) == best,
                !found ==> best == 0,
                !found ==> it.index() == 0,
        {
            let (k, _c) = kv;
            let ghost idx = it.index();
            let v = if which == 0 {
                k.0 + k.1
            } else if which == 1 {
                k.0
            } else {
                k.1
            };
            proof {
                assert(self.support().contains(*k));
            }
            if !found || v > best {
                best = v;
            }
            found = true;
            proof {
                assert forall|k2: (u32, u32)|
                    #[trigger] self.support().contains(k2) implies degree_measure(which, k2) <= best || exists|t: int|
                        idx + 1 <= t < it.seq().len() && *it.seq()[t].0 == k2 by {
                    if exists|t: int| idx <= t < it.seq().len() && *it.seq()[t].0 == k2 {
                        let t = choose|t: int| idx <= t < it.seq().len() && *it.seq()[t].0 == k2;
                        if t == idx {
                            assert(k2 == *k);
                        }
                    }
                }
            }
        }
        proof {
            if self.support() != Set::<(u32, u32)>::empty() {
                if !(exists|k: (u32, u32)| self.support().contains(k)) {
                    assert(self.support() =~= Set::<(u32, u32)>::empty());
                }
                let k = choose|k: (u32, u32)| self.support().contains(k);
                assert(self.terms_view().contains_key(k));
            }
        }
        best
    }

    /// Total degree: the largest `i + j` over the terms (0 for zero).
    pub fn total_degree(&self) -> (d: u32)
        requires
            forall|k: (u32, u32)| #[trigger] self.support().contains(k) ==> k.0 + k.1 <= u32::MAX,
        ensures
            forall|k: (u32, u32)| #[trigger] self.support().contains(k) ==> k.0 + k.1 <= d,
            self.support() == Set::<(u32, u32)>::empty() ==> d == 0,
            self.support() != Set::<(u32, u32)>::empty() ==> exists|k: (u32, u32)|
                #[trigger] self.support().contains(k) && k.0 + k.1 == d,
    {
        self.max_degree(0)
    }

    /// Degree in x: the largest `i` over the terms (0 for zero).
    pub fn degree_x(&self) -> (d: u32)
        ensures
            forall|k: (u32, u32)| #[trigger] self.support().contains(k) ==> k.0 <= d,
            self.support() == Set::<(u32, u32)>::empty() ==> d == 0,
            self.support() != Set::<(u32, u32)>::empty() ==> exists|k: (u32, u32)|
                #[trigger] self.support().contains(k) && k.0 == d,
    {
        self.max_degree(1)
    }

    /// Degree in y: the largest `j` over the terms (0 for zero).
    pub fn degree_y(&self) -> (d: u32)
        ensures
            forall|k: (u32, u32)| #[trigger] self.support().contains(k) ==> k.1 <= d,
            self.support() == Set::<(u32, u32)>::empty() ==> d == 0,
            self.support() != Set::<(u32, u32)>::empty() ==> exists|k: (u32, u32)|
                #[trigger] self.support().contains(k) && k.1 == d,
    {
        self.max_degree(2)
    }
    /// The coefficient of `y^j`, as a polynomial in x alone (its terms are
    /// stored under `(i, 0)`).
    fn y_slice(&self, j: u32) -> (q: BiPoly)
        requires
            self.wf(),
        ensures
            q.wf(),
            forall|i: u32, e: u32| #[trigger] q.support().contains((i, e)) <==> e == 0 && self.support().contains((i, j)),
            forall|i: u32| #[trigger] q.coeff_spec(i, 0) == self.coeff_spec(i, j),
    {
        proof {
            lemma_key_order();
        }
        let mut result: BTreeMap<(u32, u32), ExactRational> = BTreeMap::new();
        for kv in it: self.terms.iter()
            invariant
                self.wf(),
                terms_wf(result@),
                forall|t: int|
                    0 <= t < it.seq().len() ==> self.terms_view().contains_key(*it.seq()[t].0)
                        && self.terms_view()[*it.seq()[t].0] == *it.seq()[t].1,
                it.seq().no_duplicates(),
                forall|k: (u32, u32)|
                    #[trigger] self.terms_view().contains_key(k) ==> exists|t: int|
                        0 <= t < it.seq().len() && *it.seq()[t].0 == k,
                forall|i: u32, e: u32| #[trigger] result@.contains_key((i, e)) ==> e == 0 && self.support().contains((i, j))
                    && result@[(i, e)].frac() == self.terms_view()[(i, j)].frac(),
                forall|i: u32| #[trigger] self.support().contains((i, j)) ==> result@.contains_key((i, 0))
                    || exists|t: int| it.index() <= t < it.seq().len() && *it.seq()[t].0 == (i, j),
        {
            let (k, c) = kv;
            let ghost idx = it.index();
            if k.1 == j {
                result.insert((k.0, 0), c.copy());
            }
            proof {
                assert forall|i: u32| #[trigger] self.support().contains((i, j)) implies result@.contains_key((i, 0))
                    || exists|t: int| idx + 1 <= t < it.seq().len() && *it.seq()[t].0 == (i, j) by {
                    if exists|t: int| idx <= t < it.seq().len() && *it.seq()[t].0 == (i, j) {
                        let t = choose|t: int| idx <= t < it.seq().len() && *it.seq()[t].0 == (i, j);
                        if t == idx {
                            assert(*k == (i, j));
                        }
                    }
                }
            }
        }
        let q = BiPoly { terms: result };
        proof {
            assert forall|i: u32| #[trigger] q.coeff_spec(i, 0) == self.coeff_spec(i, j) by {
                if self.support().contains((i, j)) {
                    assert(result@.contains_key((i, 0)));
                }
            }
        }
        q
    }

    /// Does some term have `y` raised to the power `j`?
    pub open spec fn has_y_exponent(&self, j: u32) -> bool {
        exists|i: u32| #[trigger] self.support().contains((i, j))
    }

    /// The distinct powers of `y` that occur, in increasing order.
    fn y_exponents(&self) -> (ys: Vec<u32>)
        requires
            self.wf(),
        ensures
            forall|t: int, u: int| 0 <= t < u < ys@.len() ==> (#[trigger] ys@[t]) < (#[trigger] ys@[u]),
            forall|j: u32| #[trigger] ys@.contains(j) <==> self.has_y_exponent(j),
    {
        proof {
            lemma_key_order();
        }
        let mut set: std::collections::BTreeSet<u32> = std::collections::BTreeSet::new();
        for kv in it: self.terms.iter()
            invariant
                forall|t: int| 0 <= t < it.seq().len() ==> self.terms_view().contains_key(*it.seq()[t].0),
                forall|k: (u32, u32)|
                    #[trigger] self.terms_view().contains_key(k) ==> exists|t: int|
                        0 <= t < it.seq().len() && *it.seq()[t].0 == k,
                forall|j: u32| #[trigger] set@.contains(j) ==> self.has_y_exponent(j),
                forall|k: (u32, u32)| #[trigger] self.support().contains(k) ==> set@.contains(k.1)
                    || exists|t: int| it.index() <= t < it.seq().len() && *it.seq()[t].0 == k,
        {
            let (k, _c) = kv;
            let ghost idx = it.index();
            set.insert(k.1);
            proof {
                assert(self.support().contains((k.0, k.1)));
                assert(self.has_y_exponent(k.1));
                assert forall|k2: (u32, u32)| #[trigger] self.support().contains(k2) implies set@.contains(k2.1)
                    || exists|t: int| idx + 1 <= t < it.seq().len() && *it.seq()[t].0 == k2 by {
                    if exists|t: int| idx <= t < it.seq().len() && *it.seq()[t].0 == k2 {
                        let t = choose|t: int| idx <= t < it.seq().len() && *it.seq()[t].0 == k2;
                        if t == idx {
                            assert(*k == k2);
                        }
                    }
                }
            }
        }
        let mut ys: Vec<u32> = Vec::new();
        let iter = set.iter();
        proof {
            assert(vstd::laws_cmp::obeys_cmp::<u32>());
            lemma_u32_iter_sorted(iter);
        }
        for jr in jt: iter
            invariant
                ys@.len() == jt.index(),
                forall|t: int, u: int| 0 <= t < u < jt.seq().len() ==> *(#[trigger] jt.seq()[t]) < *(#[trigger] jt.seq()[u]),
                forall|t: int| 0 <= t < ys@.len() ==> ys@[t] == *jt.seq()[t],
        {
            ys.push(*jr);
        }
        proof {
            assert(ys@ =~= iter.remaining().unref());
            assert forall|j: u32| #[trigger] ys@.contains(j) <==> self.has_y_exponent(j) by {
                if self.has_y_exponent(j) {
                    let i = choose|i: u32| #[trigger] self.support().contains((i, j));
                    assert(self.support().contains((i, j)));
                }
                assert(iter.remaining().unref().to_set().contains(j) == ys@.contains(j));
            }
        }
        ys
    }

    /// Groups the terms by their power of `y`: one entry per power that occurs, in
    /// increasing order, each holding the polynomial in `x` whose coefficients are those
    /// of that power.
    pub fn collect_y(&self) -> (groups: Vec<(u32, BiPoly)>)
        requires
            self.wf(),
        ensures
            collected_by_y(*self, groups@),
    {
        let ys = self.y_exponents();
        let mut groups: Vec<(u32, BiPoly)> = Vec::new();
        for n in 0..ys.len()
            invariant
                self.wf(),
                groups@.len() == n,
                forall|g: int| 0 <= g < groups@.len() ==> (#[trigger] groups@[g]).0 == ys@[g],
                forall|g: int| 0 <= g < groups@.len() ==> (#[trigger] groups@[g]).1.wf()
                    && (forall|i: u32, e: u32| #[trigger] groups@[g].1.support().contains((i, e)) <==> e == 0 && self.support().contains((i, groups@[g].0)))
                    && (forall|i: u32| #[trigger] groups@[g].1.coeff_spec(i, 0) == self.coeff_spec(i, groups@[g].0)),
        {
            let j = ys[n];
            let q = self.y_slice(j);
            groups.push((j, q));
        }
        proof {
            assert forall|j: u32| self.has_y_exponent(j) <==> exists|g: int| 0 <= g < groups@.len() && (#[trigger] groups@[g]).0 == j by {
                if self.has_y_exponent(j) {
                    assert(ys@.contains(j));
                    let g = choose|g: int| 0 <= g < ys@.len() && ys@[g] == j;
                    assert(groups@[g].0 == j);
                }
                if exists|g: int| 0 <= g < groups@.len() && (#[trigger] groups@[g]).0 == j {
                    let g = choose|g: int| 0 <= g < groups@.len() && (#[trigger] groups@[g]).0 == j;
                    assert(ys@[g] == j);
                    assert(ys@.contains(j));
                }
            }
        }
        groups
    }
}

} // verus!
