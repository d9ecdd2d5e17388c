//! Finite sums of rational values over sets, in the specification world.
//!
//! Representations of rationals add exactly associatively and
//! commutatively with `0/1` as identity, so sums over sets are exact folds;
//! multiplication distributes over them up to equivalence.

use vstd::prelude::*;
use vstd::set::fold::{is_fun_commutative, lemma_fold_empty, lemma_fold_insert};

use crate::frac::{
    frac_add, frac_equiv, frac_mul, frac_neg, frac_of_int, frac_valid, lemma_add_assoc, lemma_add_comm, lemma_add_neg,
    lemma_add_congruence, lemma_add_swap, lemma_add_zero_num, lemma_add_zero_right,
    lemma_equiv_refl, lemma_equiv_symm, lemma_equiv_trans, lemma_mul_comm, lemma_mul_congruence,
    lemma_mul_distrib, lemma_ops_valid, Frac,
};

verus! {

/// Adds `g(k)` to an accumulated sum.
pub open spec fn summing<K>(g: spec_fn(K) -> Frac) -> spec_fn(Frac, K) -> Frac {
    |acc: Frac, k: K| frac_add(acc, g(k))
}

/// The sum of `g(k)` over the finite set `s`.
pub open spec fn set_sum<K>(s: Set<K>, g: spec_fn(K) -> Frac) -> Frac {
    s.fold(frac_of_int(0), summing(g))
}

/// All pairs with the first component in `p` and the second in `q`.
pub open spec fn pairs_of<A, B>(p: Set<A>, q: Set<B>) -> Set<(A, B)> {
    Set::new(|ab: (A, B)| p.contains(ab.0) && q.contains(ab.1))
}

/// Adding up the values of `g` does not depend on the order of the
/// elements.
pub proof fn lemma_summing_commutative<K>(g: spec_fn(K) -> Frac)
    ensures
        is_fun_commutative(summing(g)),
{
    let f = summing(g);
    assert forall|a1: K, a2: K, b: Frac| #[trigger] f(f(b, a2), a1) == f(f(b, a1), a2) by {
        lemma_add_swap(b, g(a1), g(a2));
    }
}

/// The sum over the empty set is zero.
pub proof fn lemma_sum_empty<K>(g: spec_fn(K) -> Frac)
    ensures
        set_sum(Set::<K>::empty(), g) == frac_of_int(0),
{
    lemma_fold_empty(frac_of_int(0), summing(g));
}

/// Inserting a new element adds its value to the sum.
pub proof fn lemma_sum_insert<K>(s: Set<K>, g: spec_fn(K) -> Frac, a: K)
    requires
        s.finite(),
        !s.contains(a),
    ensures
        set_sum(s.insert(a), g) == frac_add(set_sum(s, g), g(a)),
{
    lemma_summing_commutative(g);
    lemma_fold_insert(s, frac_of_int(0), summing(g), a);
}

/// Removing an element takes its value off the sum.
pub proof fn lemma_sum_remove<K>(s: Set<K>, g: spec_fn(K) -> Frac, a: K)
    requires
        s.finite(),
        s.contains(a),
    ensures
        set_sum(s, g) == frac_add(set_sum(s.remove(a), g), g(a)),
{
    lemma_sum_insert(s.remove(a), g, a);
    assert(s.remove(a).insert(a) =~= s);
}

/// A sum of valid values is valid.
pub proof fn lemma_sum_valid<K>(s: Set<K>, g: spec_fn(K) -> Frac)
    requires
        s.finite(),
        forall|k: K| s.contains(k) ==> frac_valid(#[trigger] g(k)),
    ensures
        frac_valid(set_sum(s, g)),
    decreases s.len(),
{
    if s.len() == 0 {
        assert(s =~= Set::<K>::empty());
        lemma_sum_empty(g);
    } else {
        let a = s.choose();
        lemma_sum_valid(s.remove(a), g);
        lemma_sum_remove(s, g, a);
        lemma_ops_valid(set_sum(s.remove(a), g), g(a));
    }
}

/// Sums of functions that agree on the set are equal.
pub proof fn lemma_sum_ext<K>(s: Set<K>, g1: spec_fn(K) -> Frac, g2: spec_fn(K) -> Frac)
    requires
        s.finite(),
        forall|k: K| s.contains(k) ==> #[trigger] g1(k) == g2(k),
    ensures
        set_sum(s, g1) == set_sum(s, g2),
    decreases s.len(),
{
    if s.len() == 0 {
        assert(s =~= Set::<K>::empty());
        lemma_sum_empty(g1);
        lemma_sum_empty(g2);
    } else {
        let a = s.choose();
        lemma_sum_ext(s.remove(a), g1, g2);
        lemma_sum_remove(s, g1, a);
        lemma_sum_remove(s, g2, a);
    }
}

/// Sums of pointwise equivalent valid values are equivalent.
pub proof fn lemma_sum_congruence<K>(s: Set<K>, g1: spec_fn(K) -> Frac, g2: spec_fn(K) -> Frac)
    requires
        s.finite(),
        forall|k: K|
            s.contains(k) ==> frac_valid(#[trigger] g1(k)) && frac_valid(g2(k)) && frac_equiv(g1(k), g2(k)),
    ensures
        frac_equiv(set_sum(s, g1), set_sum(s, g2)),
    decreases s.len(),
{
    if s.len() == 0 {
        assert(s =~= Set::<K>::empty());
        lemma_sum_empty(g1);
        lemma_sum_empty(g2);
    } else {
        let a = s.choose();
        lemma_sum_congruence(s.remove(a), g1, g2);
        lemma_sum_remove(s, g1, a);
        lemma_sum_remove(s, g2, a);
        lemma_add_congruence(set_sum(s.remove(a), g1), set_sum(s.remove(a), g2), g1(a), g2(a));
    }
}

/// Terms whose numerator is zero can be left out of a sum.
pub proof fn lemma_sum_zero_terms<K>(s: Set<K>, t: Set<K>, g: spec_fn(K) -> Frac)
    requires
        t.finite(),
        s.subset_of(t),
        forall|k: K| t.contains(k) ==> frac_valid(#[trigger] g(k)),
        forall|k: K| t.contains(k) && !s.contains(k) ==> (#[trigger] g(k)).num == 0,
    ensures
        frac_equiv(set_sum(t, g), set_sum(s, g)),
    decreases t.len(),
{
    if t =~= s {
        lemma_equiv_refl(set_sum(t, g));
    } else {
        assert(exists|k: K| t.contains(k) && !s.contains(k));
        let a = choose|k: K| t.contains(k) && !s.contains(k);
        let t2 = t.remove(a);
        lemma_sum_zero_terms(s, t2, g);
        lemma_sum_remove(t, g, a);
        lemma_add_zero_num(set_sum(t2, g), g(a));
        lemma_sum_valid(t2, g);
        lemma_equiv_trans(set_sum(t, g), set_sum(t2, g), set_sum(s, g));
    }
}

/// The sum over a union of disjoint sets is the sum of the two sums.
pub proof fn lemma_sum_union<K>(a: Set<K>, b: Set<K>, g: spec_fn(K) -> Frac)
    requires
        a.finite(),
        b.finite(),
        a.disjoint(b),
    ensures
        set_sum(a.union(b), g) == frac_add(set_sum(a, g), set_sum(b, g)),
    decreases b.len(),
{
    if b.len() == 0 {
        assert(b =~= Set::<K>::empty());
        assert(a.union(b) =~= a);
        lemma_sum_empty(g);
        lemma_add_zero_right(set_sum(a, g));
    } else {
        let x = b.choose();
        let b2 = b.remove(x);
        lemma_sum_union(a, b2, g);
        assert(a.union(b) =~= a.union(b2).insert(x));
        lemma_sum_insert(a.union(b2), g, x);
        lemma_sum_remove(b, g, x);
        lemma_add_assoc(set_sum(a, g), set_sum(b2, g), g(x));
    }
}

/// Summing pointwise sums gives the sum of the two sums.
pub proof fn lemma_sum_add<K>(s: Set<K>, g1: spec_fn(K) -> Frac, g2: spec_fn(K) -> Frac)
    requires
        s.finite(),
    ensures
        set_sum(s, |k: K| frac_add(g1(k), g2(k))) == frac_add(set_sum(s, g1), set_sum(s, g2)),
    decreases s.len(),
{
    let h = |k: K| frac_add(g1(k), g2(k));
    if s.len() == 0 {
        assert(s =~= Set::<K>::empty());
        lemma_sum_empty(g1);
        lemma_sum_empty(g2);
        lemma_sum_empty(h);
        lemma_add_zero_right(frac_of_int(0));
    } else {
        let a = s.choose();
        let s2 = s.remove(a);
        lemma_sum_add(s2, g1, g2);
        lemma_sum_remove(s, g1, a);
        lemma_sum_remove(s, g2, a);
        lemma_sum_remove(s, h, a);
        let x1 = set_sum(s2, g1);
        let x2 = set_sum(s2, g2);
        lemma_add_assoc(x1, x2, frac_add(g1(a), g2(a)));
        lemma_add_assoc(x2, g1(a), g2(a));
        lemma_add_comm(x2, g1(a));
        lemma_add_assoc(g1(a), x2, g2(a));
        lemma_add_assoc(x1, g1(a), frac_add(x2, g2(a)));
    }
}

/// A constant factor can be taken out of a sum, up to equivalence.
pub proof fn lemma_sum_scale<K>(s: Set<K>, g: spec_fn(K) -> Frac, c: Frac)
    requires
        s.finite(),
        frac_valid(c),
        forall|k: K| s.contains(k) ==> frac_valid(#[trigger] g(k)),
    ensures
        frac_equiv(set_sum(s, |k: K| frac_mul(c, g(k))), frac_mul(c, set_sum(s, g))),
    decreases s.len(),
{
    let h = |k: K| frac_mul(c, g(k));
    if s.len() == 0 {
        assert(s =~= Set::<K>::empty());
        lemma_sum_empty(g);
        lemma_sum_empty(h);
        assert(c.num * 0 == 0 && c.den * 1 == c.den);
    } else {
        let a = s.choose();
        let s2 = s.remove(a);
        lemma_sum_scale(s2, g, c);
        lemma_sum_remove(s, g, a);
        lemma_sum_remove(s, h, a);
        lemma_sum_valid(s2, g);
        assert forall|k: K| s2.contains(k) implies frac_valid(#[trigger] h(k)) by {
            lemma_ops_valid(c, g(k));
        }
        lemma_sum_valid(s2, h);
        lemma_ops_valid(c, g(a));
        lemma_ops_valid(c, set_sum(s2, g));
        lemma_equiv_refl(h(a));
        lemma_add_congruence(set_sum(s2, h), frac_mul(c, set_sum(s2, g)), h(a), h(a));
        lemma_mul_distrib(c, set_sum(s2, g), g(a));
        lemma_equiv_symm(
            frac_mul(c, frac_add(set_sum(s2, g), g(a))),
            frac_add(frac_mul(c, set_sum(s2, g)), frac_mul(c, g(a))),
        );
        lemma_ops_valid(frac_mul(c, set_sum(s2, g)), h(a));
        lemma_equiv_trans(
            set_sum(s, h),
            frac_add(frac_mul(c, set_sum(s2, g)), h(a)),
            frac_mul(c, set_sum(s, g)),
        );
    }
}

/// The pairs with first component `a` and second component in `q`.
pub open spec fn row_of<A, B>(a: A, q: Set<B>) -> Set<(A, B)> {
    Set::new(|ab: (A, B)| ab.0 == a && q.contains(ab.1))
}

proof fn lemma_sum_row<A, B>(a: A, q: Set<B>, f: spec_fn((A, B)) -> Frac)
    requires
        q.finite(),
    ensures
        row_of(a, q).finite(),
        set_sum(row_of(a, q), f) == set_sum(q, |b: B| f((a, b))),
    decreases q.len(),
{
    let fq = |b: B| f((a, b));
    if q.len() == 0 {
        assert(q =~= Set::<B>::empty());
        assert(row_of(a, q) =~= Set::<(A, B)>::empty());
        lemma_sum_empty(f);
        lemma_sum_empty(fq);
    } else {
        let x = q.choose();
        let q2 = q.remove(x);
        lemma_sum_row(a, q2, f);
        assert(row_of(a, q) =~= row_of(a, q2).insert((a, x)));
        lemma_sum_insert(row_of(a, q2), f, (a, x));
        lemma_sum_remove(q, fq, x);
    }
}

/// The product of two sums is the sum of the products over all pairs, up
/// to equivalence.
pub proof fn lemma_sum_product<A, B>(p: Set<A>, q: Set<B>, g: spec_fn(A) -> Frac, h: spec_fn(B) -> Frac)
    requires
        p.finite(),
        q.finite(),
        forall|a: A| p.contains(a) ==> frac_valid(#[trigger] g(a)),
        forall|b: B| q.contains(b) ==> frac_valid(#[trigger] h(b)),
    ensures
        pairs_of(p, q).finite(),
        frac_equiv(
            frac_mul(set_sum(p, g), set_sum(q, h)),
            set_sum(pairs_of(p, q), |ab: (A, B)| frac_mul(g(ab.0), h(ab.1))),
        ),
    decreases p.len(),
{
    let f = |ab: (A, B)| frac_mul(g(ab.0), h(ab.1));
    let sh = set_sum(q, h);
    lemma_sum_valid(q, h);
    if p.len() == 0 {
        assert(p =~= Set::<A>::empty());
        assert(pairs_of(p, q) =~= Set::<(A, B)>::empty());
        lemma_sum_empty(g);
        lemma_sum_empty(f);
        assert(0 * sh.num == 0 && 1 * sh.den == sh.den);
    } else {
        let a = p.choose();
        let p2 = p.remove(a);
        lemma_sum_product(p2, q, g, h);
        lemma_sum_row(a, q, f);
        assert(pairs_of(p, q) =~= pairs_of(p2, q).union(row_of(a, q)));
        assert(pairs_of(p2, q).disjoint(row_of(a, q)));
        lemma_sum_union(pairs_of(p2, q), row_of(a, q), f);
        let ga = |b: B| frac_mul(g(a), h(b));
        lemma_sum_ext(q, |b: B| f((a, b)), ga);
        lemma_sum_scale(q, h, g(a));
        // set_sum(p, g) = set_sum(p2, g) + g(a)
        lemma_sum_remove(p, g, a);
        let sg2 = set_sum(p2, g);
        lemma_sum_valid(p2, g);
        let r2 = set_sum(pairs_of(p2, q), f);
        let ra = set_sum(row_of(a, q), f);
        // (sg2 + g(a)) * sh ~ sg2 * sh + g(a) * sh
        lemma_mul_comm(frac_add(sg2, g(a)), sh);
        lemma_mul_distrib(sh, sg2, g(a));
        lemma_mul_comm(sh, sg2);
        lemma_mul_comm(sh, g(a));
        // sg2 * sh ~ r2 and g(a) * sh ~ ra
        assert forall|ab: (A, B)| pairs_of(p2, q).contains(ab) implies frac_valid(#[trigger] f(ab)) by {
            lemma_ops_valid(g(ab.0), h(ab.1));
        }
        lemma_sum_valid(pairs_of(p2, q), f);
        assert forall|b: B| q.contains(b) implies frac_valid(#[trigger] ga(b)) by {
            lemma_ops_valid(g(a), h(b));
        }
        lemma_sum_valid(q, ga);
        lemma_ops_valid(g(a), sh);
        lemma_ops_valid(sg2, sh);
        lemma_equiv_symm(set_sum(q, ga), frac_mul(g(a), sh));
        lemma_add_congruence(frac_mul(sg2, sh), r2, frac_mul(g(a), sh), ra);
        lemma_ops_valid(frac_mul(sg2, sh), frac_mul(g(a), sh));
        lemma_equiv_trans(
            frac_mul(set_sum(p, g), sh),
            frac_add(frac_mul(sg2, sh), frac_mul(g(a), sh)),
            frac_add(r2, ra),
        );
    }
}

/// The elements of `t` whose key is `k`.
pub open spec fn with_key<T, K>(t: Set<T>, key: spec_fn(T) -> K, k: K) -> Set<T> {
    t.filter(|x: T| key(x) == k)
}

/// A sum regrouped by key: the sum over the keys that occur of the sums
/// over the elements with each key.
pub proof fn lemma_sum_partition<T, K>(t: Set<T>, key: spec_fn(T) -> K, g: spec_fn(T) -> Frac)
    requires
        t.finite(),
    ensures
        t.map(key).finite(),
        set_sum(t, g) == set_sum(t.map(key), |k: K| set_sum(with_key(t, key, k), g)),
    decreases t.len(),
{
    t.lemma_map_finite(key);
    let gt = |k: K| set_sum(with_key(t, key, k), g);
    if t.len() == 0 {
        assert(t =~= Set::<T>::empty());
        assert(t.map(key) =~= Set::<K>::empty());
        lemma_sum_empty(g);
        lemma_sum_empty(gt);
    } else {
        let x = t.choose();
        let t2 = t.remove(x);
        let k0 = key(x);
        lemma_sum_partition(t2, key, g);
        t2.lemma_map_finite(key);
        let g2 = |k: K| set_sum(with_key(t2, key, k), g);
        lemma_sum_remove(t, g, x);
        assert(with_key(t, key, k0) =~= with_key(t2, key, k0).insert(x));
        lemma_sum_insert(with_key(t2, key, k0), g, x);
        assert forall|k: K| k != k0 implies #[trigger] gt(k) == g2(k) by {
            assert(with_key(t, key, k) =~= with_key(t2, key, k));
        }
        assert(gt(k0) == frac_add(g2(k0), g(x)));
        if t2.map(key).contains(k0) {
            assert(t.map(key) =~= t2.map(key));
            let ks = t2.map(key);
            lemma_sum_remove(ks, gt, k0);
            lemma_sum_remove(ks, g2, k0);
            lemma_sum_ext(ks.remove(k0), gt, g2);
            lemma_add_assoc(set_sum(ks.remove(k0), g2), g2(k0), g(x));
        } else {
            assert(t.map(key) =~= t2.map(key).insert(k0));
            lemma_sum_insert(t2.map(key), gt, k0);
            lemma_sum_ext(t2.map(key), gt, g2);
            assert(with_key(t2, key, k0) =~= Set::<T>::empty());
            lemma_sum_empty(g);
            let v = g(x);
            assert(0 * v.den + v.num * 1 == v.num && 1 * v.den == v.den);
        }
    }
}

/// Summing over the image of a map that is one-to-one on the set is
/// summing the composition over the set.
pub proof fn lemma_sum_reindex<A, B>(s: Set<A>, f: spec_fn(A) -> B, g: spec_fn(B) -> Frac)
    requires
        s.finite(),
        forall|a1: A, a2: A| s.contains(a1) && s.contains(a2) && #[trigger] f(a1) == #[trigger] f(a2) ==> a1 == a2,
    ensures
        s.map(f).finite(),
        set_sum(s.map(f), g) == set_sum(s, |a: A| g(f(a))),
    decreases s.len(),
{
    s.lemma_map_finite(f);
    let h = |a: A| g(f(a));
    if s.len() == 0 {
        assert(s =~= Set::<A>::empty());
        assert(s.map(f) =~= Set::<B>::empty());
        lemma_sum_empty(g);
        lemma_sum_empty(h);
    } else {
        let a = s.choose();
        let s2 = s.remove(a);
        lemma_sum_reindex(s2, f, g);
        assert(s.map(f) =~= s2.map(f).insert(f(a)));
        if s2.map(f).contains(f(a)) {
            let b = choose|b: A| s2.contains(b) && f(b) == f(a);
            assert(false);
        }
        lemma_sum_insert(s2.map(f), g, f(a));
        lemma_sum_remove(s, h, a);
    }
}

/// Summing negated values gives the negated sum.
pub proof fn lemma_sum_neg<K>(s: Set<K>, g: spec_fn(K) -> Frac)
    requires
        s.finite(),
    ensures
        set_sum(s, |k: K| frac_neg(g(k))) == frac_neg(set_sum(s, g)),
    decreases s.len(),
{
    let h = |k: K| frac_neg(g(k));
    if s.len() == 0 {
        assert(s =~= Set::<K>::empty());
        lemma_sum_empty(g);
        lemma_sum_empty(h);
    } else {
        let a = s.choose();
        let s2 = s.remove(a);
        lemma_sum_neg(s2, g);
        lemma_sum_remove(s, g, a);
        lemma_sum_remove(s, h, a);
        lemma_add_neg(set_sum(s2, g), g(a));
    }
}

} // verus!
