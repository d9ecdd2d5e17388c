//! Combinatorial core of the branch connector for quartic-in-v polynomials:
//! enumerating U-turn pairings of adjacent root slots at a critical value.

use std::collections::HashSet;
use vstd::prelude::*;

verus! {

/// `starts` lists the first slots of `starts.len()` disjoint adjacent pairs
/// `(i, i + 1)` drawn from slots `lo .. n`, in increasing order.
pub open spec fn valid_pair_starts(starts: Seq<int>, n: int, lo: int) -> bool {
    &&& forall|t: int| 0 <= t < starts.len() ==> lo <= #[trigger] starts[t] && starts[t] + 1 < n
    &&& forall|t: int| 0 <= t < starts.len() - 1 ==> #[trigger] starts[t] + 2 <= starts[t + 1]
}

/// The pair set `ps` consists of adjacent pairs whose first slots are `starts`.
pub open spec fn pairs_match_starts(ps: Seq<(usize, usize)>, starts: Seq<int>) -> bool {
    &&& ps.len() == starts.len()
    &&& forall|t: int|
        0 <= t < ps.len() ==> (#[trigger] ps[t]).0 == starts[t] && ps[t].1 == starts[t] + 1
}

/// The first slots of a set of pairs.
pub open spec fn pair_starts(ps: Seq<(usize, usize)>) -> Seq<int> {
    Seq::new(ps.len(), |t: int| ps[t].0 as int)
}

/// Strict lexicographic order on sequences of the same length.
pub open spec fn lex_less(a: Seq<int>, b: Seq<int>) -> bool {
    exists|j: int|
        0 <= j < a.len() && j < b.len() && a[j] < b[j] && forall|m: int|
            0 <= m < j ==> #[trigger] a[m] == #[trigger] b[m]
}

/// All sets of `k` disjoint adjacent pairs from slots `lo .. n`, as lists
/// of first slots, in the order the enumeration produces them.
spec fn sets_from(n: int, k: nat, lo: int) -> Seq<Seq<int>>
    decreases k, 1int, 0int,
{
    if k == 0 {
        seq![Seq::<int>::empty()]
    } else {
        sets_between(n, k, lo, n - 1)
    }
}

/// The sets of `k` pairs whose first pair starts in `lo .. hi`.
spec fn sets_between(n: int, k: nat, lo: int, hi: int) -> Seq<Seq<int>>
    decreases k, 0int, hi - lo,
{
    if k == 0 || hi <= lo {
        Seq::empty()
    } else {
        sets_between(n, k, lo, hi - 1) + sets_with_first(n, (k - 1) as nat, hi - 1)
    }
}

/// The sets that start with the pair `(i, i + 1)` followed by `k` more pairs.
spec fn sets_with_first(n: int, k: nat, i: int) -> Seq<Seq<int>>
    decreases k, 1int, 1int,
{
    sets_from(n, k, i + 2).map_values(|s: Seq<int>| seq![i] + s)
}

/// Every enumerated set is valid and has `k` pairs.
proof fn lemma_sets_sound(n: int, k: nat, lo: int)
    ensures
        forall|t: int|
            0 <= t < sets_from(n, k, lo).len() ==> #[trigger] sets_from(n, k, lo)[t].len() == k
                && valid_pair_starts(sets_from(n, k, lo)[t], n, lo),
    decreases k, 1int, 0int,
{
    if k > 0 {
        lemma_between_sound(n, k, lo, n - 1);
        assert(sets_from(n, k, lo) == sets_between(n, k, lo, n - 1));
    } else {
        assert(sets_from(n, k, lo) =~= seq![Seq::<int>::empty()]);
    }
}

proof fn lemma_between_sound(n: int, k: nat, lo: int, hi: int)
    requires
        k > 0,
        hi <= n - 1,
    ensures
        forall|t: int|
            0 <= t < sets_between(n, k, lo, hi).len() ==> #[trigger] sets_between(
                n,
                k,
                lo,
                hi,
            )[t].len() == k && valid_pair_starts(sets_between(n, k, lo, hi)[t], n, lo),
    decreases k, 0int, hi - lo,
{
    if hi > lo {
        lemma_between_sound(n, k, lo, hi - 1);
        let i = hi - 1;
        lemma_sets_sound(n, (k - 1) as nat, i + 2);
        let a = sets_between(n, k, lo, hi - 1);
        let w = sets_with_first(n, (k - 1) as nat, i);
        let inner = sets_from(n, (k - 1) as nat, i + 2);
        assert forall|t: int| 0 <= t < w.len() implies #[trigger] w[t].len() == k
            && valid_pair_starts(w[t], n, lo) by {
            let s = inner[t];
            assert(w[t] == seq![i] + s);
            assert(valid_pair_starts(s, n, i + 2));
            let ws = w[t];
            assert forall|u: int| 0 <= u < ws.len() implies lo <= #[trigger] ws[u] && ws[u] + 1
                < n by {
                if u > 0 {
                    assert(ws[u] == s[u - 1]);
                }
            }
            assert forall|u: int| 0 <= u < ws.len() - 1 implies #[trigger] ws[u] + 2 <= ws[u
                + 1] by {
                if u > 0 {
                    assert(ws[u] == s[u - 1]);
                }
                assert(ws[u + 1] == s[u]);
            }
        }
        assert forall|t: int| 0 <= t < (a + w).len() implies #[trigger] (a + w)[t].len() == k
            && valid_pair_starts((a + w)[t], n, lo) by {
            if t < a.len() {
                assert((a + w)[t] == a[t]);
            } else {
                assert((a + w)[t] == w[t - a.len()]);
            }
        }
    }
}

/// Every valid set of `k` pairs is enumerated.
proof fn lemma_sets_complete(n: int, k: nat, lo: int, s: Seq<int>)
    requires
        s.len() == k,
        valid_pair_starts(s, n, lo),
    ensures
        sets_from(n, k, lo).contains(s),
    decreases k, 1int, 0int,
{
    if k == 0 {
        assert(s =~= Seq::<int>::empty());
        assert(sets_from(n, k, lo)[0] == s);
    } else {
        lemma_between_complete(n, k, lo, n - 1, s);
    }
}

proof fn lemma_between_complete(n: int, k: nat, lo: int, hi: int, s: Seq<int>)
    requires
        k > 0,
        s.len() == k,
        valid_pair_starts(s, n, lo),
        s[0] < hi,
    ensures
        sets_between(n, k, lo, hi).contains(s),
    decreases k, 0int, hi - lo,
{
    assert(lo <= s[0]);
    let a = sets_between(n, k, lo, hi - 1);
    let i = hi - 1;
    let w = sets_with_first(n, (k - 1) as nat, i);
    assert(sets_between(n, k, lo, hi) == a + w);
    if s[0] < hi - 1 {
        lemma_between_complete(n, k, lo, hi - 1, s);
        let t = choose|t: int| 0 <= t < a.len() && a[t] == s;
        assert((a + w)[t] == s);
    } else {
        let rest = s.drop_first();
        assert forall|u: int| 0 <= u < rest.len() implies i + 2 <= #[trigger] rest[u] && rest[u]
            + 1 < n by {
            assert(rest[u] == s[u + 1]);
            if u == 0 {
                assert(s[0] + 2 <= s[1]);
            } else {
                lemma_starts_increase(s, n, lo, 0, u + 1);
            }
        }
        assert forall|u: int| 0 <= u < rest.len() - 1 implies #[trigger] rest[u] + 2 <= rest[u
            + 1] by {
            assert(rest[u] == s[u + 1]);
            assert(rest[u + 1] == s[u + 2]);
        }
        lemma_sets_complete(n, (k - 1) as nat, i + 2, rest);
        let inner = sets_from(n, (k - 1) as nat, i + 2);
        let t = choose|t: int| 0 <= t < inner.len() && inner[t] == rest;
        assert(w[t] == seq![i] + rest);
        assert(seq![i] + rest =~= s);
        assert((a + w)[a.len() + t] == s);
    }
}

/// Starts of a valid set grow by at least two per position.
proof fn lemma_starts_increase(s: Seq<int>, n: int, lo: int, u: int, v: int)
    requires
        valid_pair_starts(s, n, lo),
        0 <= u < v < s.len(),
    ensures
        s[u] + 2 * (v - u) <= s[v],
    decreases v - u,
{
    if v > u + 1 {
        lemma_starts_increase(s, n, lo, u, v - 1);
    }
    assert(s[v - 1] + 2 <= s[v]);
}

/// The enumeration is strictly increasing in lexicographic order.
proof fn lemma_sets_sorted(n: int, k: nat, lo: int)
    ensures
        forall|t: int, u: int|
            0 <= t < u < sets_from(n, k, lo).len() ==> lex_less(
                #[trigger] sets_from(n, k, lo)[t],
                #[trigger] sets_from(n, k, lo)[u],
            ),
    decreases k, 1int, 0int,
{
    if k > 0 {
        lemma_between_sorted(n, k, lo, n - 1);
        assert(sets_from(n, k, lo) == sets_between(n, k, lo, n - 1));
    } else {
        assert(sets_from(n, k, lo) =~= seq![Seq::<int>::empty()]);
    }
}

proof fn lemma_between_sorted(n: int, k: nat, lo: int, hi: int)
    requires
        k > 0,
    ensures
        forall|t: int, u: int|
            0 <= t < u < sets_between(n, k, lo, hi).len() ==> lex_less(
                #[trigger] sets_between(n, k, lo, hi)[t],
                #[trigger] sets_between(n, k, lo, hi)[u],
            ),
        forall|t: int|
            0 <= t < sets_between(n, k, lo, hi).len() ==> #[trigger] sets_between(
                n,
                k,
                lo,
                hi,
            )[t].len() > 0 && sets_between(n, k, lo, hi)[t][0] < hi,
    decreases k, 0int, hi - lo,
{
    if hi > lo {
        lemma_between_sorted(n, k, lo, hi - 1);
        let i = hi - 1;
        lemma_sets_sorted(n, (k - 1) as nat, i + 2);
        let a = sets_between(n, k, lo, hi - 1);
        let w = sets_with_first(n, (k - 1) as nat, i);
        let inner = sets_from(n, (k - 1) as nat, i + 2);
        let c = a + w;
        assert forall|t: int| 0 <= t < w.len() implies #[trigger] w[t].len() > 0 && w[t][0]
            == i by {
            assert(w[t] == seq![i] + inner[t]);
        }
        assert forall|t: int, u: int| 0 <= t < u < c.len() implies lex_less(
            #[trigger] c[t],
            #[trigger] c[u],
        ) by {
            if u < a.len() {
                assert(c[t] == a[t] && c[u] == a[u]);
            } else if t < a.len() {
                assert(c[t] == a[t]);
                assert(c[u] == w[u - a.len()]);
                assert(a[t][0] < i);
                assert(forall|m: int| 0 <= m < 0 ==> #[trigger] c[t][m] == #[trigger] c[u][m]);
            } else {
                let t2 = t - a.len();
                let u2 = u - a.len();
                assert(c[t] == w[t2] && c[u] == w[u2]);
                assert(lex_less(inner[t2], inner[u2]));
                let j = choose|j: int|
                    0 <= j < inner[t2].len() && j < inner[u2].len() && inner[t2][j]
                        < inner[u2][j] && forall|m: int|
                        0 <= m < j ==> #[trigger] inner[t2][m] == #[trigger] inner[u2][m];
                assert(w[t2] == seq![i] + inner[t2]);
                assert(w[u2] == seq![i] + inner[u2]);
                assert(w[t2][j + 1] < w[u2][j + 1]);
                assert forall|m: int| 0 <= m < j + 1 implies #[trigger] w[t2][m]
                    == #[trigger] w[u2][m] by {
                    if m > 0 {
                        assert(inner[t2][m - 1] == inner[u2][m - 1]);
                    }
                }
            }
        }
        assert forall|t: int| 0 <= t < c.len() implies #[trigger] c[t].len() > 0 && c[t][0]
            < hi by {
            if t < a.len() {
                assert(c[t] == a[t]);
            } else {
                assert(c[t] == w[t - a.len()]);
            }
        }
    }
}

/// The pair sets listed by `result` are, in order, `current` followed by
/// each set in `sets`.
spec fn lists_extensions(
    result: Seq<Vec<(usize, usize)>>,
    current: Seq<(usize, usize)>,
    sets: Seq<Seq<int>>,
) -> bool {
    &&& result.len() == sets.len()
    &&& forall|t: int|
        0 <= t < result.len() ==> #[trigger] result[t]@.len() == current.len() + sets[t].len()
            && result[t]@.subrange(0, current.len() as int) == current && pairs_match_starts(
            result[t]@.subrange(current.len() as int, result[t]@.len() as int),
            sets[t],
        )
}

/// Appends to `result`, for every set of `k` disjoint adjacent pairs from
/// slots `start .. n`, the pairs in `current` followed by that set.
fn collect_pair_sets(
    n: usize,
    k: usize,
    start: usize,
    current: &mut Vec<(usize, usize)>,
    result: &mut Vec<Vec<(usize, usize)>>,
)
    requires
        start <= n,
    ensures
        final(current)@ == old(current)@,
        final(result)@.len() >= old(result)@.len(),
        final(result)@.subrange(0, old(result)@.len() as int) == old(result)@,
        lists_extensions(
            final(result)@.subrange(old(result)@.len() as int, final(result)@.len() as int),
            old(current)@,
            sets_from(n as int, k as nat, start as int),
        ),
    decreases k,
{
    let ghost res0 = result@;
    let ghost cur0 = current@;
    if k == 0 {
        let c = copy_pairs(current);
        result.push(c);
        proof {
            let tail = result@.subrange(res0.len() as int, result@.len() as int);
            assert(tail =~= seq![c]);
            assert(c@ == cur0);
            assert(c@.subrange(0, cur0.len() as int) =~= cur0);
            assert(c@.subrange(cur0.len() as int, c@.len() as int) =~= Seq::<(usize, usize)>::empty());
            assert(sets_from(n as int, 0, start as int) == seq![Seq::<int>::empty()]);
            assert(result@.subrange(0, res0.len() as int) =~= res0);
        }
        return;
    }
    let mut i = start;
    while i < n && i + 1 < n
        invariant
            start <= i,
            i <= n,
            i == start || i < n,
            k > 0,
            current@ == cur0,
            result@.subrange(0, res0.len() as int) == res0,
            result@.len() >= res0.len(),
            lists_extensions(
                result@.subrange(res0.len() as int, result@.len() as int),
                cur0,
                sets_between(n as int, k as nat, start as int, i as int),
            ),
        decreases n - i,
    {
        let ghost before = result@;
        current.push((i, i + 1));
        collect_pair_sets(n, k - 1, i + 2, current, result);
        current.pop();
        proof {
            assert(current@ =~= cur0);
            let prev = before.subrange(res0.len() as int, before.len() as int);
            let added = result@.subrange(before.len() as int, result@.len() as int);
            let all = result@.subrange(res0.len() as int, result@.len() as int);
            let inner = sets_from(n as int, (k - 1) as nat, (i + 2) as int);
            let w = sets_with_first(n as int, (k - 1) as nat, i as int);
            let cur1 = cur0.push((i, (i + 1) as usize));
            assert(result@.subrange(0, before.len() as int) == before);
            assert(all =~= prev + added);
            assert(sets_between(n as int, k as nat, start as int, i + 1) == sets_between(
                n as int,
                k as nat,
                start as int,
                i as int,
            ) + w);
            assert(lists_extensions(added, cur1, inner));
            assert forall|t: int| 0 <= t < added.len() implies #[trigger] added[t]@.len()
                == cur0.len() + w[t].len() && added[t]@.subrange(0, cur0.len() as int) == cur0
                && pairs_match_starts(
                added[t]@.subrange(cur0.len() as int, added[t]@.len() as int),
                w[t],
            ) by {
                let v = added[t]@;
                assert(w[t] == seq![i as int] + inner[t]);
                assert(v.subrange(0, cur1.len() as int) == cur1);
                assert(v.subrange(0, cur0.len() as int) =~= cur1.subrange(0, cur0.len() as int));
                assert(cur1.subrange(0, cur0.len() as int) =~= cur0);
                let tailv = v.subrange(cur0.len() as int, v.len() as int);
                let tail1 = v.subrange(cur1.len() as int, v.len() as int);
                assert(pairs_match_starts(tail1, inner[t]));
                assert forall|u: int| 0 <= u < tailv.len() implies (#[trigger] tailv[u]).0
                    == w[t][u] && tailv[u].1 == w[t][u] + 1 by {
                    if u == 0 {
                        assert(tailv[0] == v[cur0.len() as int]);
                        assert(v[cur0.len() as int] == v.subrange(0, cur1.len() as int)[cur0.len() as int]);
                    } else {
                        assert(tailv[u] == tail1[u - 1]);
                    }
                }
            }
            assert forall|t: int| 0 <= t < all.len() implies #[trigger] all[t]@.len() == cur0.len()
                + (sets_between(n as int, k as nat, start as int, i as int) + w)[t].len()
                && all[t]@.subrange(0, cur0.len() as int) == cur0 && pairs_match_starts(
                all[t]@.subrange(cur0.len() as int, all[t]@.len() as int),
                (sets_between(n as int, k as nat, start as int, i as int) + w)[t],
            ) by {
                let sb = sets_between(n as int, k as nat, start as int, i as int);
                if t < prev.len() {
                    assert(all[t] == prev[t]);
                    assert((sb + w)[t] == sb[t]);
                } else {
                    assert(all[t] == added[t - prev.len()]);
                    assert((sb + w)[t] == w[t - prev.len()]);
                }
            }
            assert(result@.subrange(0, res0.len() as int) =~= before.subrange(0, res0.len() as int));
        }
        i = i + 1;
    }
    proof {
        if i as int != n - 1 {
            assert(i == n && start == n);
            assert(sets_between(n as int, k as nat, start as int, i as int) =~= Seq::<Seq<int>>::empty());
            assert(sets_between(n as int, k as nat, start as int, n - 1) =~= Seq::<Seq<int>>::empty());
        }
    }
}

/// An element-by-element copy of a list of pairs.
fn copy_pairs(v: &Vec<(usize, usize)>) -> (r: Vec<(usize, usize)>)
    ensures
        r@ == v@,
{
    let mut r: Vec<(usize, usize)> = Vec::new();
    let mut j: usize = 0;
    while j < v.len()
        invariant
            j <= v.len(),
            r@ == v@.subrange(0, j as int),
        decreases v.len() - j,
    {
        r.push(v[j]);
        j = j + 1;
        assert(r@ =~= v@.subrange(0, j as int));
    }
    assert(v@.subrange(0, v.len() as int) =~= v@);
    r
}

/// Enumerates all sets of `k` disjoint adjacent-index pairs `(i, i + 1)`
/// drawn from `0 .. n`. Each set lists its pairs in increasing order and
/// the sets come in increasing lexicographic order, each exactly once.
pub fn generate_disjoint_adjacent_pair_sets(n: usize, k: usize) -> (result: Vec<
    Vec<(usize, usize)>,
>)
    ensures
        forall|t: int|
            0 <= t < result@.len() ==> #[trigger] result@[t]@.len() == k && pairs_match_starts(
                result@[t]@,
                pair_starts(result@[t]@),
            ) && valid_pair_starts(pair_starts(result@[t]@), n as int, 0),
        forall|s: Seq<int>|
            s.len() == k && valid_pair_starts(s, n as int, 0) ==> exists|t: int|
                0 <= t < result@.len() && pair_starts(#[trigger] result@[t]@) == s,
        forall|t: int, u: int|
            0 <= t < u < result@.len() ==> lex_less(
                pair_starts(#[trigger] result@[t]@),
                pair_starts(#[trigger] result@[u]@),
            ),
{
    let mut result: Vec<Vec<(usize, usize)>> = Vec::new();
    let mut current: Vec<(usize, usize)> = Vec::new();
    collect_pair_sets(n, k, 0, &mut current, &mut result);
    proof {
        let sets = sets_from(n as int, k as nat, 0);
        let r = result@;
        assert(r.subrange(0, 0) =~= r.subrange(0, 0));
        assert(r.subrange(0, r.len() as int) =~= r);
        assert(current@.len() == 0);
        lemma_sets_sound(n as int, k as nat, 0);
        lemma_sets_sorted(n as int, k as nat, 0);
        assert forall|t: int| 0 <= t < r.len() implies pair_starts(#[trigger] r[t]@) == sets[t]
            && pairs_match_starts(r[t]@, pair_starts(r[t]@)) by {
            assert(r[t]@.subrange(0, r[t]@.len() as int) =~= r[t]@);
            assert(pair_starts(r[t]@) =~= sets[t]);
        }
        assert forall|s: Seq<int>| s.len() == k && valid_pair_starts(s, n as int, 0) implies exists|
            t: int,
        | 0 <= t < r.len() && pair_starts(#[trigger] r[t]@) == s by {
            lemma_sets_complete(n as int, k as nat, 0, s);
            let t = choose|t: int| 0 <= t < sets.len() && sets[t] == s;
            assert(pair_starts(r[t]@) == s);
        }
    }
    result
}

/// Pairs up slots `(0, 1), (2, 3), ...` while both slots exist.
pub fn pair_all_adjacent(n: usize) -> (pairs: Vec<(usize, usize)>)
    ensures
        pairs@.len() == n / 2,
        forall|t: int| 0 <= t < pairs@.len() ==> #[trigger] pairs@[t] == ((2 * t) as usize, (2 * t + 1) as usize),
{
    let mut pairs: Vec<(usize, usize)> = Vec::new();
    let mut i: usize = 0;
    while i < n && i + 1 < n
        invariant
            i % 2 == 0,
            i <= n,
            pairs@.len() == i / 2,
            forall|t: int| 0 <= t < pairs@.len() ==> #[trigger] pairs@[t] == ((2 * t) as usize, (2 * t + 1) as usize),
        decreases n - i,
    {
        pairs.push((i, i + 1));
        i = i + 2;
    }
    pairs
}


/// One unit in a boundary matching: how endpoints at a critical value
/// connect. Slot indices are in their intervals' ascending root order.
#[derive(Clone, Copy, Debug, PartialEq, Eq, Structural)]
pub enum MatchPair {
    /// The left interval's slot continues into the right interval's slot.
    PassThrough { left: usize, right: usize },
    /// Two left slots meet at the critical value and turn back.
    LeftUTurn { a: usize, b: usize },
    /// Two right slots emerge together from a double root.
    RightUTurn { a: usize, b: usize },
}

/// Slot `i` belongs to one of `pairs`.
pub open spec fn slot_used(pairs: Seq<(usize, usize)>, i: int) -> bool {
    exists|t: int| 0 <= t < pairs.len() && ((#[trigger] pairs[t]).0 == i || pairs[t].1 == i)
}

/// The slots `0 .. n` not used by `pairs`, in ascending order.
pub open spec fn unused_slots(n: int, pairs: Seq<(usize, usize)>) -> Seq<int>
    decreases n,
{
    if n <= 0 {
        Seq::empty()
    } else if slot_used(pairs, n - 1) {
        unused_slots(n - 1, pairs)
    } else {
        unused_slots(n - 1, pairs).push(n - 1)
    }
}

/// The matching at a boundary between a left interval with `l` root slots
/// and a right interval with `r`, given the U-turn pairs chosen on the
/// larger side, as the connector builds it: with equal counts every slot
/// passes through to the same slot; otherwise the U-turns come first,
/// then the unpaired slots of the larger side pass through, in order, to
/// the slots of the smaller side.
pub open spec fn boundary_matching_spec(l: int, r: int, u_pairs: Seq<(usize, usize)>) -> Seq<
    MatchPair,
> {
    if l == r {
        Seq::new(l as nat, |i: int| MatchPair::PassThrough { left: i as usize, right: i as usize })
    } else {
        let big = if l > r { l } else { r };
        let small = if l > r { r } else { l };
        let rem = unused_slots(big, u_pairs);
        let n_pass = if rem.len() < small { rem.len() as int } else { small };
        let turns = Seq::new(
            u_pairs.len(),
            |t: int|
                if l > r {
                    MatchPair::LeftUTurn { a: u_pairs[t].0, b: u_pairs[t].1 }
                } else {
                    MatchPair::RightUTurn { a: u_pairs[t].0, b: u_pairs[t].1 }
                },
        );
        let passes = Seq::new(
            n_pass as nat,
            |i: int|
                if l > r {
                    MatchPair::PassThrough { left: rem[i] as usize, right: i as usize }
                } else {
                    MatchPair::PassThrough { left: i as usize, right: rem[i] as usize }
                },
        );
        turns + passes
    }
}

proof fn lemma_matching_shape(l: int, r: int, u_pairs: Seq<(usize, usize)>)
    requires
        l != r,
        l >= 0,
        r >= 0,
    ensures
        ({
            let spec = boundary_matching_spec(l, r, u_pairs);
            let big = if l > r { l } else { r };
            let small = if l > r { r } else { l };
            let rem = unused_slots(big, u_pairs);
            let n_pass = if rem.len() < small { rem.len() as int } else { small };
            &&& spec.len() == u_pairs.len() + n_pass
            &&& forall|t: int| 0 <= t < u_pairs.len() ==> #[trigger] spec[t] == (if l > r {
                MatchPair::LeftUTurn { a: u_pairs[t].0, b: u_pairs[t].1 }
            } else {
                MatchPair::RightUTurn { a: u_pairs[t].0, b: u_pairs[t].1 }
            })
            &&& forall|k: int| 0 <= k < n_pass ==> #[trigger] spec[u_pairs.len() + k] == (if l > r {
                MatchPair::PassThrough { left: rem[k] as usize, right: k as usize }
            } else {
                MatchPair::PassThrough { left: k as usize, right: rem[k] as usize }
            })
        }),
{
    let big = if l > r { l } else { r };
    let small = if l > r { r } else { l };
    let rem = unused_slots(big, u_pairs);
    let n_pass = if rem.len() < small { rem.len() as int } else { small };
    let turns = Seq::new(
        u_pairs.len(),
        |t: int|
            if l > r {
                MatchPair::LeftUTurn { a: u_pairs[t].0, b: u_pairs[t].1 }
            } else {
                MatchPair::RightUTurn { a: u_pairs[t].0, b: u_pairs[t].1 }
            },
    );
    let passes = Seq::new(
        n_pass as nat,
        |i: int|
            if l > r {
                MatchPair::PassThrough { left: rem[i] as usize, right: i as usize }
            } else {
                MatchPair::PassThrough { left: i as usize, right: rem[i] as usize }
            },
    );
    assert(boundary_matching_spec(l, r, u_pairs) == turns + passes);
    assert forall|k: int| 0 <= k < n_pass implies #[trigger] (turns + passes)[u_pairs.len() + k] == passes[k] by {
    }
    assert forall|t: int| 0 <= t < u_pairs.len() implies #[trigger] (turns + passes)[t] == turns[t] by {
    }
    assert((turns + passes).len() == u_pairs.len() + n_pass);
}

/// How many of the slots `0 .. n` no pair of `pairs` uses.
pub open spec fn count_unused(n: int, pairs: Seq<(usize, usize)>) -> nat
    decreases n,
{
    if n <= 0 {
        0
    } else {
        count_unused(n - 1, pairs) + if slot_used(pairs, n - 1) {
            0nat
        } else {
            1nat
        }
    }
}

/// The slots of a pass-through entry as `(slot on the larger side, slot on
/// the smaller side)`; `(-1, -1)` for a U-turn.
pub open spec fn pass_slots(m: MatchPair, left_is_big: bool) -> (int, int) {
    match m {
        MatchPair::PassThrough { left, right } => if left_is_big {
            (left as int, right as int)
        } else {
            (right as int, left as int)
        },
        _ => (-1, -1),
    }
}

/// The unused slots below `n`, in order: each is unused and below `n`,
/// they increase, the one at position `k` has exactly `k` unused slots
/// below it, and every unused slot appears.
proof fn lemma_unused_slots_facts(n: int, pairs: Seq<(usize, usize)>)
    requires
        n >= 0,
    ensures
        unused_slots(n, pairs).len() == count_unused(n, pairs),
        forall|k: int|
            0 <= k < unused_slots(n, pairs).len() ==> 0 <= #[trigger] unused_slots(n, pairs)[k] < n
                && !slot_used(pairs, unused_slots(n, pairs)[k]) && count_unused(unused_slots(n, pairs)[k], pairs) == k,
        forall|j: int, k: int|
            0 <= j < k < unused_slots(n, pairs).len() ==> #[trigger] unused_slots(n, pairs)[j]
                < #[trigger] unused_slots(n, pairs)[k],
        forall|s: int|
            0 <= s < n && !slot_used(pairs, s) ==> #[trigger] count_unused(s, pairs) < unused_slots(n, pairs).len()
                && unused_slots(n, pairs)[count_unused(s, pairs) as int] == s,
    decreases n,
{
    if n > 0 {
        lemma_unused_slots_facts(n - 1, pairs);
        let prev = unused_slots(n - 1, pairs);
        if !slot_used(pairs, n - 1) {
            let cur = prev.push(n - 1);
            assert(unused_slots(n, pairs) == cur);
            assert forall|k: int| 0 <= k < cur.len() implies 0 <= #[trigger] cur[k] < n && !slot_used(pairs, cur[k])
                && count_unused(cur[k], pairs) == k by {
                if k < prev.len() {
                    assert(cur[k] == prev[k]);
                }
            }
            assert forall|j: int, k: int| 0 <= j < k < cur.len() implies #[trigger] cur[j] < #[trigger] cur[k] by {
                assert(cur[j] == prev[j]);
                if k < prev.len() {
                    assert(cur[k] == prev[k]);
                }
            }
            assert forall|s: int| 0 <= s < n && !slot_used(pairs, s) implies #[trigger] count_unused(s, pairs)
                < cur.len() && cur[count_unused(s, pairs) as int] == s by {
                if s < n - 1 {
                    assert(cur[count_unused(s, pairs) as int] == prev[count_unused(s, pairs) as int]);
                }
            }
        }
    }
}

/// With equal counts, entry `i` passes slot `i` straight through.
pub open spec fn matching_is_straight(m: Seq<MatchPair>, n: int) -> bool {
    &&& m.len() == n
    &&& forall|i: int|
        0 <= i < n ==> (#[trigger] m[i]) == (MatchPair::PassThrough { left: i as usize, right: i as usize })
}

/// The number of pass-throughs at a boundary with unequal counts: as many
/// unused slots of the larger side as the smaller side has slots for.
pub open spec fn pass_count(l: int, r: int, u_pairs: Seq<(usize, usize)>) -> int {
    let big = if l > r { l } else { r };
    let small = if l > r { r } else { l };
    if count_unused(big, u_pairs) < small {
        count_unused(big, u_pairs) as int
    } else {
        small
    }
}

/// The first entries are the U-turns, in the order of `u_pairs`, on the
/// larger side.
pub open spec fn uturns_first(m: Seq<MatchPair>, l: int, r: int, u_pairs: Seq<(usize, usize)>) -> bool {
    forall|t: int|
        0 <= t < u_pairs.len() ==> #[trigger] m[t] == (if l > r {
            MatchPair::LeftUTurn { a: u_pairs[t].0, b: u_pairs[t].1 }
        } else {
            MatchPair::RightUTurn { a: u_pairs[t].0, b: u_pairs[t].1 }
        })
}

/// Every later entry is a pass-through from a slot of the larger side that
/// no U-turn uses to the next slot of the smaller side.
pub open spec fn passes_use_free_slots(m: Seq<MatchPair>, l: int, r: int, u_pairs: Seq<(usize, usize)>) -> bool {
    let big = if l > r { l } else { r };
    let small = if l > r { r } else { l };
    forall|j: int|
        u_pairs.len() <= j < m.len() ==> {
            let (s, k) = pass_slots(#[trigger] m[j], l > r);
            &&& (m[j] is PassThrough)
            &&& 0 <= s < big
            &&& !slot_used(u_pairs, s)
            &&& forall|t: int| 0 <= t < u_pairs.len() ==> (#[trigger] u_pairs[t]).0 != s && u_pairs[t].1 != s
            &&& k == j - u_pairs.len()
            &&& k < small
        }
}

/// The pass-throughs take the larger side's slots in increasing order, so
/// no slot passes through twice.
pub open spec fn passes_increase(m: Seq<MatchPair>, l: int, u_pairs: Seq<(usize, usize)>, left_is_big: bool) -> bool {
    forall|i: int, j: int|
        u_pairs.len() <= i < j < m.len() ==> pass_slots(#[trigger] m[i], left_is_big).0 < pass_slots(
            #[trigger] m[j],
            left_is_big,
        ).0
}

/// Every slot of the larger side that no U-turn uses, and that has fewer
/// unused slots below it than the smaller side has slots, passes through
/// to the smaller side's slot numbered by that count.
pub open spec fn free_slots_pass(m: Seq<MatchPair>, l: int, r: int, u_pairs: Seq<(usize, usize)>) -> bool {
    let big = if l > r { l } else { r };
    let small = if l > r { r } else { l };
    forall|s: int|
        0 <= s < big && !slot_used(u_pairs, s) && #[trigger] count_unused(s, u_pairs) < small ==> pass_slots(
            m[u_pairs.len() + count_unused(s, u_pairs) as int],
            l > r,
        ) == (s, count_unused(s, u_pairs) as int)
}

/// What the boundary matching is, slot by slot. With equal counts every
/// slot passes straight through. Otherwise the U-turns of the larger side
/// come first; then each pass-through joins a slot of the larger side that
/// no U-turn uses to the next slot of the smaller side: the larger side's
/// slots increase, so none occurs twice, and an unused slot with `c`
/// unused slots below it passes through to the smaller side's slot `c`
/// whenever there is such a slot. So no slot of either side occurs in two
/// entries, and the larger side's pass-through slots are exactly its
/// unused slots, as far as the smaller side has room for them.
pub proof fn law_boundary_matching_slots(l: int, r: int, u_pairs: Seq<(usize, usize)>)
    requires
        0 <= l <= usize::MAX,
        0 <= r <= usize::MAX,
    ensures
        l == r ==> matching_is_straight(boundary_matching_spec(l, r, u_pairs), l),
        l != r ==> boundary_matching_spec(l, r, u_pairs).len() == u_pairs.len() + pass_count(l, r, u_pairs),
        l != r ==> uturns_first(boundary_matching_spec(l, r, u_pairs), l, r, u_pairs),
        l != r ==> passes_use_free_slots(boundary_matching_spec(l, r, u_pairs), l, r, u_pairs),
        l != r ==> passes_increase(boundary_matching_spec(l, r, u_pairs), l, u_pairs, l > r),
        l != r ==> free_slots_pass(boundary_matching_spec(l, r, u_pairs), l, r, u_pairs),
{
    if l != r {
        let m = boundary_matching_spec(l, r, u_pairs);
        let big = if l > r { l } else { r };
        let small = if l > r { r } else { l };
        let rem = unused_slots(big, u_pairs);
        lemma_matching_shape(l, r, u_pairs);
        lemma_unused_slots_facts(big, u_pairs);
        let n_pass = if rem.len() < small { rem.len() as int } else { small };
        assert forall|j: int| u_pairs.len() <= j < m.len() implies (#[trigger] m[j]) is PassThrough && 0
            <= pass_slots(m[j], l > r).0 < big && !slot_used(u_pairs, pass_slots(m[j], l > r).0) && pass_slots(
            m[j],
            l > r,
        ).1 == j - u_pairs.len() && pass_slots(m[j], l > r).1 < small by {
            let k = j - u_pairs.len();
            assert(m[u_pairs.len() + k] == m[j]);
            assert(0 <= rem[k] < big);
        }
        assert forall|i: int, j: int| u_pairs.len() <= i < j < m.len() implies pass_slots(#[trigger] m[i], l > r).0
            < pass_slots(#[trigger] m[j], l > r).0 by {
            let ki = i - u_pairs.len();
            let kj = j - u_pairs.len();
            assert(m[u_pairs.len() + ki] == m[i]);
            assert(m[u_pairs.len() + kj] == m[j]);
            assert(rem[ki] < rem[kj]);
            assert(0 <= rem[ki] < big);
            assert(0 <= rem[kj] < big);
        }
        assert forall|s: int| 0 <= s < big && !slot_used(u_pairs, s) && #[trigger] count_unused(s, u_pairs) < small
            implies pass_slots(m[u_pairs.len() + count_unused(s, u_pairs) as int], l > r) == (
            s,
            count_unused(s, u_pairs) as int,
        ) by {
            let c = count_unused(s, u_pairs) as int;
            assert(rem[c] == s);
            assert(c < n_pass);
        }
    }
}

/// Builds the boundary matching between a left interval with `l` slots and
/// a right interval with `r` slots from the U-turn pairs chosen on the
/// larger side (ignored when the counts are equal).
pub fn build_boundary_matching(l: usize, r: usize, u_pairs: &Vec<(usize, usize)>) -> (result: Vec<
    MatchPair,
>)
    ensures
        result@ == boundary_matching_spec(l as int, r as int, u_pairs@),
        l == r ==> matching_is_straight(result@, l as int),
        l != r ==> result@.len() == u_pairs@.len() + pass_count(l as int, r as int, u_pairs@),
        l != r ==> uturns_first(result@, l as int, r as int, u_pairs@),
        l != r ==> passes_use_free_slots(result@, l as int, r as int, u_pairs@),
        l != r ==> passes_increase(result@, l as int, u_pairs@, l > r),
        l != r ==> free_slots_pass(result@, l as int, r as int, u_pairs@),
{
    broadcast use vstd::std_specs::hash::group_hash_axioms;

    proof {
        law_boundary_matching_slots(l as int, r as int, u_pairs@);
    }

    let mut result: Vec<MatchPair> = Vec::new();
    if l == r {
        let mut i: usize = 0;
        while i < l
            invariant
                i <= l,
                l == r,
                result@ =~= boundary_matching_spec(l as int, r as int, u_pairs@).subrange(0, i as int),
            decreases l - i,
        {
            result.push(MatchPair::PassThrough { left: i, right: i });
            i = i + 1;
        }
        return result;
    }
    let big_is_left = l > r;
    let big = if big_is_left { l } else { r };
    let small = if big_is_left { r } else { l };
    let ghost spec = boundary_matching_spec(l as int, r as int, u_pairs@);
    let mut used: HashSet<usize> = HashSet::new();
    let mut t: usize = 0;
    while t < u_pairs.len()
        invariant
            t <= u_pairs.len(),
            l != r,
            big_is_left == (l > r),
            spec == boundary_matching_spec(l as int, r as int, u_pairs@),
            spec.len() >= u_pairs@.len(),
            forall|i: usize| #[trigger] used@.contains(i) <==> slot_used(u_pairs@.subrange(0, t as int), i as int),
            result@ =~= spec.subrange(0, t as int),
        decreases u_pairs.len() - t,
    {
        let (a, b) = u_pairs[t];
        let ghost used0 = used@;
        used.insert(a);
        used.insert(b);
        if big_is_left {
            result.push(MatchPair::LeftUTurn { a, b });
        } else {
            result.push(MatchPair::RightUTurn { a, b });
        }
        proof {
            let p0 = u_pairs@.subrange(0, t as int);
            let p1 = u_pairs@.subrange(0, t + 1);
            assert(p1 =~= p0.push((a, b)));
            assert forall|i: usize| #[trigger] used@.contains(i) <==> slot_used(p1, i as int) by {
                if slot_used(p0, i as int) {
                    let u = choose|u: int| 0 <= u < p0.len() && ((#[trigger] p0[u]).0 == i as int || p0[u].1 == i as int);
                    assert(p1[u] == p0[u]);
                }
                if slot_used(p1, i as int) {
                    let u = choose|u: int| 0 <= u < p1.len() && ((#[trigger] p1[u]).0 == i as int || p1[u].1 == i as int);
                    if u < p0.len() {
                        assert(p0[u] == p1[u]);
                    }
                }
                if i == a {
                    assert(p1[t as int].0 == i);
                }
                if i == b {
                    assert(p1[t as int].1 == i);
                }
            }
            lemma_matching_shape(l as int, r as int, u_pairs@);
        }
        t = t + 1;
    }
    assert(u_pairs@.subrange(0, t as int) =~= u_pairs@);
    let mut remaining: Vec<usize> = Vec::new();
    let mut i: usize = 0;
    while i < big
        invariant
            i <= big,
            forall|j: usize| #[trigger] used@.contains(j) <==> slot_used(u_pairs@, j as int),
            remaining@.len() == unused_slots(i as int, u_pairs@).len(),
            forall|j: int| 0 <= j < remaining@.len() ==> remaining@[j] as int == #[trigger] unused_slots(i as int, u_pairs@)[j],
            forall|j: int| 0 <= j < remaining@.len() ==> #[trigger] remaining@[j] < i,
        decreases big - i,
    {
        if !used.contains(&i) {
            remaining.push(i);
        }
        i = i + 1;
    }
    let n_pass = if remaining.len() < small { remaining.len() } else { small };
    let mut k: usize = 0;
    while k < n_pass
        invariant
            k <= n_pass,
            l != r,
            big_is_left == (l > r),
            big == (if l > r { l } else { r }),
            small == (if l > r { r } else { l }),
            n_pass == (if remaining@.len() < small { remaining@.len() } else { small as nat }),
            remaining@.len() == unused_slots(big as int, u_pairs@).len(),
            forall|j: int| 0 <= j < remaining@.len() ==> remaining@[j] as int == #[trigger] unused_slots(big as int, u_pairs@)[j],
            forall|j: int| 0 <= j < remaining@.len() ==> #[trigger] remaining@[j] < big,
            result@ =~= spec.subrange(0, u_pairs@.len() + k),
            spec == boundary_matching_spec(l as int, r as int, u_pairs@),
            spec.len() == u_pairs@.len() + n_pass,
        decreases n_pass - k,
    {
        let big_slot = remaining[k];
        if big_is_left {
            result.push(MatchPair::PassThrough { left: big_slot, right: k });
        } else {
            result.push(MatchPair::PassThrough { left: k, right: big_slot });
        }
        proof {
            lemma_matching_shape(l as int, r as int, u_pairs@);
        }
        k = k + 1;
    }
    assert(result@ =~= spec);
    result
}

/// The pairs chosen by scanning the gap indices `order` (each gap `i`
/// joins slots `i` and `i + 1`) and taking a gap whenever neither of its
/// slots is taken yet, stopping once `n_pairs` pairs are taken (with
/// `n_pairs == 0` the scan never stops early).
pub open spec fn greedy_pairs(order: Seq<usize>, m: int, n_pairs: int) -> Seq<(usize, usize)>
    decreases m,
{
    if m <= 0 {
        Seq::empty()
    } else {
        let prev = greedy_pairs(order, m - 1, n_pairs);
        let o = order[m - 1];
        if (n_pairs == 0 || prev.len() < n_pairs) && !slot_used(prev, o as int) && !slot_used(
            prev,
            o + 1,
        ) {
            prev.push((o, (o + 1) as usize))
        } else {
            prev
        }
    }
}

/// Greedy choice of `n_pairs` disjoint adjacent pairs among `n` slots,
/// visiting the gaps in the order given (smallest gap first).
pub fn select_gap_pairs(n: usize, order: &Vec<usize>, n_pairs: usize) -> (chosen: Vec<(usize, usize)>)
    requires
        forall|t: int| 0 <= t < order@.len() ==> #[trigger] order@[t] + 1 < n,
    ensures
        n < 2 ==> chosen@.len() == 0,
        n >= 2 ==> chosen@ == greedy_pairs(order@, order@.len() as int, n_pairs as int),
{
    let mut chosen: Vec<(usize, usize)> = Vec::new();
    if n < 2 {
        return chosen;
    }
    let mut used: Vec<bool> = Vec::new();
    let mut j: usize = 0;
    while j < n
        invariant
            j <= n,
            used@.len() == j,
            forall|q: int| 0 <= q < j ==> !(#[trigger] used@[q]),
        decreases n - j,
    {
        used.push(false);
        j = j + 1;
    }
    let mut m: usize = 0;
    while m < order.len()
        invariant
            m <= order@.len(),
            n >= 2,
            used@.len() == n,
            forall|t: int| 0 <= t < order@.len() ==> #[trigger] order@[t] + 1 < n,
            forall|q: int| 0 <= q < n ==> (#[trigger] used@[q] <==> slot_used(chosen@, q)),
            chosen@ == greedy_pairs(order@, m as int, n_pairs as int),
            n_pairs > 0 ==> chosen@.len() < n_pairs,
        decreases order@.len() - m,
    {
        let i = order[m];
        let ghost prev = chosen@;
        if used[i] || used[i + 1] {
            proof {
                assert(slot_used(prev, i as int) || slot_used(prev, i + 1));
                assert(greedy_pairs(order@, m + 1, n_pairs as int) == prev);
            }
            m = m + 1;
            continue;
        }
        proof {
            assert(!slot_used(prev, i as int) && !slot_used(prev, i + 1));
            assert(greedy_pairs(order@, m + 1, n_pairs as int) == prev.push((i, (i + 1) as usize)));
        }
        chosen.push((i, i + 1));
        used.set(i, true);
        used.set(i + 1, true);
        proof {
            assert(chosen@ == prev.push((i, (i + 1) as usize)));
            assert forall|q: int| 0 <= q < n implies (#[trigger] used@[q] <==> slot_used(chosen@, q)) by {
                if slot_used(prev, q) {
                    let u = choose|u: int| 0 <= u < prev.len() && ((#[trigger] prev[u]).0 == q || prev[u].1 == q);
                    assert(chosen@[u] == prev[u]);
                }
                if slot_used(chosen@, q) {
                    let u = choose|u: int| 0 <= u < chosen@.len() && ((#[trigger] chosen@[u]).0 == q || chosen@[u].1 == q);
                    if u < prev.len() {
                        assert(chosen@[u] == prev[u]);
                    }
                }
                if q == i as int {
                    assert(chosen@[prev.len() as int].0 == q);
                }
                if q == i + 1 {
                    assert(chosen@[prev.len() as int].1 == q);
                }
            }
        }
        m = m + 1;
        if chosen.len() == n_pairs {
            proof {
                lemma_greedy_stays(order@, m as int, order@.len() as int, n_pairs as int);
            }
            return chosen;
        }
    }
    chosen
}

/// Once `n_pairs` pairs are taken, the greedy scan takes nothing more.
proof fn lemma_greedy_stays(order: Seq<usize>, m: int, m2: int, n_pairs: int)
    requires
        0 <= m <= m2,
        n_pairs > 0,
        greedy_pairs(order, m, n_pairs).len() == n_pairs,
    ensures
        greedy_pairs(order, m2, n_pairs) == greedy_pairs(order, m, n_pairs),
    decreases m2 - m,
{
    if m2 > m {
        lemma_greedy_stays(order, m, m2 - 1, n_pairs);
    }
}

/// Which end of a segment (a slot's run through one stable interval).
#[derive(Clone, Copy, Debug, PartialEq, Eq, Structural)]
pub enum Side {
    /// First point in the segment (smallest s).
    Start,
    /// Last point in the segment (largest s).
    End,
}

/// One end of one segment.
#[derive(Clone, Copy, Debug, PartialEq, Eq, Structural)]
pub struct EndpointId {
    pub segment: usize,
    pub side: Side,
}

/// The position of an endpoint in a partner table: two per segment.
pub open spec fn endpoint_slot(e: EndpointId) -> int {
    2 * e.segment + if e.side == Side::End {
        1int
    } else {
        0int
    }
}

fn endpoint_index(e: EndpointId) -> (i: usize)
    requires
        endpoint_slot(e) <= usize::MAX,
    ensures
        i == endpoint_slot(e),
{
    match e.side {
        Side::Start => 2 * e.segment,
        Side::End => 2 * e.segment + 1,
    }
}

/// A partner table for `n` segments: for each endpoint, the endpoint it
/// connects to across a boundary, if any. It is a vector indexed by
/// `endpoint_slot` rather than a hash map keyed by `EndpointId`: vstd
/// specifies `HashMap` only for keys that obey its key model, which a
/// struct with derived `Eq` and `Hash` cannot be shown to do.
pub open spec fn partner_table_wf(partner: Seq<Option<EndpointId>>, n: int) -> bool {
    &&& partner.len() == 2 * n
    &&& forall|i: int|
        0 <= i < partner.len() ==> (#[trigger] partner[i] matches Some(e) ==> e.segment < n)
}

/// An empty partner table for `n` segments.
pub fn new_partner_table(n: usize) -> (partner: Vec<Option<EndpointId>>)
    requires
        2 * n <= usize::MAX,
    ensures
        partner_table_wf(partner@, n as int),
        forall|i: int| 0 <= i < partner@.len() ==> #[trigger] partner@[i] is None,
{
    let mut partner: Vec<Option<EndpointId>> = Vec::new();
    let mut i: usize = 0;
    while i < 2 * n
        invariant
            i <= 2 * n,
            2 * n <= usize::MAX,
            partner@.len() == i,
            forall|j: int| 0 <= j < i ==> #[trigger] partner@[j] is None,
        decreases 2 * n - i,
    {
        partner.push(None);
        i = i + 1;
    }
    partner
}

/// Records that endpoints `a` and `b` connect (in both directions); an
/// endpoint is never paired with itself.
pub fn insert_pair(partner: &mut Vec<Option<EndpointId>>, a: EndpointId, b: EndpointId)
    requires
        endpoint_slot(a) < old(partner)@.len(),
        endpoint_slot(b) < old(partner)@.len(),
    ensures
        a == b ==> final(partner)@ == old(partner)@,
        a != b ==> final(partner)@ == old(partner)@.update(endpoint_slot(a), Some(b)).update(
            endpoint_slot(b),
            Some(a),
        ),
{
    if a == b {
        return;
    }
    let plen = partner.len();
    let ia = endpoint_index(a);
    let ib = endpoint_index(b);
    partner.set(ia, Some(b));
    partner.set(ib, Some(a));
}

/// The endpoint through which a walk leaves a segment.
pub open spec fn exit_endpoint(step: (usize, bool)) -> EndpointId {
    EndpointId { segment: step.0, side: if step.1 { Side::End } else { Side::Start } }
}

/// The step after `step`: the segment on the other side of its exit,
/// entered through the partner endpoint (forward when that is its start).
pub open spec fn next_step(partner: Seq<Option<EndpointId>>, step: (usize, bool)) -> Option<
    (usize, bool),
> {
    match partner[endpoint_slot(exit_endpoint(step))] {
        Some(e) => Some((e.segment, e.side == Side::Start)),
        None => None,
    }
}

/// A walk through the segment graph: the segments in order, each with its
/// direction (`true` when traversed from start to end), and whether the
/// walk came back to its first segment.
pub struct ChainWalk {
    pub steps: Vec<(usize, bool)>,
    pub closed: bool,
}

/// Consecutive steps of `steps` follow partner links.
pub open spec fn follows_links(partner: Seq<Option<EndpointId>>, steps: Seq<(usize, bool)>) -> bool {
    forall|t: int| 0 <= t < steps.len() - 1 ==> next_step(partner, #[trigger] steps[t]) == Some(steps[t + 1])
}

/// No segment occurs twice in `steps`.
pub open spec fn distinct_segments(steps: Seq<(usize, bool)>) -> bool {
    forall|t: int, u: int| 0 <= t < u < steps.len() ==> #[trigger] steps[t].0 != #[trigger] steps[u].0
}

/// Segment `s` is one of the steps.
pub open spec fn steps_visit(steps: Seq<(usize, bool)>, s: int) -> bool {
    exists|t: int| 0 <= t < steps.len() && #[trigger] steps[t].0 == s
}

/// The number of unvisited segments.
pub open spec fn count_unvisited(v: Seq<bool>) -> nat
    decreases v.len(),
{
    if v.len() == 0 {
        0
    } else {
        count_unvisited(v.drop_last()) + if v.last() {
            0nat
        } else {
            1nat
        }
    }
}

proof fn lemma_count_unvisited_mark(v: Seq<bool>, i: int)
    requires
        0 <= i < v.len(),
        !v[i],
    ensures
        count_unvisited(v.update(i, true)) + 1 == count_unvisited(v),
    decreases v.len(),
{
    let w = v.update(i, true);
    if i == v.len() - 1 {
        assert(w.drop_last() =~= v.drop_last());
    } else {
        assert(w.drop_last() =~= v.drop_last().update(i, true));
        lemma_count_unvisited_mark(v.drop_last(), i);
    }
}

/// Walks the segment graph from `start_seg` in the given direction,
/// marking segments visited, until it reaches an open end or a visited
/// segment. The walk is closed when it returns to its first segment.
pub fn walk_chain(
    start_seg: usize,
    forward: bool,
    partner: &Vec<Option<EndpointId>>,
    visited: &mut Vec<bool>,
) -> (walk: ChainWalk)
    requires
        start_seg < old(visited)@.len(),
        partner_table_wf(partner@, old(visited)@.len() as int),
    ensures
        final(visited)@.len() == old(visited)@.len(),
        old(visited)@[start_seg as int] ==> walk.steps@.len() == 0 && final(visited)@ == old(visited)@
            && !walk.closed,
        !old(visited)@[start_seg as int] ==> walk.steps@.len() > 0 && walk.steps@[0] == (
            start_seg,
            forward,
        ),
        follows_links(partner@, walk.steps@),
        distinct_segments(walk.steps@),
        forall|t: int|
            0 <= t < walk.steps@.len() ==> (#[trigger] walk.steps@[t]).0 < old(visited)@.len()
                && !old(visited)@[walk.steps@[t].0 as int],
        forall|s: int|
            0 <= s < old(visited)@.len() ==> (#[trigger] final(visited)@[s] <==> old(visited)@[s]
                || steps_visit(walk.steps@, s)),
        walk.steps@.len() > 0 ==> match next_step(partner@, walk.steps@.last()) {
            None => !walk.closed,
            Some(nx) => final(visited)@[nx.0 as int] && (walk.closed <==> nx.0 == start_seg),
        },
{
    let ghost v0 = visited@;
    let n = visited.len();
    let mut steps: Vec<(usize, bool)> = Vec::new();
    let mut cur = start_seg;
    let mut cur_forward = forward;
    let mut closed = false;
    loop
        invariant_except_break
            cur < n,
            steps@.len() > 0 ==> next_step(partner@, steps@.last()) == Some((cur, cur_forward)),
            steps@.len() == 0 ==> cur == start_seg && cur_forward == forward,
            !closed,
        invariant
            n == visited@.len(),
            n == v0.len(),
            partner_table_wf(partner@, n as int),
            steps@.len() > 0 ==> steps@[0] == (start_seg, forward) && !v0[start_seg as int],
            follows_links(partner@, steps@),
            distinct_segments(steps@),
            forall|t: int|
                0 <= t < steps@.len() ==> (#[trigger] steps@[t]).0 < n && !v0[steps@[t].0 as int],
            forall|s: int| 0 <= s < n ==> (#[trigger] visited@[s] <==> v0[s] || steps_visit(steps@, s)),
        ensures
            v0[start_seg as int] ==> steps@.len() == 0 && !closed,
            !v0[start_seg as int] ==> steps@.len() > 0,
            steps@.len() > 0 ==> match next_step(partner@, steps@.last()) {
                None => !closed,
                Some(nx) => visited@[nx.0 as int] && (closed <==> nx.0 == start_seg),
            },
        decreases count_unvisited(visited@),
    {
        if visited[cur] {
            closed = cur == start_seg && steps.len() > 0;
            proof {
                if steps@.len() == 0 {
                    assert(v0[start_seg as int] || steps_visit(steps@, start_seg as int));
                }
            }
            break;
        }
        let ghost before = visited@;
        let ghost steps0 = steps@;
        proof {
            assert forall|t: int| 0 <= t < steps@.len() implies (#[trigger] steps@[t]).0 != cur by {
                if steps@[t].0 == cur {
                    assert(steps_visit(steps@, cur as int));
                }
            }
        }
        visited.set(cur, true);
        steps.push((cur, cur_forward));
        proof {
            lemma_count_unvisited_mark(before, cur as int);
            assert(steps@ == steps0.push((cur, cur_forward)));
            assert forall|t: int| 0 <= t < steps@.len() - 1 implies next_step(partner@, #[trigger] steps@[t])
                == Some(steps@[t + 1]) by {
                if t < steps0.len() - 1 {
                    assert(steps@[t] == steps0[t] && steps@[t + 1] == steps0[t + 1]);
                } else {
                    assert(steps@[t] == steps0.last());
                }
            }
            assert forall|s: int| 0 <= s < n implies (#[trigger] visited@[s] <==> v0[s] || steps_visit(steps@, s)) by {
                if steps_visit(steps0, s) {
                    let t = choose|t: int| 0 <= t < steps0.len() && #[trigger] steps0[t].0 == s;
                    assert(steps@[t] == steps0[t]);
                }
                if steps_visit(steps@, s) {
                    let t = choose|t: int| 0 <= t < steps@.len() && #[trigger] steps@[t].0 == s;
                    if t < steps0.len() {
                        assert(steps@[t] == steps0[t]);
                    }
                }
                if s == cur as int {
                    assert(steps@[steps0.len() as int].0 == s);
                }
            }
        }
        let exit = EndpointId { segment: cur, side: if cur_forward { Side::End } else { Side::Start } };
        let plen = partner.len();
        assert(endpoint_slot(exit) < plen);
        let slot = endpoint_index(exit);
        match partner[slot] {
            Some(e) => {
                proof {
                    assert(partner@[slot as int] matches Some(e2) ==> e2.segment < n);
                }
                cur = e.segment;
                cur_forward = match e.side {
                    Side::Start => true,
                    Side::End => false,
                };
            },
            None => {
                break;
            },
        }
    }
    ChainWalk { steps, closed }
}

/// Segment `s` occurs in one of the chains.
pub open spec fn chains_visit(chains: Seq<ChainWalk>, s: int) -> bool {
    exists|c: int| 0 <= c < chains.len() && #[trigger] steps_visit(chains[c].steps@, s)
}

/// No segment occurs in two chains, or twice in one.
pub open spec fn chains_disjoint(chains: Seq<ChainWalk>) -> bool {
    &&& forall|c: int| 0 <= c < chains.len() ==> distinct_segments(#[trigger] chains[c].steps@)
    &&& forall|c1: int, c2: int, t1: int, t2: int|
        0 <= c1 < chains.len() && 0 <= c2 < chains.len() && c1 != c2 && 0 <= t1
            < chains[c1].steps@.len() && 0 <= t2 < chains[c2].steps@.len() ==> #[trigger] chains[c1].steps@[t1].0
            != #[trigger] chains[c2].steps@[t2].0
}

/// A chain is a nonempty walk over segments `0 .. n` along partner links,
/// closed exactly when the link out of its last segment leads back to its
/// first.
pub open spec fn chain_wf(partner: Seq<Option<EndpointId>>, n: int, c: ChainWalk) -> bool {
    &&& c.steps@.len() > 0
    &&& follows_links(partner, c.steps@)
    &&& forall|t: int| 0 <= t < c.steps@.len() ==> (#[trigger] c.steps@[t]).0 < n
    &&& match next_step(partner, c.steps@.last()) {
        None => !c.closed,
        Some(nx) => c.closed <==> nx.0 == c.steps@[0].0,
    }
}

/// Walks from `seg` (if not yet visited) and records the chain.
fn walk_and_record(
    seg: usize,
    forward: bool,
    partner: &Vec<Option<EndpointId>>,
    visited: &mut Vec<bool>,
    chains: &mut Vec<ChainWalk>,
)
    requires
        seg < old(visited)@.len(),
        partner_table_wf(partner@, old(visited)@.len() as int),
        chains_disjoint(old(chains)@),
        forall|c: int| 0 <= c < old(chains)@.len() ==> chain_wf(partner@, old(visited)@.len() as int, #[trigger] old(chains)@[c]),
        forall|s: int| 0 <= s < old(visited)@.len() ==> (#[trigger] old(visited)@[s] <==> chains_visit(old(chains)@, s)),
    ensures
        final(visited)@.len() == old(visited)@.len(),
        final(visited)@[seg as int],
        forall|s: int| 0 <= s < old(visited)@.len() && #[trigger] old(visited)@[s] ==> final(visited)@[s],
        chains_disjoint(final(chains)@),
        forall|c: int| 0 <= c < final(chains)@.len() ==> chain_wf(partner@, old(visited)@.len() as int, #[trigger] final(chains)@[c]),
        forall|s: int| 0 <= s < old(visited)@.len() ==> (#[trigger] final(visited)@[s] <==> chains_visit(final(chains)@, s)),
        old(visited)@[seg as int] ==> final(chains)@ == old(chains)@,
        !old(visited)@[seg as int] ==> final(chains)@.len() == old(chains)@.len() + 1
            && final(chains)@.last().steps@[0] == (seg, forward)
            && final(chains)@.subrange(0, old(chains)@.len() as int) == old(chains)@
            && (next_step(partner@, final(chains)@.last().steps@.last()) matches Some(nx) ==> final(visited)@[nx.0 as int]),
{
    let ghost v0 = visited@;
    let ghost c0 = chains@;
    let n = visited.len();
    let walk = walk_chain(seg, forward, partner, visited);
    if walk.steps.len() > 0 {
        chains.push(walk);
        proof {
            let w = chains@.last();
            assert(chains@.subrange(0, c0.len() as int) =~= c0);
            assert forall|c: int| 0 <= c < chains@.len() implies chain_wf(partner@, n as int, #[trigger] chains@[c]) by {
                if c < c0.len() {
                    assert(chains@[c] == c0[c]);
                }
            }
            assert forall|s: int| 0 <= s < n implies (#[trigger] visited@[s] <==> chains_visit(chains@, s)) by {
                if chains_visit(c0, s) {
                    let c = choose|c: int| 0 <= c < c0.len() && #[trigger] steps_visit(c0[c].steps@, s);
                    assert(chains@[c] == c0[c]);
                }
                if chains_visit(chains@, s) {
                    let c = choose|c: int| 0 <= c < chains@.len() && #[trigger] steps_visit(chains@[c].steps@, s);
                    if c < c0.len() {
                        assert(chains@[c] == c0[c]);
                    }
                }
                if steps_visit(w.steps@, s) {
                    assert(steps_visit(chains@[c0.len() as int].steps@, s));
                }
            }
            assert forall|c: int| 0 <= c < chains@.len() implies distinct_segments(#[trigger] chains@[c].steps@) by {
                if c < c0.len() {
                    assert(chains@[c] == c0[c]);
                }
            }
            assert forall|c1: int, c2: int, t1: int, t2: int|
                0 <= c1 < chains@.len() && 0 <= c2 < chains@.len() && c1 != c2 && 0 <= t1
                    < chains@[c1].steps@.len() && 0 <= t2 < chains@[c2].steps@.len() implies #[trigger] chains@[c1].steps@[t1].0
                    != #[trigger] chains@[c2].steps@[t2].0 by {
                let last = c0.len() as int;
                if c1 < last && c2 < last {
                    assert(chains@[c1] == c0[c1] && chains@[c2] == c0[c2]);
                } else if c1 < last {
                    assert(chains@[c1] == c0[c1]);
                    let s = chains@[c1].steps@[t1].0 as int;
                    assert(steps_visit(c0[c1].steps@, s));
                    assert(chains_visit(c0, s));
                    assert(v0[s]);
                } else {
                    assert(chains@[c2] == c0[c2]);
                    let s = chains@[c2].steps@[t2].0 as int;
                    assert(steps_visit(c0[c2].steps@, s));
                    assert(chains_visit(c0, s));
                    assert(v0[s]);
                }
            }
            assert(steps_visit(w.steps@, seg as int));
        }
    } else {
        proof {
            assert(v0[seg as int]);
        }
    }
}

/// The step a chain starts with.
pub open spec fn chain_start(ch: ChainWalk) -> (usize, bool) {
    ch.steps@[0]
}

/// Which pass of the extraction starts a chain: `1` for a chain walked
/// forward from an open start endpoint, `2` for one walked backward from an
/// open end endpoint, `3` for one walked forward from a segment whose start
/// is linked (what remains).
pub open spec fn chain_group(partner: Seq<Option<EndpointId>>, ch: ChainWalk) -> int {
    let (s, f) = chain_start(ch);
    if !f {
        2
    } else if partner[2 * s] is None {
        1
    } else {
        3
    }
}

/// Segment `s` has no link at its start endpoint.
pub open spec fn start_is_open(partner: Seq<Option<EndpointId>>, s: int) -> bool {
    partner[2 * s] is None
}

/// Segment `s` has no link at its end endpoint.
pub open spec fn end_is_open(partner: Seq<Option<EndpointId>>, s: int) -> bool {
    partner[2 * s + 1] is None
}

/// The segments that the pass `g` starts chains at: open start endpoints
/// for the first, open end endpoints for the second, any for the third.
pub open spec fn scan_condition(partner: Seq<Option<EndpointId>>, g: int, s: int) -> bool {
    if g == 1 {
        partner[2 * s] is None
    } else if g == 2 {
        partner[2 * s + 1] is None
    } else {
        true
    }
}

/// The chains come pass by pass, and within a pass in increasing order of
/// their first segments; a chain of the second pass starts at an open end
/// endpoint, one of the third at a segment with both endpoints linked.
pub open spec fn chains_ordered(partner: Seq<Option<EndpointId>>, chains: Seq<ChainWalk>) -> bool {
    &&& forall|c1: int, c2: int|
        0 <= c1 < c2 < chains.len() ==> chain_group(partner, #[trigger] chains[c1]) < chain_group(
            partner,
            #[trigger] chains[c2],
        ) || (chain_group(partner, chains[c1]) == chain_group(partner, chains[c2]) && chain_start(chains[c1]).0
            < chain_start(chains[c2]).0)
    &&& forall|c: int|
        0 <= c < chains.len() ==> (chain_group(partner, #[trigger] chains[c]) == 2 ==> partner[2
            * chain_start(chains[c]).0 + 1] is None) && (chain_group(partner, chains[c]) == 3 ==> partner[2
            * chain_start(chains[c]).0 + 1] is Some)
}

/// A chain starts at the first segment that its pass finds unused: every
/// earlier segment that the pass would start at lies in an earlier chain.
pub open spec fn chains_scanned(partner: Seq<Option<EndpointId>>, chains: Seq<ChainWalk>) -> bool {
    forall|c: int, s: int|
        0 <= c < chains.len() && 0 <= s < chain_start(chains[c]).0 && scan_condition(
            partner,
            chain_group(partner, #[trigger] chains[c]),
            s,
        ) ==> #[trigger] chains_visit(chains.subrange(0, c), s)
}

/// A chain is whole: it stops only at an open endpoint or where the next
/// step falls in this chain or an earlier one.
pub open spec fn chains_end_maximal(partner: Seq<Option<EndpointId>>, chains: Seq<ChainWalk>) -> bool {
    forall|c: int|
        0 <= c < chains.len() ==> (next_step(partner, (#[trigger] chains[c]).steps@.last()) matches Some(nx)
            ==> chains_visit(chains.subrange(0, c + 1), nx.0 as int))
}

/// The facts that the extraction keeps as it adds chains.
pub open spec fn extraction_facts(partner: Seq<Option<EndpointId>>, chains: Seq<ChainWalk>) -> bool {
    chains_ordered(partner, chains) && chains_scanned(partner, chains) && chains_end_maximal(partner, chains)
}

/// A prefix of the chains visits what it visited before the later ones
/// were added.
proof fn lemma_prefix_chains(old_c: Seq<ChainWalk>, new_c: Seq<ChainWalk>, k: int, s: int)
    requires
        old_c.len() <= new_c.len(),
        new_c.subrange(0, old_c.len() as int) == old_c,
        0 <= k <= old_c.len(),
    ensures
        new_c.subrange(0, k) == old_c.subrange(0, k),
        chains_visit(new_c.subrange(0, k), s) == chains_visit(old_c.subrange(0, k), s),
{
    assert(new_c.subrange(0, k) =~= old_c.subrange(0, k));
}

/// Adding a chain that starts where its pass finds the first unused
/// segment, after all chains of earlier passes and of earlier segments,
/// and that stops only at an open endpoint or a used segment, keeps the
/// extraction facts.
proof fn lemma_push_chain(partner: Seq<Option<EndpointId>>, old_c: Seq<ChainWalk>, new_c: Seq<ChainWalk>)
    requires
        new_c.len() == old_c.len() + 1,
        new_c.subrange(0, old_c.len() as int) == old_c,
        new_c.last().steps@.len() > 0,
        extraction_facts(partner, old_c),
        forall|c: int|
            0 <= c < old_c.len() ==> chain_group(partner, #[trigger] old_c[c]) < chain_group(partner, new_c.last())
                || (chain_group(partner, old_c[c]) == chain_group(partner, new_c.last()) && chain_start(old_c[c]).0
                < chain_start(new_c.last()).0),
        chain_group(partner, new_c.last()) == 2 ==> partner[2 * chain_start(new_c.last()).0 + 1] is None,
        chain_group(partner, new_c.last()) == 3 ==> partner[2 * chain_start(new_c.last()).0 + 1] is Some,
        forall|s: int|
            0 <= s < chain_start(new_c.last()).0 && scan_condition(partner, chain_group(partner, new_c.last()), s)
                ==> #[trigger] chains_visit(old_c, s),
        next_step(partner, new_c.last().steps@.last()) matches Some(nx) ==> chains_visit(new_c, nx.0 as int),
    ensures
        extraction_facts(partner, new_c),
{
    let k = old_c.len() as int;
    assert forall|c: int| 0 <= c < k implies #[trigger] new_c[c] == old_c[c] by {
        assert(new_c.subrange(0, k)[c] == new_c[c]);
    }
    assert(new_c.subrange(0, k + 1) =~= new_c);
    assert(new_c.subrange(0, k) =~= old_c);
    assert forall|c1: int, c2: int|
        0 <= c1 < c2 < new_c.len() implies chain_group(partner, #[trigger] new_c[c1]) < chain_group(
            partner,
            #[trigger] new_c[c2],
        ) || (chain_group(partner, new_c[c1]) == chain_group(partner, new_c[c2]) && chain_start(new_c[c1]).0
            < chain_start(new_c[c2]).0) by {
        if c2 < k {
            assert(new_c[c1] == old_c[c1] && new_c[c2] == old_c[c2]);
        } else {
            assert(new_c[c1] == old_c[c1]);
            assert(new_c[c2] == new_c.last());
        }
    }
    assert forall|c: int|
        0 <= c < new_c.len() implies (chain_group(partner, #[trigger] new_c[c]) == 2 ==> partner[2 * chain_start(
            new_c[c],
        ).0 + 1] is None) && (chain_group(partner, new_c[c]) == 3 ==> partner[2 * chain_start(new_c[c]).0 + 1] is Some) by {
        if c < k {
            assert(new_c[c] == old_c[c]);
        }
    }
    assert forall|c: int, s: int|
        0 <= c < new_c.len() && 0 <= s < chain_start(new_c[c]).0 && scan_condition(
            partner,
            chain_group(partner, #[trigger] new_c[c]),
            s,
        ) implies #[trigger] chains_visit(new_c.subrange(0, c), s) by {
        if c < k {
            assert(new_c[c] == old_c[c]);
            lemma_prefix_chains(old_c, new_c, c, s);
            assert(chains_visit(old_c.subrange(0, c), s));
        } else {
            assert(new_c[c] == new_c.last());
            assert(chains_visit(old_c, s));
        }
    }
    assert forall|c: int|
        0 <= c < new_c.len() implies (next_step(partner, (#[trigger] new_c[c]).steps@.last()) matches Some(nx)
            ==> chains_visit(new_c.subrange(0, c + 1), nx.0 as int)) by {
        if c < k {
            assert(new_c[c] == old_c[c]);
            if let Some(nx) = next_step(partner, new_c[c].steps@.last()) {
                lemma_prefix_chains(old_c, new_c, c + 1, nx.0 as int);
            }
        } else {
            assert(new_c[c] == new_c.last());
        }
    }
}

/// Walks the segment graph and returns every connected chain: first the
/// chains that begin at an open start endpoint (traced forward), then those
/// that begin at an open end endpoint (traced backward), then the closed
/// loops that remain. Every segment ends up in exactly one chain, and each
/// chain is whole: it runs until an open endpoint or a segment already used.
#[verifier::rlimit(100)]
pub fn extract_chains(n: usize, partner: &Vec<Option<EndpointId>>) -> (chains: Vec<ChainWalk>)
    requires
        partner_table_wf(partner@, n as int),
    ensures
        forall|c: int| 0 <= c < chains@.len() ==> chain_wf(partner@, n as int, #[trigger] chains@[c]),
        chains_disjoint(chains@),
        forall|s: int| 0 <= s < n ==> chains_visit(chains@, s),
        chains_ordered(partner@, chains@),
        chains_scanned(partner@, chains@),
        chains_end_maximal(partner@, chains@),
        forall|s: int|
            0 <= s < n && #[trigger] start_is_open(partner@, s) ==> exists|c: int|
                0 <= c < chains@.len() && chain_group(partner@, chains@[c]) == 1 && #[trigger] steps_visit(
                    chains@[c].steps@,
                    s,
                ),
        forall|s: int|
            0 <= s < n && #[trigger] end_is_open(partner@, s) ==> exists|c: int|
                0 <= c < chains@.len() && chain_group(partner@, chains@[c]) <= 2 && #[trigger] steps_visit(
                    chains@[c].steps@,
                    s,
                ),
{
    let mut visited: Vec<bool> = Vec::new();
    let mut i: usize = 0;
    while i < n
        invariant
            i <= n,
            visited@.len() == i,
            forall|s: int| 0 <= s < i ==> !(#[trigger] visited@[s]),
        decreases n - i,
    {
        visited.push(false);
        i = i + 1;
    }
    let plen = partner.len();
    let mut chains: Vec<ChainWalk> = Vec::new();
    let mut seg: usize = 0;
    while seg < n
        invariant
            seg <= n,
            visited@.len() == n,
            plen == 2 * n,
            partner_table_wf(partner@, n as int),
            chains_disjoint(chains@),
            forall|c: int| 0 <= c < chains@.len() ==> chain_wf(partner@, n as int, #[trigger] chains@[c]),
            forall|s: int| 0 <= s < n ==> (#[trigger] visited@[s] <==> chains_visit(chains@, s)),
            extraction_facts(partner@, chains@),
            forall|c: int|
                0 <= c < chains@.len() ==> chain_group(partner@, #[trigger] chains@[c]) == 1 && chain_start(
                    chains@[c],
                ).0 < seg,
            forall|s: int| 0 <= s < seg && partner@[2 * s] is None ==> #[trigger] visited@[s],
        decreases n - seg,
    {
        let start_open = partner[2 * seg].is_none();
        if !visited[seg] && start_open {
            let ghost c0 = chains@;
            let ghost v0 = visited@;
            walk_and_record(seg, true, partner, &mut visited, &mut chains);
            proof {
                assert forall|c: int| 0 <= c < c0.len() implies #[trigger] chains@[c] == c0[c] by {
                    assert(chains@.subrange(0, c0.len() as int)[c] == chains@[c]);
                }
                assert forall|t: int| 0 <= t < seg && partner@[2 * t] is None implies #[trigger] chains_visit(c0, t) by {
                    assert(v0[t]);
                }
                assert forall|t: int| 0 <= t < seg + 1 && partner@[2 * t] is None implies #[trigger] visited@[t] by {
                    if t < seg {
                        assert(v0[t]);
                    }
                }
                if let Some(nx) = next_step(partner@, chains@.last().steps@.last()) {
                    assert(partner@[endpoint_slot(exit_endpoint(chains@.last().steps@.last()))] matches Some(e)
                        ==> e.segment < n);
                    assert(visited@[nx.0 as int]);
                }
                lemma_push_chain(partner@, c0, chains@);
            }
        }
        seg = seg + 1;
    }
    let ghost k1 = chains@.len();
    proof {
        assert forall|s: int| 0 <= s < n && start_is_open(partner@, s) implies exists|c: int|
            0 <= c < chains@.len() && chain_group(partner@, chains@[c]) == 1 && #[trigger] steps_visit(
                chains@[c].steps@,
                s,
            ) by {
            assert(visited@[s]);
            let c = choose|c: int| 0 <= c < chains@.len() && #[trigger] steps_visit(chains@[c].steps@, s);
            assert(chain_group(partner@, chains@[c]) == 1);
        }
    }
    seg = 0;
    while seg < n
        invariant
            seg <= n,
            visited@.len() == n,
            plen == 2 * n,
            partner_table_wf(partner@, n as int),
            chains_disjoint(chains@),
            forall|c: int| 0 <= c < chains@.len() ==> chain_wf(partner@, n as int, #[trigger] chains@[c]),
            forall|s: int| 0 <= s < n ==> (#[trigger] visited@[s] <==> chains_visit(chains@, s)),
            extraction_facts(partner@, chains@),
            forall|c: int|
                0 <= c < chains@.len() ==> chain_group(partner@, #[trigger] chains@[c]) == 1 || (chain_group(
                    partner@,
                    chains@[c],
                ) == 2 && chain_start(chains@[c]).0 < seg),
            forall|s: int|
                0 <= s < n && #[trigger] start_is_open(partner@, s) ==> exists|c: int|
                    0 <= c < chains@.len() && chain_group(partner@, chains@[c]) == 1 && #[trigger] steps_visit(
                        chains@[c].steps@,
                        s,
                    ),
            forall|s: int| 0 <= s < seg && partner@[2 * s + 1] is None ==> #[trigger] visited@[s],
        decreases n - seg,
    {
        let end_open = partner[2 * seg + 1].is_none();
        if !visited[seg] && end_open {
            let ghost c0 = chains@;
            let ghost v0 = visited@;
            walk_and_record(seg, false, partner, &mut visited, &mut chains);
            proof {
                assert forall|c: int| 0 <= c < c0.len() implies #[trigger] chains@[c] == c0[c] by {
                    assert(chains@.subrange(0, c0.len() as int)[c] == chains@[c]);
                }
                assert forall|t: int| 0 <= t < seg && partner@[2 * t + 1] is None implies #[trigger] chains_visit(c0, t) by {
                    assert(v0[t]);
                }
                assert forall|t: int| 0 <= t < seg + 1 && partner@[2 * t + 1] is None implies #[trigger] visited@[t] by {
                    if t < seg {
                        assert(v0[t]);
                    }
                }
                if let Some(nx) = next_step(partner@, chains@.last().steps@.last()) {
                    assert(partner@[endpoint_slot(exit_endpoint(chains@.last().steps@.last()))] matches Some(e)
                        ==> e.segment < n);
                    assert(visited@[nx.0 as int]);
                }
                lemma_push_chain(partner@, c0, chains@);
                assert forall|t: int| 0 <= t < n && start_is_open(partner@, t) implies exists|c: int|
                    0 <= c < chains@.len() && chain_group(partner@, chains@[c]) == 1 && #[trigger] steps_visit(
                        chains@[c].steps@,
                        t,
                    ) by {
                    let c = choose|c: int|
                        0 <= c < c0.len() && chain_group(partner@, c0[c]) == 1 && #[trigger] steps_visit(c0[c].steps@, t);
                    assert(chains@[c] == c0[c]);
                }
            }
        }
        seg = seg + 1;
    }
    proof {
        assert forall|s: int| 0 <= s < n && end_is_open(partner@, s) implies exists|c: int|
            0 <= c < chains@.len() && chain_group(partner@, chains@[c]) <= 2 && #[trigger] steps_visit(
                chains@[c].steps@,
                s,
            ) by {
            assert(visited@[s]);
            let c = choose|c: int| 0 <= c < chains@.len() && #[trigger] steps_visit(chains@[c].steps@, s);
            assert(chain_group(partner@, chains@[c]) <= 2);
        }
    }
    seg = 0;
    while seg < n
        invariant
            seg <= n,
            visited@.len() == n,
            plen == 2 * n,
            partner_table_wf(partner@, n as int),
            chains_disjoint(chains@),
            forall|c: int| 0 <= c < chains@.len() ==> chain_wf(partner@, n as int, #[trigger] chains@[c]),
            forall|s: int| 0 <= s < n ==> (#[trigger] visited@[s] <==> chains_visit(chains@, s)),
            forall|s: int| 0 <= s < seg ==> #[trigger] visited@[s],
            extraction_facts(partner@, chains@),
            forall|c: int|
                0 <= c < chains@.len() ==> chain_group(partner@, #[trigger] chains@[c]) <= 2 || chain_start(
                    chains@[c],
                ).0 < seg,
            forall|s: int|
                0 <= s < n && #[trigger] start_is_open(partner@, s) ==> exists|c: int|
                    0 <= c < chains@.len() && chain_group(partner@, chains@[c]) == 1 && #[trigger] steps_visit(
                        chains@[c].steps@,
                        s,
                    ),
            forall|s: int|
                0 <= s < n && #[trigger] end_is_open(partner@, s) ==> exists|c: int|
                    0 <= c < chains@.len() && chain_group(partner@, chains@[c]) <= 2 && #[trigger] steps_visit(
                        chains@[c].steps@,
                        s,
                    ),
        decreases n - seg,
    {
        let ghost before = visited@;
        if !visited[seg] {
            let ghost c0 = chains@;
            walk_and_record(seg, true, partner, &mut visited, &mut chains);
            proof {
                assert forall|c: int| 0 <= c < c0.len() implies #[trigger] chains@[c] == c0[c] by {
                    assert(chains@.subrange(0, c0.len() as int)[c] == chains@[c]);
                }
                if start_is_open(partner@, seg as int) {
                    let c = choose|c: int|
                        0 <= c < c0.len() && chain_group(partner@, c0[c]) == 1 && #[trigger] steps_visit(
                            c0[c].steps@,
                            seg as int,
                        );
                    assert(chains_visit(c0, seg as int));
                }
                if end_is_open(partner@, seg as int) {
                    let c = choose|c: int|
                        0 <= c < c0.len() && chain_group(partner@, c0[c]) <= 2 && #[trigger] steps_visit(
                            c0[c].steps@,
                            seg as int,
                        );
                    assert(chains_visit(c0, seg as int));
                }
                assert(chain_group(partner@, chains@.last()) == 3);
                assert forall|t: int| 0 <= t < seg implies #[trigger] chains_visit(c0, t) by {
                    assert(before[t]);
                }
                if let Some(nx) = next_step(partner@, chains@.last().steps@.last()) {
                    assert(partner@[endpoint_slot(exit_endpoint(chains@.last().steps@.last()))] matches Some(e)
                        ==> e.segment < n);
                    assert(visited@[nx.0 as int]);
                }
                lemma_push_chain(partner@, c0, chains@);
                assert forall|t: int| 0 <= t < n && start_is_open(partner@, t) implies exists|c: int|
                    0 <= c < chains@.len() && chain_group(partner@, chains@[c]) == 1 && #[trigger] steps_visit(
                        chains@[c].steps@,
                        t,
                    ) by {
                    let c = choose|c: int|
                        0 <= c < c0.len() && chain_group(partner@, c0[c]) == 1 && #[trigger] steps_visit(c0[c].steps@, t);
                    assert(chains@[c] == c0[c]);
                }
                assert forall|t: int| 0 <= t < n && end_is_open(partner@, t) implies exists|c: int|
                    0 <= c < chains@.len() && chain_group(partner@, chains@[c]) <= 2 && #[trigger] steps_visit(
                        chains@[c].steps@,
                        t,
                    ) by {
                    let c = choose|c: int|
                        0 <= c < c0.len() && chain_group(partner@, c0[c]) <= 2 && #[trigger] steps_visit(c0[c].steps@, t);
                    assert(chains@[c] == c0[c]);
                }
            }
            assert forall|s: int| 0 <= s < seg implies #[trigger] visited@[s] by {
                assert(before[s]);
            }
        }
        seg = seg + 1;
    }
    proof {
        assert forall|s: int| 0 <= s < n implies chains_visit(chains@, s) by {
            assert(visited@[s]);
        }
    }
    chains
}

/// The partner table after recording each pair of `pairs` in order.
pub open spec fn apply_pairs(partner: Seq<Option<EndpointId>>, pairs: Seq<(EndpointId, EndpointId)>) -> Seq<
    Option<EndpointId>,
>
    decreases pairs.len(),
{
    if pairs.len() == 0 {
        partner
    } else {
        let prev = apply_pairs(partner, pairs.drop_last());
        let (a, b) = pairs.last();
        if a == b {
            prev
        } else {
            prev.update(endpoint_slot(a), Some(b)).update(endpoint_slot(b), Some(a))
        }
    }
}

/// The endpoint pairs that a boundary contributes, in order: with no roots
/// on one side, the slots of the other side pair up as `(0, 1), (2, 3),
/// ...`; otherwise each entry of the boundary matching joins the left
/// segments' end endpoints and the right segments' start endpoints.
pub open spec fn boundary_endpoint_pairs(
    left_segs: Seq<usize>,
    right_segs: Seq<usize>,
    u_pairs: Seq<(usize, usize)>,
) -> Seq<(EndpointId, EndpointId)> {
    let l = left_segs.len() as int;
    let r = right_segs.len() as int;
    if l == 0 && r == 0 {
        Seq::empty()
    } else if l == 0 {
        Seq::new(
            (r / 2) as nat,
            |t: int|
                (
                    EndpointId { segment: right_segs[2 * t], side: Side::Start },
                    EndpointId { segment: right_segs[2 * t + 1], side: Side::Start },
                ),
        )
    } else if r == 0 {
        Seq::new(
            (l / 2) as nat,
            |t: int|
                (
                    EndpointId { segment: left_segs[2 * t], side: Side::End },
                    EndpointId { segment: left_segs[2 * t + 1], side: Side::End },
                ),
        )
    } else {
        boundary_matching_spec(l, r, u_pairs).map_values(
            |m: MatchPair|
                match m {
                    MatchPair::PassThrough { left, right } => (
                        EndpointId { segment: left_segs[left as int], side: Side::End },
                        EndpointId { segment: right_segs[right as int], side: Side::Start },
                    ),
                    MatchPair::LeftUTurn { a, b } => (
                        EndpointId { segment: left_segs[a as int], side: Side::End },
                        EndpointId { segment: left_segs[b as int], side: Side::End },
                    ),
                    MatchPair::RightUTurn { a, b } => (
                        EndpointId { segment: right_segs[a as int], side: Side::Start },
                        EndpointId { segment: right_segs[b as int], side: Side::Start },
                    ),
                },
        )
    }
}

/// An endpoint that lies on a boundary between two intervals: the end of
/// a segment of the left interval, or the start of a segment of the
/// right interval (the right interval's segments begin at the boundary).
pub open spec fn boundary_endpoint(e: EndpointId, left_segs: Seq<usize>, right_segs: Seq<usize>) -> bool {
    ||| e.side == Side::End && left_segs.contains(e.segment)
    ||| e.side == Side::Start && right_segs.contains(e.segment)
}

/// A partner-table slot that belongs to a boundary endpoint.
pub open spec fn boundary_slot(i: int, left_segs: Seq<usize>, right_segs: Seq<usize>) -> bool {
    ||| exists|q: int| 0 <= q < left_segs.len() && i == 2 * (#[trigger] left_segs[q]) + 1
    ||| exists|q: int| 0 <= q < right_segs.len() && i == 2 * (#[trigger] right_segs[q])
}

/// Records the connections across one critical-value boundary between an
/// interval whose root slots are the segments `left_segs` and the next,
/// whose slots are `right_segs`; `u_pairs` are the U-turn pairs chosen on
/// the side with more slots.
pub fn connect_at_boundary(
    left_segs: &Vec<usize>,
    right_segs: &Vec<usize>,
    u_pairs: &Vec<(usize, usize)>,
    partner: &mut Vec<Option<EndpointId>>,
)
    requires
        forall|t: int| 0 <= t < left_segs@.len() ==> 2 * (#[trigger] left_segs@[t]) + 1 < old(partner)@.len(),
        forall|t: int| 0 <= t < right_segs@.len() ==> 2 * (#[trigger] right_segs@[t]) + 1 < old(partner)@.len(),
        forall|t: int|
            0 <= t < u_pairs@.len() ==> (#[trigger] u_pairs@[t]).0 < left_segs@.len() + right_segs@.len()
                && u_pairs@[t].1 < left_segs@.len() + right_segs@.len()
                && u_pairs@[t].0 < if left_segs@.len() > right_segs@.len() { left_segs@.len() } else { right_segs@.len() }
                && u_pairs@[t].1 < if left_segs@.len() > right_segs@.len() { left_segs@.len() } else { right_segs@.len() },
    ensures
        final(partner)@ == apply_pairs(
            old(partner)@,
            boundary_endpoint_pairs(left_segs@, right_segs@, u_pairs@),
        ),
        final(partner)@.len() == old(partner)@.len(),
        forall|i: int|
            0 <= i < old(partner)@.len() && #[trigger] final(partner)@[i] != old(partner)@[i] ==> boundary_slot(
                i,
                left_segs@,
                right_segs@,
            ) && (final(partner)@[i] matches Some(e) && boundary_endpoint(e, left_segs@, right_segs@)),
{
    let l = left_segs.len();
    let r = right_segs.len();
    let ghost p0 = partner@;
    let ghost pairs = boundary_endpoint_pairs(left_segs@, right_segs@, u_pairs@);
    proof {
        law_boundary_pairs_on_boundary(left_segs@, right_segs@, u_pairs@);
        lemma_apply_boundary_pairs(p0, pairs, left_segs@, right_segs@);
    }
    if l == 0 && r == 0 {
        return;
    }
    if l == 0 || r == 0 {
        let segs = if l == 0 { right_segs } else { left_segs };
        let side = if l == 0 { Side::Start } else { Side::End };
        let adj = pair_all_adjacent(segs.len());
        let mut t: usize = 0;
        while t < adj.len()
            invariant
                t <= adj@.len(),
                adj@.len() == segs@.len() / 2,
                forall|q: int| 0 <= q < adj@.len() ==> #[trigger] adj@[q] == ((2 * q) as usize, (2 * q + 1) as usize),
                segs@ == (if l == 0 { right_segs@ } else { left_segs@ }),
                side == (if l == 0 { Side::Start } else { Side::End }),
                l == left_segs@.len(),
                r == right_segs@.len(),
                l == 0 || r == 0,
                !(l == 0 && r == 0),
                partner@.len() == p0.len(),
                forall|q: int| 0 <= q < segs@.len() ==> 2 * (#[trigger] segs@[q]) + 1 < p0.len(),
                pairs == boundary_endpoint_pairs(left_segs@, right_segs@, u_pairs@),
                pairs.len() == adj@.len(),
                partner@ == apply_pairs(p0, pairs.subrange(0, t as int)),
            decreases adj@.len() - t,
        {
            let (a, b) = adj[t];
            let ea = EndpointId { segment: segs[a], side };
            let eb = EndpointId { segment: segs[b], side };
            insert_pair(partner, ea, eb);
            proof {
                assert(pairs[t as int] == (ea, eb));
                assert(pairs.subrange(0, t + 1).drop_last() =~= pairs.subrange(0, t as int));
            }
            t = t + 1;
        }
        proof {
            assert(pairs.subrange(0, t as int) =~= pairs);
        }
        return;
    }
    let matching = build_boundary_matching(l, r, u_pairs);
    proof {
        lemma_matching_indices(l as int, r as int, u_pairs@);
    }
    let mut t: usize = 0;
    while t < matching.len()
        invariant
            t <= matching@.len(),
            l == left_segs@.len(),
            r == right_segs@.len(),
            l > 0 && r > 0,
            matching@ == boundary_matching_spec(l as int, r as int, u_pairs@),
            forall|q: int| 0 <= q < matching@.len() ==> match #[trigger] matching@[q] {
                MatchPair::PassThrough { left, right } => left < l && right < r,
                MatchPair::LeftUTurn { a, b } => a < l && b < l,
                MatchPair::RightUTurn { a, b } => a < r && b < r,
            },
            partner@.len() == p0.len(),
            forall|q: int| 0 <= q < left_segs@.len() ==> 2 * (#[trigger] left_segs@[q]) + 1 < p0.len(),
            forall|q: int| 0 <= q < right_segs@.len() ==> 2 * (#[trigger] right_segs@[q]) + 1 < p0.len(),
            pairs == boundary_endpoint_pairs(left_segs@, right_segs@, u_pairs@),
            pairs.len() == matching@.len(),
            partner@ == apply_pairs(p0, pairs.subrange(0, t as int)),
        decreases matching@.len() - t,
    {
        let (ea, eb) = match matching[t] {
            MatchPair::PassThrough { left, right } => (
                EndpointId { segment: left_segs[left], side: Side::End },
                EndpointId { segment: right_segs[right], side: Side::Start },
            ),
            MatchPair::LeftUTurn { a, b } => (
                EndpointId { segment: left_segs[a], side: Side::End },
                EndpointId { segment: left_segs[b], side: Side::End },
            ),
            MatchPair::RightUTurn { a, b } => (
                EndpointId { segment: right_segs[a], side: Side::Start },
                EndpointId { segment: right_segs[b], side: Side::Start },
            ),
        };
        insert_pair(partner, ea, eb);
        proof {
            assert(pairs[t as int] == (ea, eb));
            assert(pairs.subrange(0, t + 1).drop_last() =~= pairs.subrange(0, t as int));
        }
        t = t + 1;
    }
    proof {
        assert(pairs.subrange(0, t as int) =~= pairs);
    }
}

/// Slot indices in a boundary matching stay within the two intervals.
proof fn lemma_matching_indices(l: int, r: int, u_pairs: Seq<(usize, usize)>)
    requires
        l > 0,
        r > 0,
        forall|t: int|
            0 <= t < u_pairs.len() ==> (#[trigger] u_pairs[t]).0 < (if l > r { l } else { r }) && u_pairs[t].1 < (
            if l > r {
                l
            } else {
                r
            }),
    ensures
        forall|q: int|
            0 <= q < boundary_matching_spec(l, r, u_pairs).len() ==> match #[trigger] boundary_matching_spec(
                l,
                r,
                u_pairs,
            )[q] {
                MatchPair::PassThrough { left, right } => left < l && right < r,
                MatchPair::LeftUTurn { a, b } => a < l && b < l,
                MatchPair::RightUTurn { a, b } => a < r && b < r,
            },
{
    let spec = boundary_matching_spec(l, r, u_pairs);
    if l != r {
        lemma_matching_shape(l, r, u_pairs);
        let big = if l > r { l } else { r };
        lemma_unused_slots_bound(big, u_pairs);
    }
}

/// From index `first` on, each pair joins the end of a left segment to the
/// start of a right segment: a branch passing through the boundary.
pub open spec fn links_pass_through(
    pairs: Seq<(EndpointId, EndpointId)>,
    first: int,
    left_segs: Seq<usize>,
    right_segs: Seq<usize>,
) -> bool {
    forall|t: int|
        first <= t < pairs.len() ==> {
            let (e1, e2) = #[trigger] pairs[t];
            &&& e1.side == Side::End
            &&& left_segs.contains(e1.segment)
            &&& e2.side == Side::Start
            &&& right_segs.contains(e2.segment)
        }
}

/// Every pair of endpoints that a boundary contributes joins two boundary
/// endpoints: a left segment's end or a right segment's start. A U-turn
/// on the left interval joins two ends of left segments; one on the right
/// interval joins two starts of right segments; every pair after the
/// U-turns, when both intervals have slots, joins a left end to a right
/// start.
#[verifier::rlimit(60)]
pub proof fn law_boundary_pairs_on_boundary(
    left_segs: Seq<usize>,
    right_segs: Seq<usize>,
    u_pairs: Seq<(usize, usize)>,
)
    requires
        forall|t: int|
            0 <= t < u_pairs.len() ==> (#[trigger] u_pairs[t]).0 < (if left_segs.len() > right_segs.len() {
                left_segs.len()
            } else {
                right_segs.len()
            }) && u_pairs[t].1 < (if left_segs.len() > right_segs.len() {
                left_segs.len()
            } else {
                right_segs.len()
            }),
    ensures
        forall|t: int|
            0 <= t < boundary_endpoint_pairs(left_segs, right_segs, u_pairs).len() ==> boundary_endpoint(
                (#[trigger] boundary_endpoint_pairs(left_segs, right_segs, u_pairs)[t]).0,
                left_segs,
                right_segs,
            ) && boundary_endpoint(
                boundary_endpoint_pairs(left_segs, right_segs, u_pairs)[t].1,
                left_segs,
                right_segs,
            ),
        left_segs.len() > right_segs.len() > 0 ==> forall|t: int|
            0 <= t < u_pairs.len() ==> {
                let (e1, e2) = #[trigger] boundary_endpoint_pairs(left_segs, right_segs, u_pairs)[t];
                e1.side == Side::End && e2.side == Side::End && left_segs.contains(e1.segment)
                    && left_segs.contains(e2.segment)
            },
        right_segs.len() > left_segs.len() > 0 ==> forall|t: int|
            0 <= t < u_pairs.len() ==> {
                let (e1, e2) = #[trigger] boundary_endpoint_pairs(left_segs, right_segs, u_pairs)[t];
                e1.side == Side::Start && e2.side == Side::Start && right_segs.contains(e1.segment)
                    && right_segs.contains(e2.segment)
            },
        left_segs.len() == right_segs.len() ==> links_pass_through(
            boundary_endpoint_pairs(left_segs, right_segs, u_pairs),
            0,
            left_segs,
            right_segs,
        ),
        left_segs.len() != right_segs.len() && left_segs.len() > 0 && right_segs.len() > 0
            ==> links_pass_through(
            boundary_endpoint_pairs(left_segs, right_segs, u_pairs),
            u_pairs.len() as int,
            left_segs,
            right_segs,
        ),
{
    let l = left_segs.len() as int;
    let r = right_segs.len() as int;
    let pairs = boundary_endpoint_pairs(left_segs, right_segs, u_pairs);
    if l == 0 && r == 0 {
    } else if l == 0 {
        assert forall|t: int| 0 <= t < pairs.len() implies boundary_endpoint(
            (#[trigger] pairs[t]).0,
            left_segs,
            right_segs,
        ) && boundary_endpoint(pairs[t].1, left_segs, right_segs) by {
            assert(right_segs[2 * t] == pairs[t].0.segment);
            assert(right_segs[2 * t + 1] == pairs[t].1.segment);
        }
    } else if r == 0 {
        assert forall|t: int| 0 <= t < pairs.len() implies boundary_endpoint(
            (#[trigger] pairs[t]).0,
            left_segs,
            right_segs,
        ) && boundary_endpoint(pairs[t].1, left_segs, right_segs) by {
            assert(left_segs[2 * t] == pairs[t].0.segment);
            assert(left_segs[2 * t + 1] == pairs[t].1.segment);
        }
    } else {
        let m = boundary_matching_spec(l, r, u_pairs);
        lemma_matching_indices(l, r, u_pairs);
        assert forall|t: int| 0 <= t < pairs.len() implies boundary_endpoint(
            (#[trigger] pairs[t]).0,
            left_segs,
            right_segs,
        ) && boundary_endpoint(pairs[t].1, left_segs, right_segs) by {
            let mt = m[t];
            match mt {
                MatchPair::PassThrough { left, right } => {
                    assert(left_segs[left as int] == pairs[t].0.segment);
                    assert(right_segs[right as int] == pairs[t].1.segment);
                },
                MatchPair::LeftUTurn { a, b } => {
                    assert(left_segs[a as int] == pairs[t].0.segment);
                    assert(left_segs[b as int] == pairs[t].1.segment);
                },
                MatchPair::RightUTurn { a, b } => {
                    assert(right_segs[a as int] == pairs[t].0.segment);
                    assert(right_segs[b as int] == pairs[t].1.segment);
                },
            }
        }
        if l == r {
            assert forall|t: int| 0 <= t < pairs.len() implies {
                let (e1, e2) = #[trigger] pairs[t];
                &&& e1.side == Side::End
                &&& left_segs.contains(e1.segment)
                &&& e2.side == Side::Start
                &&& right_segs.contains(e2.segment)
            } by {
                assert(m[t] == MatchPair::PassThrough { left: t as usize, right: t as usize });
            }
        }
        if l != r {
            lemma_matching_shape(l, r, u_pairs);
            assert forall|t: int| u_pairs.len() <= t < pairs.len() implies {
                let (e1, e2) = #[trigger] pairs[t];
                &&& e1.side == Side::End
                &&& left_segs.contains(e1.segment)
                &&& e2.side == Side::Start
                &&& right_segs.contains(e2.segment)
            } by {
                let k = t - u_pairs.len();
                assert(m[u_pairs.len() + k] == m[t]);
            }
            assert forall|t: int| 0 <= t < u_pairs.len() implies (#[trigger] pairs[t]).0.side == (if l > r {
                Side::End
            } else {
                Side::Start
            }) && pairs[t].1.side == (if l > r {
                Side::End
            } else {
                Side::Start
            }) by {
                assert(m[t] == (if l > r {
                    MatchPair::LeftUTurn { a: u_pairs[t].0, b: u_pairs[t].1 }
                } else {
                    MatchPair::RightUTurn { a: u_pairs[t].0, b: u_pairs[t].1 }
                }));
            }
        }
    }
}

/// A boundary endpoint's slot is a boundary slot.
proof fn lemma_boundary_endpoint_slot(e: EndpointId, left_segs: Seq<usize>, right_segs: Seq<usize>)
    requires
        boundary_endpoint(e, left_segs, right_segs),
    ensures
        boundary_slot(endpoint_slot(e), left_segs, right_segs),
{
    if e.side == Side::End && left_segs.contains(e.segment) {
        let q = choose|q: int| 0 <= q < left_segs.len() && left_segs[q] == e.segment;
        assert(endpoint_slot(e) == 2 * left_segs[q] + 1);
    } else {
        let q = choose|q: int| 0 <= q < right_segs.len() && right_segs[q] == e.segment;
        assert(endpoint_slot(e) == 2 * right_segs[q]);
    }
}

/// Recording pairs of boundary endpoints changes only boundary slots, and
/// each changed slot then names a boundary endpoint.
proof fn lemma_apply_boundary_pairs(
    partner: Seq<Option<EndpointId>>,
    pairs: Seq<(EndpointId, EndpointId)>,
    left_segs: Seq<usize>,
    right_segs: Seq<usize>,
)
    requires
        forall|q: int| 0 <= q < left_segs.len() ==> 2 * (#[trigger] left_segs[q]) + 1 < partner.len(),
        forall|q: int| 0 <= q < right_segs.len() ==> 2 * (#[trigger] right_segs[q]) + 1 < partner.len(),
        forall|t: int|
            0 <= t < pairs.len() ==> boundary_endpoint((#[trigger] pairs[t]).0, left_segs, right_segs)
                && boundary_endpoint(pairs[t].1, left_segs, right_segs),
    ensures
        apply_pairs(partner, pairs).len() == partner.len(),
        forall|i: int|
            0 <= i < partner.len() && #[trigger] apply_pairs(partner, pairs)[i] != partner[i] ==> boundary_slot(
                i,
                left_segs,
                right_segs,
            ) && (apply_pairs(partner, pairs)[i] matches Some(e) && boundary_endpoint(e, left_segs, right_segs)),
    decreases pairs.len(),
{
    if pairs.len() > 0 {
        let init = pairs.drop_last();
        assert forall|t: int| 0 <= t < init.len() implies boundary_endpoint(
            (#[trigger] init[t]).0,
            left_segs,
            right_segs,
        ) && boundary_endpoint(init[t].1, left_segs, right_segs) by {
            assert(init[t] == pairs[t]);
        }
        lemma_apply_boundary_pairs(partner, init, left_segs, right_segs);
        let prev = apply_pairs(partner, init);
        let (a, b) = pairs.last();
        assert(pairs.last() == pairs[pairs.len() - 1]);
        if a != b {
            lemma_boundary_endpoint_slot(a, left_segs, right_segs);
            lemma_boundary_endpoint_slot(b, left_segs, right_segs);
            if a.side == Side::End && left_segs.contains(a.segment) {
                let q = choose|q: int| 0 <= q < left_segs.len() && left_segs[q] == a.segment;
                assert(2 * left_segs[q] + 1 < partner.len());
            } else {
                let q = choose|q: int| 0 <= q < right_segs.len() && right_segs[q] == a.segment;
                assert(2 * right_segs[q] + 1 < partner.len());
            }
            if b.side == Side::End && left_segs.contains(b.segment) {
                let q = choose|q: int| 0 <= q < left_segs.len() && left_segs[q] == b.segment;
                assert(2 * left_segs[q] + 1 < partner.len());
            } else {
                let q = choose|q: int| 0 <= q < right_segs.len() && right_segs[q] == b.segment;
                assert(2 * right_segs[q] + 1 < partner.len());
            }
            let res = prev.update(endpoint_slot(a), Some(b)).update(endpoint_slot(b), Some(a));
            assert(apply_pairs(partner, pairs) == res);
            assert forall|i: int|
                0 <= i < partner.len() && #[trigger] apply_pairs(partner, pairs)[i] != partner[i] implies boundary_slot(
                i,
                left_segs,
                right_segs,
            ) && (apply_pairs(partner, pairs)[i] matches Some(e) && boundary_endpoint(e, left_segs, right_segs)) by {
                if i == endpoint_slot(b) {
                } else if i == endpoint_slot(a) {
                } else {
                    assert(res[i] == prev[i]);
                }
            }
        }
    }
}

/// Unused slots lie below the slot count.
proof fn lemma_unused_slots_bound(n: int, pairs: Seq<(usize, usize)>)
    ensures
        forall|i: int| 0 <= i < unused_slots(n, pairs).len() ==> 0 <= #[trigger] unused_slots(n, pairs)[i] < n,
    decreases n,
{
    if n > 0 {
        lemma_unused_slots_bound(n - 1, pairs);
        let prev = unused_slots(n - 1, pairs);
        if !slot_used(pairs, n - 1) {
            assert(unused_slots(n, pairs) == prev.push(n - 1));
            assert forall|i: int| 0 <= i < prev.len() + 1 implies 0 <= #[trigger] prev.push(n - 1)[i] < n by {
                if i < prev.len() {
                    assert(prev.push(n - 1)[i] == prev[i]);
                }
            }
        }
    }
}

/// How many times `v` occurs in `s`.
pub open spec fn occurrences(s: Seq<usize>, v: usize) -> nat
    decreases s.len(),
{
    if s.len() == 0 {
        0
    } else {
        occurrences(s.drop_last(), v) + if s.last() == v {
            1nat
        } else {
            0nat
        }
    }
}

/// A value occurs at most as often as the sequence is long, and occurs at
/// all only at some index.
proof fn lemma_occurrences(s: Seq<usize>, v: usize)
    ensures
        occurrences(s, v) <= s.len(),
        occurrences(s, v) > 0 ==> exists|j: int| 0 <= j < s.len() && s[j] == v,
    decreases s.len(),
{
    if s.len() > 0 {
        lemma_occurrences(s.drop_last(), v);
        if occurrences(s.drop_last(), v) > 0 {
            let j = choose|j: int| 0 <= j < s.drop_last().len() && s.drop_last()[j] == v;
            assert(s[j] == v);
        } else if s.last() == v {
            assert(s[s.len() - 1] == v);
        }
    }
}

/// The number of times `v` occurs in `counts`.
fn count_occurrences(counts: &Vec<usize>, v: usize) -> (n: usize)
    ensures
        n == occurrences(counts@, v),
{
    let mut n: usize = 0;
    let mut j: usize = 0;
    while j < counts.len()
        invariant
            j <= counts.len(),
            n == occurrences(counts@.take(j as int), v),
        decreases counts.len() - j,
    {
        proof {
            assert(counts@.take(j as int + 1).drop_last() =~= counts@.take(j as int));
            lemma_occurrences(counts@.take(j as int), v);
        }
        if counts[j] == v {
            n = n + 1;
        }
        j = j + 1;
    }
    assert(counts@.take(j as int) =~= counts@);
    n
}

/// The most frequent root count among the samples of an interval, given as
/// the number of roots of each sample: a value of `counts` that no other
/// value occurs more often than, or `0` when there are no samples.
pub fn mode_root_count(counts: &Vec<usize>) -> (m: usize)
    ensures
        counts.len() == 0 ==> m == 0,
        counts.len() > 0 ==> counts@.contains(m),
        forall|c: usize| occurrences(counts@, c) <= occurrences(counts@, m),
{
    let mut best: usize = 0;
    let mut best_count: usize = 0;
    let mut i: usize = 0;
    while i < counts.len()
        invariant
            i <= counts.len(),
            i > 0 ==> best_count == occurrences(counts@, best),
            i == 0 ==> best == 0 && best_count == 0,
            i > 0 ==> counts@.contains(best),
            forall|j: int| 0 <= j < i ==> occurrences(counts@, #[trigger] counts@[j]) <= best_count,
        decreases counts.len() - i,
    {
        let c = count_occurrences(counts, counts[i]);
        if i == 0 || c > best_count {
            best = counts[i];
            best_count = c;
        }
        proof {
            assert(counts@[i as int] == counts[i as int]);
        }
        i = i + 1;
    }
    proof {
        assert forall|c: usize| occurrences(counts@, c) <= occurrences(counts@, best) by {
            lemma_occurrences(counts@, c);
            if counts.len() == 0 {
                assert(occurrences(counts@, c) == 0);
            }
            if occurrences(counts@, c) > 0 {
                let j = choose|j: int| 0 <= j < counts@.len() && counts@[j] == c;
                assert(occurrences(counts@, counts@[j]) <= best_count);
            }
        }
    }
    best
}

} // verus!
