//! Integer lattice identities of snap-rounded vertices.

use std::collections::BTreeMap;
use vstd::prelude::*;

verus! {

broadcast use {vstd::std_specs::btree::group_btree_axioms, vstd::laws_cmp::group_laws_cmp};

/// Integer lattice index: the canonical identity of a snap-rounded vertex.
/// Two points that snap to the same grid cell get the same index,
/// regardless of the floating-point operation order that produced them.
#[derive(Clone, Copy, Debug, PartialEq, Eq, Hash, PartialOrd, Ord, Structural)]
pub struct LatticeIndex {
    pub ix: i64,
    pub iy: i64,
    pub iz: i64,
}

impl LatticeIndex {
    /// The three lattice coordinates as a tuple.
    pub open spec fn key(&self) -> (i64, i64, i64) {
        (self.ix, self.iy, self.iz)
    }
}

/// Entry `u` of `unique` first occurs in `indices` at position `i`, which
/// `map` sends to `u`.
pub open spec fn seen_first_at(
    indices: Seq<LatticeIndex>,
    unique: Seq<LatticeIndex>,
    map: Seq<usize>,
    u: int,
    i: int,
) -> bool {
    &&& 0 <= i < indices.len()
    &&& unique[u] == indices[i]
    &&& map[i] == u
    &&& forall|j: int| 0 <= j < i ==> indices[j] != unique[u]
}

/// Entry `u` of `unique` has a first occurrence in `indices`.
pub open spec fn has_first_seen(indices: Seq<LatticeIndex>, unique: Seq<LatticeIndex>, map: Seq<usize>, u: int) -> bool {
    exists|i: int| #[trigger] seen_first_at(indices, unique, map, u, i)
}

/// Every entry of `unique` is the index found at its first occurrence in
/// `indices`, a position that `map` sends back to that entry.
pub open spec fn each_first_seen(indices: Seq<LatticeIndex>, unique: Seq<LatticeIndex>, map: Seq<usize>) -> bool {
    forall|u: int| 0 <= u < unique.len() ==> #[trigger] has_first_seen(indices, unique, map, u)
}

/// Whether two lattice indices name the same grid vertex.
pub fn coincident_indices(a: LatticeIndex, b: LatticeIndex) -> (r: bool)
    ensures
        r == (a == b),
{
    a == b
}

/// Merges vertices with equal lattice indices. Returns the distinct
/// indices in order of first occurrence and, for each input, the position
/// of its index among them.
pub fn merge_lattice_indices(indices: &Vec<LatticeIndex>) -> (result: (Vec<LatticeIndex>, Vec<usize>))
    ensures
        result.1@.len() == indices@.len(),
        forall|i: int, j: int|
            0 <= i < j < result.0@.len() ==> #[trigger] result.0@[i] != #[trigger] result.0@[j],
        forall|i: int|
            0 <= i < indices@.len() ==> (#[trigger] result.1@[i] as int) < result.0@.len()
                && result.0@[result.1@[i] as int] == indices@[i],
        each_first_seen(indices@, result.0@, result.1@),
        forall|u: int, v: int, i: int, j: int|
            u < v && #[trigger] seen_first_at(indices@, result.0@, result.1@, u, i) && #[trigger] seen_first_at(
                indices@,
                result.0@,
                result.1@,
                v,
                j,
            ) ==> i < j,
{
    let mut index_to_uid: BTreeMap<(i64, i64, i64), usize> = BTreeMap::new();
    let mut unique: Vec<LatticeIndex> = Vec::new();
    let mut index_map: Vec<usize> = Vec::new();
    let ghost mut first: Seq<int> = Seq::empty();
    let mut k: usize = 0;
    while k < indices.len()
        invariant
            k <= indices@.len(),
            index_map@.len() == k,
            first.len() == unique@.len(),
            forall|i: int, j: int|
                0 <= i < j < unique@.len() ==> #[trigger] unique@[i] != #[trigger] unique@[j],
            forall|key: (i64, i64, i64)|
                #[trigger] index_to_uid@.contains_key(key) ==> (index_to_uid@[key] as int) < unique@.len()
                    && unique@[index_to_uid@[key] as int].key() == key,
            forall|u: int| 0 <= u < unique@.len() ==> #[trigger] index_to_uid@.contains_key(unique@[u].key())
                && index_to_uid@[unique@[u].key()] == u,
            forall|i: int|
                0 <= i < k ==> (#[trigger] index_map@[i] as int) < unique@.len()
                    && unique@[index_map@[i] as int] == indices@[i],
            forall|u: int|
                0 <= u < unique@.len() ==> 0 <= #[trigger] first[u] < k && unique@[u] == indices@[first[u]]
                    && index_map@[first[u]] == u && forall|j: int| 0 <= j < first[u] ==> indices@[j] != unique@[u],
            forall|i: int| 0 <= i < k ==> #[trigger] index_to_uid@.contains_key(indices@[i].key()),
            forall|u: int, v: int| 0 <= u < v < first.len() ==> #[trigger] first[u] < #[trigger] first[v],
        decreases indices@.len() - k,
    {
        let li = indices[k];
        let key = (li.ix, li.iy, li.iz);
        let uid = match index_to_uid.get(&key) {
            Some(u) => *u,
            None => {
                let id = unique.len();
                proof {
                    assert forall|j: int| 0 <= j < k implies indices@[j] != li by {
                        if indices@[j] == li {
                            assert(index_to_uid@.contains_key(indices@[j].key()));
                        }
                    }
                    assert forall|u: int| 0 <= u < unique@.len() implies unique@[u] != li by {
                        assert(index_to_uid@.contains_key(unique@[u].key()));
                    }
                    first = first.push(k as int);
                }
                unique.push(li);
                index_to_uid.insert(key, id);
                id
            },
        };
        index_map.push(uid);
        k = k + 1;
    }
    proof {
        let uq = unique@;
        let mp = index_map@;
        assert forall|u: int| 0 <= u < uq.len() implies #[trigger] has_first_seen(indices@, uq, mp, u) by {
            assert(seen_first_at(indices@, uq, mp, u, first[u]));
        }
        assert forall|u: int, v: int, i: int, j: int|
            u < v && #[trigger] seen_first_at(indices@, uq, mp, u, i) && #[trigger] seen_first_at(
                indices@,
                uq,
                mp,
                v,
                j,
            ) implies i < j by {
            if i > first[u] {
                assert(indices@[first[u]] == uq[u]);
            }
            if first[u] > i {
                assert(indices@[i] == uq[u]);
            }
            if j > first[v] {
                assert(indices@[first[v]] == uq[v]);
            }
            if first[v] > j {
                assert(indices@[j] == uq[v]);
            }
            assert(first[u] < first[v]);
        }
    }
    let result = (unique, index_map);
    result
}

} // verus!
